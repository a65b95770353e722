use unicode_ranges::extract_metadata;
use unicode_ranges::BoundaryBitmap;
use unicode_ranges::Error;
use unicode_ranges::ExecutionDecision;
use unicode_ranges::StageResult;
use unicode_ranges::Testcase;
use unicode_ranges::UnicodeIdentificationMetadata;
use unicode_ranges::UnicodeIdentificationStage;

fn bitmap_bools(b: &BoundaryBitmap) -> Vec<bool> {
    let mut out = Vec::new();
    let mut i = 0;
    while i < b.len() {
        out.push(b.get(i));
        i += 1;
    }
    out
}

fn summary(m: &UnicodeIdentificationMetadata) -> Vec<(usize, Vec<bool>)> {
    m.ranges().iter().map(|(start, bits)| (*start, bitmap_bools(bits))).collect()
}

#[test]
fn perform_attaches_metadata() {
    let mut stage = UnicodeIdentificationStage::new();
    let mut tc = Testcase::new(b"abc".to_vec());
    let r = stage.perform(&mut tc);
    assert_eq!(r, Ok(StageResult::Success));
    let meta = tc.metadata().expect("metadata must be attached");
    assert_eq!(summary(meta), vec![(0, vec![true, true, true])]);
}

#[test]
fn perform_twice_keeps_identical_metadata() {
    let mut stage = UnicodeIdentificationStage::new();
    let mut tc = Testcase::new(vec![0xC2, 0xA9, 0xFF, b'a']);
    assert_eq!(stage.perform(&mut tc), Ok(StageResult::Success));
    let first = summary(tc.metadata().expect("attached"));
    assert_eq!(stage.perform(&mut tc), Ok(StageResult::Success));
    let second = summary(tc.metadata().expect("still attached"));
    assert_eq!(first, second);
}

#[test]
fn skip_does_not_touch_load_path() {
    // a test case that already carries metadata but whose input cannot be
    // materialized: perform must succeed without ever loading
    let mut stage = UnicodeIdentificationStage::new();
    let mut tc = Testcase::unloadable();
    tc.add_metadata(extract_metadata(&b"xy".to_vec()));
    assert_eq!(stage.perform(&mut tc), Ok(StageResult::Success));
    assert!(tc.metadata().is_some());
}

#[test]
fn missing_input_surfaces_storage_error() {
    let mut stage = UnicodeIdentificationStage::new();
    let mut tc = Testcase::unloadable();
    assert_eq!(stage.perform(&mut tc), Err(Error::MissingInput));
    assert!(tc.metadata().is_none());
}

#[test]
fn load_input_returns_resident_bytes() {
    let tc = Testcase::new(vec![1, 2, 3]);
    assert_eq!(tc.load_input().expect("resident").as_slice(), &[1, 2, 3]);
}

#[test]
fn should_run_always_continues() {
    let mut stage = UnicodeIdentificationStage::new();
    assert_eq!(stage.should_run(), Ok(ExecutionDecision::Continue));
}

#[test]
fn clear_progress_is_a_noop() {
    let mut stage = UnicodeIdentificationStage::default();
    assert_eq!(stage.clear_progress(), Ok(()));
}

#[test]
fn perform_on_empty_input_attaches_empty_metadata() {
    let mut stage = UnicodeIdentificationStage::new();
    let mut tc = Testcase::new(Vec::new());
    assert_eq!(stage.perform(&mut tc), Ok(StageResult::Success));
    assert_eq!(tc.metadata().expect("attached").ranges().len(), 0);
}
