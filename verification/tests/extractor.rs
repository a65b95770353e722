use unicode_ranges::extract_metadata;
use unicode_ranges::BoundaryBitmap;
use unicode_ranges::UnicodeIdentificationMetadata;

fn bitmap_bools(b: &BoundaryBitmap) -> Vec<bool> {
    let mut out = Vec::new();
    let mut i = 0;
    while i < b.len() {
        out.push(b.get(i));
        i += 1;
    }
    out
}

fn summary(m: &UnicodeIdentificationMetadata) -> Vec<(usize, Vec<bool>)> {
    m.ranges().iter().map(|(start, bits)| (*start, bitmap_bools(bits))).collect()
}

#[test]
fn empty_buffer_yields_no_ranges() {
    let meta = extract_metadata(&Vec::new());
    assert_eq!(meta.ranges().len(), 0);
}

#[test]
fn ascii_buffer_yields_single_full_range() {
    let meta = extract_metadata(&b"abc".to_vec());
    assert_eq!(summary(&meta), vec![(0, vec![true, true, true])]);
}

#[test]
fn two_byte_codepoint_then_invalid_byte() {
    // copyright sign, then an undecodable byte: one range of two bytes,
    // second bit unset (continuation byte); the trailing byte yields nothing
    let meta = extract_metadata(&vec![0xC2, 0xA9, 0xFF]);
    assert_eq!(summary(&meta), vec![(0, vec![true, false])]);
}

#[test]
fn lone_continuation_reentry_yields_no_second_range() {
    // the continuation byte at offset 1 is re-tried as its own candidate and
    // fails, so only the range at offset 0 is produced
    let meta = extract_metadata(&vec![0xC2, 0xA9]);
    assert_eq!(summary(&meta), vec![(0, vec![true, false])]);
}

#[test]
fn all_invalid_noise_yields_no_ranges() {
    let meta = extract_metadata(&vec![0xFF, 0xFF, 0xFF, 0xFF, 0xFF]);
    assert_eq!(meta.ranges().len(), 0);
}

#[test]
fn shifted_text_is_recovered() {
    let meta = extract_metadata(&vec![0xFF, b'a', b'b']);
    assert_eq!(summary(&meta), vec![(1, vec![true, true])]);
}

#[test]
fn text_on_both_sides_of_an_invalid_byte() {
    let meta = extract_metadata(&vec![b'a', 0xFF, b'b']);
    assert_eq!(summary(&meta), vec![(0, vec![true]), (2, vec![true])]);
}

#[test]
fn continuation_chain_recovers_trailing_text() {
    // the interior candidate at offset 1 fails, enqueues offset 2, which
    // fails and enqueues offset 3, where fresh text begins
    let meta = extract_metadata(&vec![0xC2, 0xA9, 0xFF, b'a']);
    assert_eq!(summary(&meta), vec![(0, vec![true, false]), (3, vec![true])]);
}

#[test]
fn four_byte_scalar_single_range() {
    let meta = extract_metadata(&vec![0xF0, 0x9F, 0x98, 0x80]);
    assert_eq!(summary(&meta), vec![(0, vec![true, false, false, false])]);
}

#[test]
fn three_byte_scalar_single_range() {
    let meta = extract_metadata(&vec![0xE2, 0x82, 0xAC]);
    assert_eq!(summary(&meta), vec![(0, vec![true, false, false])]);
}

#[test]
fn surrogate_encoding_is_rejected() {
    let meta = extract_metadata(&vec![0xED, 0xA0, 0x80]);
    assert_eq!(meta.ranges().len(), 0);
}

#[test]
fn overlong_encoding_is_rejected() {
    let meta = extract_metadata(&vec![0xC0, 0x80]);
    assert_eq!(meta.ranges().len(), 0);
}

#[test]
fn interior_reentry_does_not_duplicate_range() {
    // decoding succeeds to the end from offset 0; the interior candidate at
    // offset 1 is a continuation byte and yields nothing new
    let meta = extract_metadata(&vec![0xC2, 0xA9, b'a']);
    assert_eq!(summary(&meta), vec![(0, vec![true, false, true])]);
}

#[test]
fn start_offsets_are_pairwise_distinct() {
    let buffer = vec![b'a', 0xFF, 0xC2, 0xA9, 0xFF, b'z', 0x80, b'q'];
    let meta = extract_metadata(&buffer);
    let ranges = meta.ranges();
    for p in 0..ranges.len() {
        for q in 0..ranges.len() {
            if p != q {
                assert_ne!(ranges[p].0, ranges[q].0);
            }
        }
    }
    assert!(!ranges.is_empty());
}

#[test]
fn default_metadata_has_no_ranges() {
    let meta = UnicodeIdentificationMetadata::default();
    assert_eq!(meta.ranges().len(), 0);
}

#[test]
fn truncated_multibyte_sequence_yields_no_range() {
    // a 3-byte lead with only one continuation byte present
    let meta = extract_metadata(&vec![0xE2, 0x82]);
    assert_eq!(meta.ranges().len(), 0);
}
