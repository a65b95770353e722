//! Unicode-aware string-region identification for fuzzing test cases.
//!
//! Given an arbitrary byte buffer, [`extract_metadata`] discovers every
//! maximal decodable text region together with a bitmap of the byte offsets
//! at which a Unicode scalar value begins.  [`UnicodeIdentificationStage`]
//! wraps the analysis as a pipeline stage that computes the result once per
//! test case and caches it as attached metadata.

mod bits;
mod extract;
mod stage;
mod utf8;

pub use stage::lemma_perform_idempotent;
pub use stage::perform_spec;
pub use stage::Error;
pub use stage::ExecutionDecision;
pub use stage::StageResult;
pub use stage::Testcase;
pub use stage::UnicodeIdentificationStage;

pub use extract::extract_metadata;
pub use extract::in_range_span;
pub use extract::lemma_ascii_single_range;
pub use extract::metadata_ok;
pub use extract::range_end;
pub use extract::range_ok;
pub use extract::ranges_ok;
pub use extract::UnicodeIdentificationMetadata;

pub use bits::bits_of;
pub use bits::bitvec_max_bits;
pub use bits::BoundaryBitmap;

pub use utf8::is_continuation;
pub use utf8::scalar_len;
pub use utf8::prefix_end;
pub use utf8::char_starts;
