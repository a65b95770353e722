//! The identification stage: a pipeline-stage wrapper that computes the
//! range metadata once per test case and caches it.
//!
//! The fuzzing loop's stage pipeline drives every stage through the same
//! three operations: `should_run` (continue/skip decision), `perform`, and
//! `clear_progress` (reset).  This stage performs no target execution, so it
//! always continues and has no progress to reset.  `perform` short-circuits
//! when the test case already carries metadata, otherwise materializes the
//! test case's bytes, runs the extractor, and attaches the result.

use vstd::prelude::*;

use crate::bits::bitvec_max_bits;
use crate::extract::extract_metadata;
use crate::extract::metadata_ok;
use crate::extract::UnicodeIdentificationMetadata;

verus! {

/// Failures surfaced by `perform`: the test-case storage could not
/// materialize the input's byte content.
#[derive(Clone, Copy, Debug, PartialEq, Eq, Structural)]
pub enum Error {
    MissingInput,
}

/// Outcome a stage reports to the pipeline.
#[derive(Clone, Copy, Debug, PartialEq, Eq, Structural)]
pub enum StageResult {
    Success,
}

/// Whether the pipeline should run a stage or skip it this iteration.
#[derive(Clone, Copy, Debug, PartialEq, Eq, Structural)]
pub enum ExecutionDecision {
    Continue,
    Skip,
}

/// One fuzzing test case: its raw byte content, if resident in memory, and
/// the identification metadata attached to it, if already computed.  A test
/// case whose input is not resident models a storage failure on load.
pub struct Testcase {
    input: Option<Vec<u8>>,
    metadata: Option<UnicodeIdentificationMetadata>,
}

impl Testcase {
    /// The byte content, if resident.
    pub closed spec fn input_spec(&self) -> Option<Seq<u8>> {
        match self.input {
            Some(ref v) => Some(v@),
            None => None,
        }
    }

    /// The attached identification metadata, if any.
    pub closed spec fn metadata_spec(&self) -> Option<UnicodeIdentificationMetadata> {
        self.metadata
    }

    /// A test case holding `input`, with no metadata attached yet.
    pub fn new(input: Vec<u8>) -> (tc: Testcase)
        ensures
            tc.input_spec() == Some(input@),
            tc.metadata_spec() is None,
    {
        Testcase { input: Some(input), metadata: None }
    }

    /// A test case whose byte content cannot be materialized.
    pub fn unloadable() -> (tc: Testcase)
        ensures
            tc.input_spec() is None,
            tc.metadata_spec() is None,
    {
        Testcase { input: None, metadata: None }
    }

    /// Whether metadata of this stage's kind is already attached.
    pub fn has_metadata(&self) -> (r: bool)
        ensures
            r == self.metadata_spec() is Some,
    {
        self.metadata.is_some()
    }

    /// Read access to the attached metadata.
    pub fn metadata(&self) -> (r: Option<&UnicodeIdentificationMetadata>)
        ensures
            match r {
                Some(m) => self.metadata_spec() == Some(*m),
                None => self.metadata_spec() is None,
            },
    {
        self.metadata.as_ref()
    }

    /// Materialized byte content, or the storage failure when the input is
    /// not resident.
    pub fn load_input(&self) -> (r: Result<&Vec<u8>, Error>)
        ensures
            match r {
                Ok(v) => self.input_spec() == Some(v@),
                Err(e) => self.input_spec() is None && e == Error::MissingInput,
            },
    {
        match self.input {
            Some(ref v) => Ok(v),
            None => Err(Error::MissingInput),
        }
    }

    /// Attaches metadata of this stage's kind, leaving the byte content
    /// untouched.
    pub fn add_metadata(&mut self, meta: UnicodeIdentificationMetadata)
        ensures
            final(self).input_spec() == old(self).input_spec(),
            final(self).metadata_spec() == Some(meta),
    {
        self.metadata = Some(meta);
    }
}

/// The state transition `perform` makes on the current test case: an
/// idempotent skip when metadata is already attached, the storage failure
/// surfaced unchanged when the input cannot be materialized, and otherwise
/// the attachment of a well-formed analysis of the input's bytes.
pub open spec fn perform_spec(
    pre: Testcase,
    post: Testcase,
    r: Result<StageResult, Error>,
) -> bool {
    &&& pre.metadata_spec() is Some ==> {
        &&& post == pre
        &&& r == Ok::<StageResult, Error>(StageResult::Success)
    }
    &&& pre.metadata_spec() is None && pre.input_spec() is None ==> {
        &&& post.metadata_spec() == pre.metadata_spec()
        &&& post.input_spec() == pre.input_spec()
        &&& r == Err::<StageResult, Error>(Error::MissingInput)
    }
    &&& pre.metadata_spec() is None && pre.input_spec() is Some ==> {
        &&& post.input_spec() == pre.input_spec()
        &&& post.metadata_spec() is Some
        &&& metadata_ok(pre.input_spec()->Some_0, post.metadata_spec()->Some_0@)
        &&& r == Ok::<StageResult, Error>(StageResult::Success)
    }
}

/// Stage which identifies potential strings in the provided input.
pub struct UnicodeIdentificationStage {}

/// Idempotence of the stage: once `perform` has succeeded on a test case,
/// a second `perform` without intervening mutation succeeds again and
/// leaves the test case, metadata included, exactly as it was, by the
/// cache-check alone.
pub proof fn lemma_perform_idempotent(
    t0: Testcase,
    t1: Testcase,
    t2: Testcase,
    r1: Result<StageResult, Error>,
    r2: Result<StageResult, Error>,
)
    requires
        perform_spec(t0, t1, r1),
        r1 is Ok,
        perform_spec(t1, t2, r2),
    ensures
        t2 == t1,
        r2 == Ok::<StageResult, Error>(StageResult::Success),
{
    assert(t1.metadata_spec() is Some);
}

impl UnicodeIdentificationStage {
    /// Create a new instance of the string identification stage.
    pub fn new() -> Self {
        UnicodeIdentificationStage {}
    }

    /// Analyzes the current test case once and caches the result.
    ///
    /// If the test case already carries metadata, nothing is recomputed,
    /// loaded, or written: the call succeeds with the test case untouched.
    /// Otherwise the byte content is materialized (its absence is the
    /// storage failure, surfaced unchanged), the extractor runs, and the
    /// well-formed result is attached for every later consumer.
    pub fn perform(&mut self, testcase: &mut Testcase) -> (r: Result<StageResult, Error>)
        requires
            match old(testcase).input_spec() {
                Some(b) => b.len() <= bitvec_max_bits(),
                None => true,
            },
        ensures
            perform_spec(*old(testcase), *final(testcase), r),
    {
        if testcase.has_metadata() {
            return Ok(StageResult::Success);  // skip recompute
        }
        let input = match testcase.load_input() {
            Ok(v) => v,
            Err(e) => {
                return Err(e);
            },
        };
        let metadata = extract_metadata(input);
        testcase.add_metadata(metadata);
        Ok(StageResult::Success)
    }

    /// The stage does not run the target, so the pipeline never needs to
    /// skip it based on prior partial execution state.
    pub fn should_run(&mut self) -> (r: Result<ExecutionDecision, Error>)
        ensures
            r == Ok::<ExecutionDecision, Error>(ExecutionDecision::Continue),
    {
        Ok(ExecutionDecision::Continue)
    }

    /// The stage is atomic within an iteration: no partial progress exists,
    /// so there is nothing to reset.
    pub fn clear_progress(&mut self) -> (r: Result<(), Error>)
        ensures
            r == Ok::<(), Error>(()),
    {
        Ok(())
    }
}

impl Default for UnicodeIdentificationStage {
    fn default() -> Self {
        Self::new()
    }
}

} // verus!
