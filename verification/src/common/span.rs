//! Source positions.
use crate::common::ids::SourceId;
use vstd::prelude::*;

verus! {

/// A range of a source file.
#[derive(Clone, Copy, PartialEq, Eq, Hash, Debug, Structural)]
pub struct Span {
    pub source: SourceId,
    pub start: u32,
    pub end: u32,
}

impl Span {
    pub fn new(source: SourceId, start: u32, end: u32) -> (span: Self)
        ensures
            span == (Span { source, start, end }),
    {
        Span { source, start, end }
    }

    pub open spec fn spec_synthetic() -> Self {
        Span { source: SourceId(usize::MAX), start: 0, end: 0 }
    }

    /// The span of a node that no source text gave rise to.
    #[verifier::when_used_as_spec(spec_synthetic)]
    pub fn synthetic() -> (span: Self)
        ensures
            span == Self::spec_synthetic(),
    {
        Span { source: SourceId(usize::MAX), start: 0, end: 0 }
    }
}

} // verus!
