//! The options of reading a document.

use vstd::prelude::*;

verus! {

/// How a document is read.
#[derive(Debug)]
pub struct QPDFReadParams {
    /// Rebuild the cross-reference data from the objects found in the file
    /// where it is damaged.
    pub attempt_recovery: bool,
    /// Take no cross-reference data from a cross-reference stream.
    pub ignore_xref: bool,
}

impl Default for QPDFReadParams {
    fn default() -> (r: Self)
        ensures
            !r.attempt_recovery,
            !r.ignore_xref,
    {
        QPDFReadParams { attempt_recovery: false, ignore_xref: false }
    }
}

impl QPDFReadParams {
    pub fn with_attempt_recovery(self) -> (r: Self)
        ensures
            r == (QPDFReadParams { attempt_recovery: true, ..self }),
    {
        QPDFReadParams { attempt_recovery: true, ignore_xref: self.ignore_xref }
    }

    pub fn with_ignore_xref(self) -> (r: Self)
        ensures
            r == (QPDFReadParams { ignore_xref: true, ..self }),
    {
        QPDFReadParams { attempt_recovery: self.attempt_recovery, ignore_xref: true }
    }
}

} // verus!
