use vstd::prelude::*;

verus! {

use crate::mode::VisualMode;

/// Content of a paste buffer: the captured text and the visual kind it
/// was captured with, which governs how it is re-inserted.
#[derive(Debug)]
pub struct RegisterData {
    pub content: String,
    pub mode: VisualMode,
}

impl RegisterData {
    pub fn new(content: String, mode: VisualMode) -> (r: RegisterData)
        ensures
            r.content@ == content@,
            r.mode == mode,
    {
        RegisterData { content, mode }
    }
}

} // verus!
