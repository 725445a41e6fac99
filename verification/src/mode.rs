use vstd::prelude::*;

verus! {

/// How a span of text was captured or how a Visual range is interpreted:
/// character-wise, line-wise, or block-wise.
#[derive(Clone, Copy, Debug, PartialEq, Eq, Structural)]
pub enum VisualMode {
    Normal,
    Linewise,
    Blockwise,
}

} // verus!
