use vstd::prelude::*;

verus! {

/// The edit commands this core dispatches on.
#[derive(Clone, Copy, Debug, PartialEq, Eq, Structural)]
pub enum EditCommand {
    MoveLineUp,
    NormalMode,
    InsertMode,
    ToggleVisualMode,
    ToggleLinewiseVisualMode,
    ToggleBlockwiseVisualMode,
}

} // verus!
