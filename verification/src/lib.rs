//! Core editing operations of a modal text editor: multi-region character
//! insertion with bracket auto-pairing, mode-dependent paste, command
//! dispatch (mode transitions, line moves), and classification of edits
//! into undo groups, over a character-indexed text store.

pub mod mode;
pub mod word;
pub mod syntax;
pub mod delta;
pub mod order;
pub mod selection;
pub mod buffer;
pub mod cursor;
pub mod register;
pub mod command;
pub mod editor;
