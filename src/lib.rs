//! The editing core of a modal text editor: a piece-table text buffer with an
//! undo log, and the motion and command interpreter that runs on it.
use vstd::prelude::*;

pub mod char_class;
pub mod text_model;
pub mod piece_table;
pub mod buffer;
pub mod motion;
pub mod command;
pub mod protocol;

verus! {

#[derive(Copy, Clone, Debug, PartialEq, Eq, Structural)]
pub enum Direction {
    Forward,
    Backward,
}

/// The editing modes. The core never stores the current one: commands
/// report the mode to switch to.
#[derive(Copy, Clone, Debug, PartialEq, Eq, Structural)]
pub enum ModeTag {
    Normal,
    Insert,
    Command,
    Visual,
    UserMessage,
    Search(Direction),
}

/// Why a command could not be parsed or carried out.
#[derive(Clone, Debug, PartialEq, Eq)]
pub enum Error {
    /// More keys are needed; keep the pending keys.
    IncompleteCommand,
    /// The command makes no sense here.
    InvalidCommand(String),
    /// The keys name no command; drop them.
    UnknownCommand(String),
    /// The register named holds nothing.
    EmptyRegister(char),
}

} // verus!
