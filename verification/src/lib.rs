//! Keystroke-driven input engine for interactive terminal menus.
//!
//! The crate turns a stream of discrete key-press events into validated
//! typed values (free text, unsigned integers, yes/no confirmations) and
//! into single-letter command dispatch.  The host application owns all
//! rendering and the raw terminal session; it hands this library plain
//! [`input::Key`] values and receives typed results back.

use vstd::prelude::*;

pub mod command;
pub mod input;
pub mod prompt;

verus! {

/// The error taxonomy surfaced to the host.
///
/// `Escape` and `Quit` are control-flow signals: the user or the host
/// abandoned the current operation.  `ParsingError` reports a malformed
/// numeric accumulator.  `IOError` and `ExternalCmdError` are reserved for
/// the host's I/O layer and its external filter subprocess.
#[derive(Clone, Copy, Debug, PartialEq, Eq, Structural)]
pub enum Error {
    IOError,
    ParsingError,
    ExternalCmdError,
    Escape,
    Quit,
}

} // verus!
