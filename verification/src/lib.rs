//! Typed socket commands for a cellular modem that is driven over an AT
//! command line: each command writes itself into a caller's buffer as the
//! exact bytes the modem expects, and reads the modem's reply back into a
//! typed outcome.

use vstd::prelude::*;

pub mod at_command;
pub mod command_builder;
pub mod reply_parser;
pub mod text;

verus! {

/// Why a reply could not be read.
#[derive(Clone, Copy, Debug, PartialEq, Eq, Structural)]
pub enum AtError {
    /// The reply does not have the form that the command expects: a fixed
    /// part is missing or different, or a value cannot be read.
    MalformedReply,
}

} // verus!
