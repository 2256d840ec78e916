//! The closed error taxonomy: domain errors raised by the poll entity and
//! the boundary error categories surfaced by the instruction router.

use vstd::prelude::*;

verus! {

/// Domain error of the poll entity: a required property was missing at
/// construction, no options were supplied, or a vote named an unknown option.
#[derive(Debug, PartialEq, Eq)]
pub enum BlockPollError {
    PropertyNotFound(String),
    NoOptionsProvided,
    InvalidInputOption,
}

/// Decoding failed: truncated input, a malformed length prefix, text that
/// is not valid UTF-8, or trailing bytes.
#[derive(Debug, Clone, Copy, PartialEq, Eq, Structural)]
pub struct DecodeError;

/// Encoding failed: a field is too long for its 4-byte length prefix.
#[derive(Debug, Clone, Copy, PartialEq, Eq, Structural)]
pub struct EncodeError;

/// Boundary error category returned by the instruction router; the host
/// shim translates each variant into the host's own error code.
#[derive(Debug, Clone, Copy, PartialEq, Eq, Structural)]
pub enum PollProgramError {
    InvalidInstructionData,
    InvalidAccountData,
    IncorrectProgramId,
    NotEnoughAccountKeys,
}

} // verus!
