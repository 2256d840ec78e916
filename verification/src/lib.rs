//! A minimal poll-and-vote state-transition engine: a poll record with a
//! fixed option list and per-option tallies, a binary wire codec for the
//! record and its instruction envelope, and a router that dispatches
//! create-poll and cast-vote instructions against host-provided storage
//! units.

pub mod codec;
pub mod envelope;
pub mod errors;
pub mod host;
pub mod poll;
pub mod router;
