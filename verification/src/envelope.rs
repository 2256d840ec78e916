//! Transient wire values: the instruction envelope carried into the router
//! and the cast-vote request payload. Neither is persisted.

use vstd::prelude::*;

verus! {

/// A vote request: the text of the chosen option.
pub struct CastVote {
    pub option: String,
}

#[verifier::ext_equal]
pub ghost struct CastVoteV {
    pub option: Seq<char>,
}

impl View for CastVote {
    type V = CastVoteV;

    open spec fn view(&self) -> CastVoteV {
        CastVoteV { option: self.option@ }
    }
}

/// The instruction envelope: an action code, the opaque payload bytes for
/// that action, and, for creation, the requested storage size and the
/// initial balance of the new unit.
pub struct Instruction {
    pub action: u8,
    pub data: Vec<u8>,
    pub space: u64,
    pub lamports: u64,
}

#[verifier::ext_equal]
pub ghost struct InstructionV {
    pub action: u8,
    pub data: Seq<u8>,
    pub space: u64,
    pub lamports: u64,
}

impl View for Instruction {
    type V = InstructionV;

    open spec fn view(&self) -> InstructionV {
        InstructionV {
            action: self.action,
            data: self.data@,
            space: self.space,
            lamports: self.lamports,
        }
    }
}

} // verus!
