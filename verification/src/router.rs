//! The instruction router: decodes the envelope, dispatches on the action
//! code, and orchestrates poll creation and vote casting against the two
//! collaborator handles (payer first, target storage unit second).

use vstd::prelude::*;

use solana_program::account_info::AccountInfo;
use solana_program::pubkey::Pubkey;

use crate::codec::{
    cast_vote_ok, dec_cast_vote, dec_instruction, dec_poll, decode_cast_vote, decode_instruction,
    decode_poll, enc_cast_vote, enc_instruction, enc_poll, encode_poll, instruction_ok,
    lemma_cast_vote_round_trip, lemma_enc_instruction_inj, lemma_poll_round_trip, poll_ok,
};
use crate::envelope::CastVoteV;
use crate::errors::PollProgramError;
use crate::host;
use crate::poll::{lemma_first_match, spec_first_match, Poll, PollV};

verus! {

use vstd::string::StringExecFns;

/// The vote-path state transition: given whether the target unit is
/// controlled by this program, the request payload, and the unit's stored
/// bytes, either the unit's next stored bytes or the boundary error.
///
/// An unauthorized unit is rejected before anything is decoded; a payload
/// that is no cast-vote encoding is an invalid instruction; stored bytes
/// that are no poll encoding are corrupted data, as is a record whose
/// first matching tally is missing or cannot take one more vote; a vote
/// for text absent from the options is rejected without any change.
pub open spec fn vote_transition(
    owner_matches: bool,
    payload: Seq<u8>,
    stored: Seq<u8>,
) -> Result<Seq<u8>, PollProgramError> {
    if !owner_matches {
        Err(PollProgramError::IncorrectProgramId)
    } else {
        match dec_cast_vote(payload) {
            None => Err(PollProgramError::InvalidInstructionData),
            Some(cv) => match dec_poll(stored) {
                None => Err(PollProgramError::InvalidAccountData),
                Some(p) => match spec_first_match(p.options, cv.option) {
                    None => Err(PollProgramError::InvalidAccountData),
                    Some(i) => if i < p.votes.len() && p.votes[i] < u32::MAX {
                        Ok(
                            enc_poll(
                                PollV { votes: p.votes.update(i, (p.votes[i] + 1) as u32), ..p },
                            ),
                        )
                    } else {
                        Err(PollProgramError::InvalidAccountData)
                    },
                },
            },
        }
    }
}

/// The vote path end to end, on an authorized unit whose bytes encode a
/// poll satisfying the entity invariant (one tally per option) with every
/// tally below the machine limit: the transition succeeds exactly when
/// the requested option is present, and then the unit's next bytes encode
/// the same poll with the first matching tally raised by exactly one and
/// every other field unchanged; an absent option leaves an error and no
/// new bytes.
pub proof fn lemma_vote_transition_on_valid_poll(p: PollV, cv: CastVoteV)
    requires
        poll_ok(p),
        cast_vote_ok(cv),
        p.votes.len() == p.options.len(),
        forall|i: int| 0 <= i < p.votes.len() ==> p.votes[i] < u32::MAX,
    ensures
        match spec_first_match(p.options, cv.option) {
            Some(i) => vote_transition(true, enc_cast_vote(cv), enc_poll(p)) == Ok::<
                Seq<u8>,
                PollProgramError,
            >(enc_poll((PollV { votes: p.votes.update(i, (p.votes[i] + 1) as u32), ..p }))),
            None => vote_transition(true, enc_cast_vote(cv), enc_poll(p)) == Err::<
                Seq<u8>,
                PollProgramError,
            >(PollProgramError::InvalidAccountData),
        },
{
    lemma_cast_vote_round_trip(cv);
    lemma_poll_round_trip(p);
    lemma_first_match(p.options, cv.option);
}

/// Run the vote-path transition: decode the request, decode the stored
/// poll, cast the vote, and re-encode. Performs exactly
/// `vote_transition` on the views of its arguments.
pub fn route_vote(owner_matches: bool, payload: &Vec<u8>, stored: &Vec<u8>) -> (r: Result<
    Vec<u8>,
    PollProgramError,
>)
    ensures
        match r {
            Ok(b) => vote_transition(owner_matches, payload@, stored@) == Ok::<
                Seq<u8>,
                PollProgramError,
            >(b@),
            Err(e) => vote_transition(owner_matches, payload@, stored@) == Err::<
                Seq<u8>,
                PollProgramError,
            >(e),
        },
{
    if !owner_matches {
        return Err(PollProgramError::IncorrectProgramId);
    }
    let cv = match decode_cast_vote(payload.as_slice()) {
        Ok(cv) => cv,
        Err(_) => {
            return Err(PollProgramError::InvalidInstructionData);
        },
    };
    let mut poll = match decode_poll(stored.as_slice()) {
        Ok(p) => p,
        Err(_) => {
            return Err(PollProgramError::InvalidAccountData);
        },
    };
    let ghost pre = poll@;
    let idx = match poll.find_option(&cv.option) {
        Some(i) => i,
        None => {
            return Err(PollProgramError::InvalidAccountData);
        },
    };
    if idx >= poll.votes.len() || poll.votes[idx] == u32::MAX {
        return Err(PollProgramError::InvalidAccountData);
    }
    match poll.cast_vote(&cv.option) {
        Ok(()) => {},
        Err(_) => {
            return Err(PollProgramError::InvalidAccountData);
        },
    }
    proof {
        assert(poll@ =~= PollV {
            votes: pre.votes.update(idx as int, (pre.votes[idx as int] + 1) as u32),
            ..pre
        });
    }
    match encode_poll(&poll) {
        Ok(bytes) => Ok(bytes),
        Err(_) => Err(PollProgramError::InvalidAccountData),
    }
}

/// A decoded create draft that construction rejects: a required text
/// field is empty or there are no options.
pub open spec fn draft_rejected(d: PollV) -> bool {
    d.owner.len() == 0 || d.id.len() == 0 || d.question.len() == 0 || d.options.len() == 0
}

/// Process one instruction envelope against the payer handle and the
/// target storage unit, as the host entrypoint hands them in.
///
/// A byte string that encodes no envelope, an action code outside the two
/// known ones, and a creation payload that encodes no poll draft are each
/// rejected as invalid instruction data; fewer than two handles are
/// rejected outright. Creation asks the host to allocate the unit at the
/// address derived from the draft's id and bump, validates the draft, and
/// writes the fresh record only when it fits the unit's storage whole; a
/// draft that fails validation is rejected as invalid account data
/// whatever the host answered. Voting applies `vote_transition` to the
/// unit's stored bytes and writes back the result; a payload that is no
/// cast-vote encoding never succeeds.
pub fn process_instruction(
    program_id: &Pubkey,
    accounts: &[AccountInfo],
    instruction_data: &[u8],
) -> (r: Result<(), PollProgramError>)
    ensures
        dec_instruction(instruction_data@) is None ==> r == Err::<(), PollProgramError>(
            PollProgramError::InvalidInstructionData,
        ),
        forall|ix: crate::envelope::InstructionV|
            instruction_ok(ix) && #[trigger] enc_instruction(ix) == instruction_data@ ==> {
                &&& (accounts@.len() < 2 ==> r == Err::<(), PollProgramError>(
                    PollProgramError::NotEnoughAccountKeys,
                ))
                &&& (accounts@.len() >= 2 && ix.action != 0 && ix.action != 1 ==> r == Err::<
                    (),
                    PollProgramError,
                >(PollProgramError::InvalidInstructionData))
                &&& (accounts@.len() >= 2 && ix.action == 0 && dec_poll(ix.data) is None ==> r
                    == Err::<(), PollProgramError>(PollProgramError::InvalidInstructionData))
                &&& (accounts@.len() >= 2 && ix.action == 0 && (dec_poll(ix.data) matches Some(d)
                    && draft_rejected(d)) ==> r == Err::<(), PollProgramError>(
                    PollProgramError::InvalidAccountData,
                ))
                &&& (accounts@.len() >= 2 && ix.action == 1 && dec_cast_vote(ix.data) is None
                    ==> r is Err)
            },
{
    let instruction = match decode_instruction(instruction_data) {
        Ok(i) => i,
        Err(_) => {
            return Err(PollProgramError::InvalidInstructionData);
        },
    };
    proof {
        assert forall|ix: crate::envelope::InstructionV|
            instruction_ok(ix) && #[trigger] enc_instruction(ix)
                == instruction_data@ implies ix == instruction@ by {
            lemma_enc_instruction_inj(ix, instruction@);
        }
    }
    if accounts.len() < 2 {
        return Err(PollProgramError::NotEnoughAccountKeys);
    }
    let payer = vstd::slice::slice_index_get(accounts, 0);
    let unit = vstd::slice::slice_index_get(accounts, 1);
    if instruction.action == 0 {
        // Create: allocate the unit, validate the draft, write the record.
        let draft = match decode_poll(instruction.data.as_slice()) {
            Ok(d) => d,
            Err(_) => {
                return Err(PollProgramError::InvalidInstructionData);
            },
        };
        let ghost dv = draft@;
        match host::allocate_unit(
            payer,
            unit,
            accounts,
            instruction.lamports,
            instruction.space,
            program_id,
            &draft.id,
            draft.seed_bump,
        ) {
            Ok(()) => {},
            Err(_) => {
                return Err(PollProgramError::InvalidAccountData);
            },
        }
        let timestamp = match host::current_timestamp() {
            Some(t) => t,
            None => String::from_str("0000000000"),
        };
        let poll = match Poll::with_timestamp(
            draft.owner,
            draft.id,
            draft.question,
            draft.options,
            draft.seed_bump,
            timestamp,
        ) {
            Ok(p) => p,
            Err(_) => {
                return Err(PollProgramError::InvalidAccountData);
            },
        };
        let bytes = match encode_poll(&poll) {
            Ok(b) => b,
            Err(_) => {
                return Err(PollProgramError::InvalidAccountData);
            },
        };
        // A record longer than the unit's storage is refused before any
        // byte is written: a failed creation must leave no partial state.
        let current = match host::read_unit_data(unit) {
            Some(d) => d,
            None => {
                return Err(PollProgramError::InvalidAccountData);
            },
        };
        if bytes.len() > current.len() {
            return Err(PollProgramError::InvalidAccountData);
        }
        match host::write_unit_data(unit, &bytes) {
            Ok(()) => Ok(()),
            Err(_) => Err(PollProgramError::InvalidAccountData),
        }
    } else if instruction.action == 1 {
        // Vote: authorization precedes any look at the unit's contents.
        if !host::pubkey_eq(host::account_owner(unit), program_id) {
            return Err(PollProgramError::IncorrectProgramId);
        }
        let stored = match host::read_unit_data(unit) {
            Some(d) => d,
            None => {
                return Err(PollProgramError::InvalidAccountData);
            },
        };
        match route_vote(true, &instruction.data, &stored) {
            Ok(bytes) => match host::write_unit_data(unit, &bytes) {
                Ok(()) => Ok(()),
                Err(_) => Err(PollProgramError::InvalidAccountData),
            },
            Err(e) => Err(e),
        }
    } else {
        Err(PollProgramError::InvalidInstructionData)
    }
}

} // verus!
