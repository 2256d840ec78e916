use block_poll::codec::{decode_poll, encode_cast_vote, encode_instruction, encode_poll};
use block_poll::envelope::{CastVote, Instruction};
use block_poll::errors::PollProgramError;
use block_poll::poll::Poll;
use block_poll::router::process_instruction;
use solana_program::account_info::AccountInfo;
use solana_program::clock::Epoch;
use solana_program::pubkey::Pubkey;

#[test]
fn invalid_instruction() {
    let payer_key = Pubkey::default();
    let poll_key = Pubkey::default();
    let program_id = Pubkey::default();

    let mut payer_lamports: u64 = 0;
    let mut poll_lamports: u64 = 0;

    let mut payer_data: Vec<u8> = Vec::new();
    let mut poll_data = payer_data.clone();

    let instruction_invalid: Instruction = Instruction {
        action: 10, // Invalid action
        data: vec![],
        lamports: 0,
        space: 0,
    };

    let instruction_invalid_serialized = encode_instruction(&instruction_invalid).unwrap();

    let payer_account = AccountInfo::new(
        &payer_key,
        true,
        true,
        &mut payer_lamports,
        &mut payer_data[..],
        &program_id,
        false,
        Epoch::default(),
    );

    let poll_account = AccountInfo::new(
        &poll_key,
        false,
        true,
        &mut poll_lamports,
        &mut poll_data[..],
        &program_id,
        false,
        Epoch::default(),
    );

    let accounts = &[payer_account, poll_account];

    match process_instruction(&program_id, accounts, &instruction_invalid_serialized) {
        Ok(_) => panic!("Unexpected output!"),
        Err(e) => {
            assert_eq!(PollProgramError::InvalidInstructionData, e);
        }
    }
}

#[test]
fn create_poll_cast_vote() {
    let payer_key = Pubkey::default();
    let program_id = Pubkey::default();
    let mut payer_data: Vec<u8> = Vec::new();
    let question = "What is your favourite TV show?".to_string();
    let options = vec![
        "FRIENDS".to_string(),
        "Mr. Robot".to_string(),
        "The Mentalist".to_string(),
    ];
    let poll_id = "1".to_string();
    let poll_owner = "anonymous".to_string();

    let mut payer_lamports: u64 = 0;
    let mut poll_lamports: u64 = 0;

    let mut poll: Poll = Poll::new(poll_owner, poll_id, question, options, 0).unwrap();

    let (poll_key, seed_bump) = Pubkey::find_program_address(&[poll.id.as_bytes()], &program_id);

    poll.seed_bump = seed_bump;

    let poll_serialized = encode_poll(&poll).unwrap();
    let poll_serialized_space = poll_serialized.clone().len() as u64;
    let mut poll_account_data: Vec<u8> = vec![0; poll_serialized_space.try_into().unwrap()];

    let instruction: Instruction = Instruction {
        action: 0,
        data: poll_serialized.clone(),
        lamports: 0,
        space: poll_serialized_space,
    };

    let instruction_serialized = encode_instruction(&instruction).unwrap();

    let payer_account = AccountInfo::new(
        &payer_key,
        true,
        true,
        &mut payer_lamports,
        &mut payer_data[..],
        &program_id,
        false,
        Epoch::default(),
    );

    let poll_account = AccountInfo::new(
        &poll_key,
        false,
        true,
        &mut poll_lamports,
        &mut poll_account_data[..],
        &program_id,
        false,
        Epoch::default(),
    );

    let accounts = &[payer_account, poll_account];

    match process_instruction(&program_id, accounts, &instruction_serialized) {
        Ok(()) => {
            println!("Poll created successfully!");
            let poll = decode_poll(&accounts[1].data.borrow()).unwrap();
            assert_eq!(poll.id, "1".to_string());

            // Cast vote
            let vote = CastVote {
                option: "FRIENDS".to_string(),
            };

            let vote_serialized = encode_cast_vote(&vote).unwrap();

            let vote_instruction = Instruction {
                action: 1,
                data: vote_serialized,
                lamports: 0,
                space: 0,
            };

            let vote_instruction_serialized = encode_instruction(&vote_instruction).unwrap();

            match process_instruction(&program_id, accounts, &vote_instruction_serialized) {
                Ok(()) => {
                    let poll = decode_poll(&accounts[1].data.borrow()).unwrap();
                    assert_eq!(poll.votes[0], 1);
                }
                Err(err) => {
                    panic!("Unexpected error: {:?}", err);
                }
            }
        }
        Err(e) => {
            panic!("Unexpected error: {:?}", e);
        }
    }
}

fn stored_poll(votes: Vec<u32>) -> Vec<u8> {
    let poll = Poll {
        owner: "alice".to_string(),
        id: "p1".to_string(),
        question: "Color?".to_string(),
        options: vec!["red".to_string(), "blue".to_string()],
        votes,
        seed_bump: 0,
        timestamp: "0000000000".to_string(),
    };
    encode_poll(&poll).unwrap()
}

fn vote_envelope(option: &str) -> Vec<u8> {
    let vote = CastVote {
        option: option.to_string(),
    };
    let ix = Instruction {
        action: 1,
        data: encode_cast_vote(&vote).unwrap(),
        lamports: 0,
        space: 0,
    };
    encode_instruction(&ix).unwrap()
}

#[test]
fn scenario_create_then_vote_then_reject() {
    let payer_key = Pubkey::default();
    let program_id = Pubkey::default();
    let poll = Poll::new(
        "alice".to_string(),
        "p1".to_string(),
        "Color?".to_string(),
        vec!["red".to_string(), "blue".to_string()],
        0,
    )
    .unwrap();
    let draft = encode_poll(&poll).unwrap();
    let space = draft.len() as u64;
    let create_ix = encode_instruction(&Instruction {
        action: 0,
        data: draft,
        lamports: 0,
        space,
    })
    .unwrap();

    let mut payer_lamports: u64 = 0;
    let mut poll_lamports: u64 = 0;
    let mut payer_data: Vec<u8> = Vec::new();
    let mut poll_data: Vec<u8> = vec![0; space as usize];
    let poll_key = Pubkey::new_unique();

    let payer_account = AccountInfo::new(
        &payer_key,
        true,
        true,
        &mut payer_lamports,
        &mut payer_data[..],
        &program_id,
        false,
        Epoch::default(),
    );
    let poll_account = AccountInfo::new(
        &poll_key,
        false,
        true,
        &mut poll_lamports,
        &mut poll_data[..],
        &program_id,
        false,
        Epoch::default(),
    );
    let accounts = &[payer_account, poll_account];

    process_instruction(&program_id, accounts, &create_ix).unwrap();
    let created = decode_poll(&accounts[1].data.borrow()).unwrap();
    assert_eq!(created.votes, vec![0, 0]);

    process_instruction(&program_id, accounts, &vote_envelope("red")).unwrap();
    let after_vote = decode_poll(&accounts[1].data.borrow()).unwrap();
    assert_eq!(after_vote.votes, vec![1, 0]);

    match process_instruction(&program_id, accounts, &vote_envelope("green")) {
        Ok(()) => panic!("Unexpected output!"),
        Err(e) => assert_eq!(e, PollProgramError::InvalidAccountData),
    }
    let unchanged = decode_poll(&accounts[1].data.borrow()).unwrap();
    assert_eq!(unchanged.votes, vec![1, 0]);
}

#[test]
fn scenario_unknown_action_touches_nothing() {
    let payer_key = Pubkey::default();
    let program_id = Pubkey::default();
    let poll_key = Pubkey::new_unique();
    let mut payer_lamports: u64 = 0;
    let mut poll_lamports: u64 = 0;
    let mut payer_data: Vec<u8> = Vec::new();
    let mut poll_data: Vec<u8> = vec![0; 8];

    let envelope = encode_instruction(&Instruction {
        action: 99,
        data: vec![],
        lamports: 0,
        space: 0,
    })
    .unwrap();

    let payer_account = AccountInfo::new(
        &payer_key,
        true,
        true,
        &mut payer_lamports,
        &mut payer_data[..],
        &program_id,
        false,
        Epoch::default(),
    );
    let poll_account = AccountInfo::new(
        &poll_key,
        false,
        true,
        &mut poll_lamports,
        &mut poll_data[..],
        &program_id,
        false,
        Epoch::default(),
    );
    let accounts = &[payer_account, poll_account];

    match process_instruction(&program_id, accounts, &envelope) {
        Ok(()) => panic!("Unexpected output!"),
        Err(e) => assert_eq!(e, PollProgramError::InvalidInstructionData),
    }
    assert_eq!(&accounts[1].data.borrow()[..], &[0u8; 8][..]);
    assert_eq!(**accounts[1].lamports.borrow(), 0);
}

#[test]
fn vote_on_foreign_unit_is_unauthorized() {
    let payer_key = Pubkey::default();
    let program_id = Pubkey::default();
    let other_program = Pubkey::new_unique();
    let poll_key = Pubkey::new_unique();
    let mut payer_lamports: u64 = 0;
    let mut poll_lamports: u64 = 0;
    let mut payer_data: Vec<u8> = Vec::new();
    let mut poll_data = stored_poll(vec![0, 0]);
    let before = poll_data.clone();

    let payer_account = AccountInfo::new(
        &payer_key,
        true,
        true,
        &mut payer_lamports,
        &mut payer_data[..],
        &program_id,
        false,
        Epoch::default(),
    );
    // The unit is controlled by another program.
    let poll_account = AccountInfo::new(
        &poll_key,
        false,
        true,
        &mut poll_lamports,
        &mut poll_data[..],
        &other_program,
        false,
        Epoch::default(),
    );
    let accounts = &[payer_account, poll_account];

    match process_instruction(&program_id, accounts, &vote_envelope("red")) {
        Ok(()) => panic!("Unexpected output!"),
        Err(e) => assert_eq!(e, PollProgramError::IncorrectProgramId),
    }
    assert_eq!(&accounts[1].data.borrow()[..], &before[..]);
}

#[test]
fn vote_on_full_tally_is_rejected() {
    let payer_key = Pubkey::default();
    let program_id = Pubkey::default();
    let poll_key = Pubkey::new_unique();
    let mut payer_lamports: u64 = 0;
    let mut poll_lamports: u64 = 0;
    let mut payer_data: Vec<u8> = Vec::new();
    let mut poll_data = stored_poll(vec![u32::MAX, 3]);
    let before = poll_data.clone();

    let payer_account = AccountInfo::new(
        &payer_key,
        true,
        true,
        &mut payer_lamports,
        &mut payer_data[..],
        &program_id,
        false,
        Epoch::default(),
    );
    let poll_account = AccountInfo::new(
        &poll_key,
        false,
        true,
        &mut poll_lamports,
        &mut poll_data[..],
        &program_id,
        false,
        Epoch::default(),
    );
    let accounts = &[payer_account, poll_account];

    match process_instruction(&program_id, accounts, &vote_envelope("red")) {
        Ok(()) => panic!("Unexpected output!"),
        Err(e) => assert_eq!(e, PollProgramError::InvalidAccountData),
    }
    assert_eq!(&accounts[1].data.borrow()[..], &before[..]);
}

#[test]
fn corrupted_unit_data_is_rejected() {
    let payer_key = Pubkey::default();
    let program_id = Pubkey::default();
    let poll_key = Pubkey::new_unique();
    let mut payer_lamports: u64 = 0;
    let mut poll_lamports: u64 = 0;
    let mut payer_data: Vec<u8> = Vec::new();
    let mut poll_data: Vec<u8> = vec![0xAB; 5];

    let payer_account = AccountInfo::new(
        &payer_key,
        true,
        true,
        &mut payer_lamports,
        &mut payer_data[..],
        &program_id,
        false,
        Epoch::default(),
    );
    let poll_account = AccountInfo::new(
        &poll_key,
        false,
        true,
        &mut poll_lamports,
        &mut poll_data[..],
        &program_id,
        false,
        Epoch::default(),
    );
    let accounts = &[payer_account, poll_account];

    match process_instruction(&program_id, accounts, &vote_envelope("red")) {
        Ok(()) => panic!("Unexpected output!"),
        Err(e) => assert_eq!(e, PollProgramError::InvalidAccountData),
    }
}

#[test]
fn missing_unit_handle_is_rejected() {
    let payer_key = Pubkey::default();
    let program_id = Pubkey::default();
    let mut payer_lamports: u64 = 0;
    let mut payer_data: Vec<u8> = Vec::new();

    let payer_account = AccountInfo::new(
        &payer_key,
        true,
        true,
        &mut payer_lamports,
        &mut payer_data[..],
        &program_id,
        false,
        Epoch::default(),
    );
    let accounts = &[payer_account];

    match process_instruction(&program_id, accounts, &vote_envelope("red")) {
        Ok(()) => panic!("Unexpected output!"),
        Err(e) => assert_eq!(e, PollProgramError::NotEnoughAccountKeys),
    }
}

#[test]
fn create_with_invalid_draft_is_rejected() {
    let payer_key = Pubkey::default();
    let program_id = Pubkey::default();
    let poll_key = Pubkey::new_unique();
    let mut payer_lamports: u64 = 0;
    let mut poll_lamports: u64 = 0;
    let mut payer_data: Vec<u8> = Vec::new();

    // A draft that decodes but fails validation: its owner is empty.
    let draft = Poll {
        owner: "".to_string(),
        id: "p1".to_string(),
        question: "Color?".to_string(),
        options: vec!["red".to_string()],
        votes: vec![0],
        seed_bump: 0,
        timestamp: "0000000000".to_string(),
    };
    let draft_bytes = encode_poll(&draft).unwrap();
    let space = draft_bytes.len() as u64;
    let mut poll_data: Vec<u8> = vec![0; space as usize];
    let create_ix = encode_instruction(&Instruction {
        action: 0,
        data: draft_bytes,
        lamports: 0,
        space,
    })
    .unwrap();

    let payer_account = AccountInfo::new(
        &payer_key,
        true,
        true,
        &mut payer_lamports,
        &mut payer_data[..],
        &program_id,
        false,
        Epoch::default(),
    );
    let poll_account = AccountInfo::new(
        &poll_key,
        false,
        true,
        &mut poll_lamports,
        &mut poll_data[..],
        &program_id,
        false,
        Epoch::default(),
    );
    let accounts = &[payer_account, poll_account];

    match process_instruction(&program_id, accounts, &create_ix) {
        Ok(()) => panic!("Unexpected output!"),
        Err(e) => assert_eq!(e, PollProgramError::InvalidAccountData),
    }
    // The failed creation left the unit unpopulated.
    assert!(accounts[1].data.borrow().iter().all(|b| *b == 0));
}

#[test]
fn create_into_too_small_unit_writes_nothing() {
    let payer_key = Pubkey::default();
    let program_id = Pubkey::default();
    let poll_key = Pubkey::new_unique();
    let mut payer_lamports: u64 = 0;
    let mut poll_lamports: u64 = 0;
    let mut payer_data: Vec<u8> = Vec::new();

    let draft = Poll::new(
        "alice".to_string(),
        "p1".to_string(),
        "Color?".to_string(),
        vec!["red".to_string(), "blue".to_string()],
        0,
    )
    .unwrap();
    let draft_bytes = encode_poll(&draft).unwrap();
    // The unit's storage is a few bytes short of the record.
    let mut poll_data: Vec<u8> = vec![0; draft_bytes.len() - 3];
    let create_ix = encode_instruction(&Instruction {
        action: 0,
        data: draft_bytes,
        lamports: 0,
        space: 0,
    })
    .unwrap();

    let payer_account = AccountInfo::new(
        &payer_key,
        true,
        true,
        &mut payer_lamports,
        &mut payer_data[..],
        &program_id,
        false,
        Epoch::default(),
    );
    let poll_account = AccountInfo::new(
        &poll_key,
        false,
        true,
        &mut poll_lamports,
        &mut poll_data[..],
        &program_id,
        false,
        Epoch::default(),
    );
    let accounts = &[payer_account, poll_account];

    match process_instruction(&program_id, accounts, &create_ix) {
        Ok(()) => panic!("Unexpected output!"),
        Err(e) => assert_eq!(e, PollProgramError::InvalidAccountData),
    }
    // Not even a prefix of the record was written.
    assert!(accounts[1].data.borrow().iter().all(|b| *b == 0));
}

#[test]
fn malformed_vote_payload_is_rejected() {
    let payer_key = Pubkey::default();
    let program_id = Pubkey::default();
    let poll_key = Pubkey::new_unique();
    let mut payer_lamports: u64 = 0;
    let mut poll_lamports: u64 = 0;
    let mut payer_data: Vec<u8> = Vec::new();
    let mut poll_data = stored_poll(vec![0, 0]);
    let before = poll_data.clone();

    // The payload claims five bytes of text and carries none.
    let envelope = encode_instruction(&Instruction {
        action: 1,
        data: vec![5, 0, 0, 0],
        lamports: 0,
        space: 0,
    })
    .unwrap();

    let payer_account = AccountInfo::new(
        &payer_key,
        true,
        true,
        &mut payer_lamports,
        &mut payer_data[..],
        &program_id,
        false,
        Epoch::default(),
    );
    let poll_account = AccountInfo::new(
        &poll_key,
        false,
        true,
        &mut poll_lamports,
        &mut poll_data[..],
        &program_id,
        false,
        Epoch::default(),
    );
    let accounts = &[payer_account, poll_account];

    match process_instruction(&program_id, accounts, &envelope) {
        Ok(()) => panic!("Unexpected output!"),
        Err(e) => assert_eq!(e, PollProgramError::InvalidInstructionData),
    }
    assert_eq!(&accounts[1].data.borrow()[..], &before[..]);
}

#[test]
fn malformed_envelope_is_rejected() {
    let payer_key = Pubkey::default();
    let program_id = Pubkey::default();
    let poll_key = Pubkey::new_unique();
    let mut payer_lamports: u64 = 0;
    let mut poll_lamports: u64 = 0;
    let mut payer_data: Vec<u8> = Vec::new();
    let mut poll_data: Vec<u8> = vec![0; 4];

    let payer_account = AccountInfo::new(
        &payer_key,
        true,
        true,
        &mut payer_lamports,
        &mut payer_data[..],
        &program_id,
        false,
        Epoch::default(),
    );
    let poll_account = AccountInfo::new(
        &poll_key,
        false,
        true,
        &mut poll_lamports,
        &mut poll_data[..],
        &program_id,
        false,
        Epoch::default(),
    );
    let accounts = &[payer_account, poll_account];

    match process_instruction(&program_id, accounts, &[1, 2, 3]) {
        Ok(()) => panic!("Unexpected output!"),
        Err(e) => assert_eq!(e, PollProgramError::InvalidInstructionData),
    }
}
