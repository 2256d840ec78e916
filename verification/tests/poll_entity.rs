use block_poll::errors::BlockPollError;
use block_poll::poll::Poll;

#[test]
fn success_new_poll() {
    let question = String::from("What is your favorite color?");
    let options = vec!["a".to_string(), "b".to_string(), "c".to_string()];
    let owner = "poll_owner".to_string();
    let id = "1".to_string();
    let seed_bump = 255;

    let expected_poll = match Poll::new(owner, id, question, options, seed_bump) {
        Ok(poll) => poll,
        Err(err) => {
            panic!("unexpected error: {:?}", err);
        }
    };

    assert_eq!(expected_poll.id, "1".to_string());
}

#[test]
fn new_poll_missing_params() {
    let question = String::from("What is your favorite color?");
    let options = vec!["Red".to_string(), "Blue".to_string(), "Green".to_string()];
    let id = "1".to_string();
    let seed_bump = 255;
    let owner = "poll_owner".to_string();

    // Missing owner
    match Poll::new(
        "".to_string(),
        id.clone(),
        question.clone(),
        options.clone(),
        seed_bump,
    ) {
        Ok(_) => panic!("Unexpected output!"),
        Err(err) => {
            assert_eq!(err, BlockPollError::PropertyNotFound("Owner".to_string()));
        }
    };

    // Missing id
    match Poll::new(
        owner.to_string(),
        "".to_string(),
        question.clone(),
        options.clone(),
        seed_bump,
    ) {
        Ok(_) => panic!("Unexpected output!"),
        Err(err) => {
            assert_eq!(err, BlockPollError::PropertyNotFound("Id".to_string()));
        }
    };

    // Missing question
    match Poll::new(
        owner.clone(),
        id.clone(),
        "".to_string(),
        options.clone(),
        seed_bump,
    ) {
        Ok(_) => panic!("Unexpected output!"),
        Err(err) => {
            assert_eq!(err, BlockPollError::PropertyNotFound("Question".to_string()));
        }
    };

    // Missing options
    match Poll::new(owner.clone(), id.clone(), question.clone(), vec![], seed_bump) {
        Ok(_) => panic!("Unexpected output!"),
        Err(err) => {
            assert_eq!(err, BlockPollError::NoOptionsProvided);
        }
    };
}

#[test]
fn new_poll_votes_all_zero() {
    let poll = Poll::new(
        "alice".to_string(),
        "p1".to_string(),
        "Color?".to_string(),
        vec!["red".to_string(), "blue".to_string()],
        0,
    )
    .unwrap();
    assert_eq!(poll.votes, vec![0, 0]);
    assert_eq!(poll.options.len(), poll.votes.len());
}

#[test]
fn new_poll_sentinel_timestamp_without_clock() {
    // Off-chain no clock sysvar is available, so the fixed sentinel is used.
    let poll = Poll::new(
        "alice".to_string(),
        "p1".to_string(),
        "Color?".to_string(),
        vec!["red".to_string()],
        0,
    )
    .unwrap();
    assert_eq!(poll.timestamp, "0000000000".to_string());
}

#[test]
fn cast_vote_increments_only_chosen_option() {
    let mut poll = Poll::new(
        "alice".to_string(),
        "p1".to_string(),
        "Color?".to_string(),
        vec!["red".to_string(), "blue".to_string()],
        0,
    )
    .unwrap();
    assert_eq!(poll.votes, vec![0, 0]);

    poll.cast_vote(&"red".to_string()).unwrap();
    assert_eq!(poll.votes, vec![1, 0]);

    match poll.cast_vote(&"green".to_string()) {
        Ok(()) => panic!("Unexpected output!"),
        Err(err) => assert_eq!(err, BlockPollError::InvalidInputOption),
    }
    assert_eq!(poll.votes, vec![1, 0]);
    assert_eq!(poll.options, vec!["red".to_string(), "blue".to_string()]);
}

#[test]
fn cast_vote_duplicate_option_counts_first_only() {
    let mut poll = Poll::new(
        "alice".to_string(),
        "p1".to_string(),
        "Twice?".to_string(),
        vec!["red".to_string(), "red".to_string()],
        0,
    )
    .unwrap();
    poll.cast_vote(&"red".to_string()).unwrap();
    poll.cast_vote(&"red".to_string()).unwrap();
    assert_eq!(poll.votes, vec![2, 0]);
}

#[test]
fn find_option_first_match() {
    let poll = Poll::new(
        "alice".to_string(),
        "p1".to_string(),
        "Pick?".to_string(),
        vec!["x".to_string(), "y".to_string(), "x".to_string()],
        0,
    )
    .unwrap();
    assert_eq!(poll.find_option(&"x".to_string()), Some(0));
    assert_eq!(poll.find_option(&"y".to_string()), Some(1));
    assert_eq!(poll.find_option(&"z".to_string()), None);
}
