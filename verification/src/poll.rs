//! The poll entity: the persisted record of a question, its fixed option
//! list and the running tallies, with its validated constructor and the
//! vote-casting mutation.

use vstd::prelude::*;

use crate::errors::BlockPollError;
use crate::host;

verus! {

use vstd::pervasive::VecAdditionalExecFns;
use vstd::string::StringExecFns;

/// The persisted poll record. `votes` corresponds positionally to
/// `options`; once constructed, only `votes` ever changes.
pub struct Poll {
    pub owner: String,
    pub id: String,
    pub question: String,
    pub options: Vec<String>,
    pub votes: Vec<u32>,
    pub seed_bump: u8,
    pub timestamp: String,
}

/// Mathematical abstraction of a poll record: every text field as its
/// character sequence.
#[verifier::ext_equal]
pub ghost struct PollV {
    pub owner: Seq<char>,
    pub id: Seq<char>,
    pub question: Seq<char>,
    pub options: Seq<Seq<char>>,
    pub votes: Seq<u32>,
    pub seed_bump: u8,
    pub timestamp: Seq<char>,
}

impl View for Poll {
    type V = PollV;

    open spec fn view(&self) -> PollV {
        PollV {
            owner: self.owner@,
            id: self.id@,
            question: self.question@,
            options: self.options.deep_view(),
            votes: self.votes@,
            seed_bump: self.seed_bump,
            timestamp: self.timestamp@,
        }
    }
}

/// Index of the first option equal to `o`, if any.
pub open spec fn spec_first_match(opts: Seq<Seq<char>>, o: Seq<char>) -> Option<int>
    decreases opts.len(),
{
    if opts.len() == 0 {
        None
    } else if opts[0] == o {
        Some(0int)
    } else {
        match spec_first_match(opts.drop_first(), o) {
            Some(i) => Some(i + 1),
            None => None,
        }
    }
}

/// No option among the first `n` equals `o`.
pub open spec fn no_match_upto(opts: Seq<Seq<char>>, o: Seq<char>, n: int) -> bool {
    forall|j: int| 0 <= j < n ==> opts[j] != o
}

/// `spec_first_match` returns the least matching index, and `None` exactly
/// when no option matches.
pub proof fn lemma_first_match(opts: Seq<Seq<char>>, o: Seq<char>)
    ensures
        match spec_first_match(opts, o) {
            Some(i) => 0 <= i < opts.len() && opts[i] == o && no_match_upto(opts, o, i),
            None => no_match_upto(opts, o, opts.len() as int),
        },
    decreases opts.len(),
{
    if opts.len() > 0 && opts[0] != o {
        lemma_first_match(opts.drop_first(), o);
        let rest = opts.drop_first();
        match spec_first_match(rest, o) {
            Some(i) => {
                assert(forall|j: int| 0 <= j < i ==> rest[j] != o);
                assert(forall|j: int| 1 <= j < i + 1 ==> opts[j] == rest[j - 1]);
            },
            None => {
                assert(forall|j: int| 1 <= j < opts.len() ==> opts[j] == rest[j - 1]);
            },
        }
    }
}

/// If some prefix of `opts` holds no match and position `n` matches, then
/// `spec_first_match` returns exactly `n`.
pub proof fn lemma_first_match_at(opts: Seq<Seq<char>>, o: Seq<char>, n: int)
    requires
        0 <= n < opts.len(),
        opts[n] == o,
        no_match_upto(opts, o, n),
    ensures
        spec_first_match(opts, o) == Some(n),
{
    lemma_first_match(opts, o);
    match spec_first_match(opts, o) {
        Some(i) => {
            if i < n {
                assert(opts[i] == o);
            } else if i > n {
                assert(opts[n] != o);
            }
        },
        None => {
            assert(opts[n] != o);
        },
    }
}

impl Poll {
    /// Validated construction with the creation time supplied by the
    /// caller. Fails, in this order, on an empty owner, id or question and
    /// on an empty option list; otherwise every tally starts at zero.
    pub fn with_timestamp(
        owner: String,
        id: String,
        question: String,
        options: Vec<String>,
        seed_bump: u8,
        timestamp: String,
    ) -> (r: Result<Poll, BlockPollError>)
        ensures
            match r {
                Ok(p) => {
                    &&& owner@.len() > 0
                    &&& id@.len() > 0
                    &&& question@.len() > 0
                    &&& options@.len() > 0
                    &&& p.owner == owner
                    &&& p.id == id
                    &&& p.question == question
                    &&& p.options == options
                    &&& p.seed_bump == seed_bump
                    &&& p.timestamp == timestamp
                    &&& p.votes@.len() == options@.len()
                    &&& forall|i: int| 0 <= i < p.votes@.len() ==> p.votes@[i] == 0
                },
                Err(e) => {
                    &&& (owner@.len() == 0 || id@.len() == 0 || question@.len() == 0
                        || options@.len() == 0)
                    &&& if owner@.len() == 0 {
                        e matches BlockPollError::PropertyNotFound(f) && f@ == "Owner"@
                    } else if id@.len() == 0 {
                        e matches BlockPollError::PropertyNotFound(f) && f@ == "Id"@
                    } else if question@.len() == 0 {
                        e matches BlockPollError::PropertyNotFound(f) && f@ == "Question"@
                    } else {
                        e matches BlockPollError::NoOptionsProvided
                    }
                },
            },
    {
        if owner.as_str().is_empty() {
            return Err(BlockPollError::PropertyNotFound(String::from_str("Owner")));
        }
        if id.as_str().is_empty() {
            return Err(BlockPollError::PropertyNotFound(String::from_str("Id")));
        }
        if question.as_str().is_empty() {
            return Err(BlockPollError::PropertyNotFound(String::from_str("Question")));
        }
        if options.len() == 0 {
            return Err(BlockPollError::NoOptionsProvided);
        }
        let mut votes: Vec<u32> = Vec::new();
        let mut i: usize = 0;
        while i < options.len()
            invariant
                i <= options@.len(),
                votes@.len() == i,
                forall|j: int| 0 <= j < votes@.len() ==> votes@[j] == 0,
            decreases options@.len() - i,
        {
            votes.push(0);
            i = i + 1;
        }
        Ok(Poll { owner, id, question, options, votes, seed_bump, timestamp })
    }

    /// Validated construction stamped from the host clock, or with the
    /// fixed sentinel when no clock is available.
    pub fn new(
        owner: String,
        id: String,
        question: String,
        options: Vec<String>,
        seed_bump: u8,
    ) -> (r: Result<Poll, BlockPollError>)
        ensures
            match r {
                Ok(p) => {
                    &&& owner@.len() > 0
                    &&& id@.len() > 0
                    &&& question@.len() > 0
                    &&& options@.len() > 0
                    &&& p.owner == owner
                    &&& p.id == id
                    &&& p.question == question
                    &&& p.options == options
                    &&& p.seed_bump == seed_bump
                    &&& p.votes@.len() == options@.len()
                    &&& forall|i: int| 0 <= i < p.votes@.len() ==> p.votes@[i] == 0
                },
                Err(e) => {
                    &&& (owner@.len() == 0 || id@.len() == 0 || question@.len() == 0
                        || options@.len() == 0)
                    &&& if owner@.len() == 0 {
                        e matches BlockPollError::PropertyNotFound(f) && f@ == "Owner"@
                    } else if id@.len() == 0 {
                        e matches BlockPollError::PropertyNotFound(f) && f@ == "Id"@
                    } else if question@.len() == 0 {
                        e matches BlockPollError::PropertyNotFound(f) && f@ == "Question"@
                    } else {
                        e matches BlockPollError::NoOptionsProvided
                    }
                },
            },
    {
        let timestamp = match host::current_timestamp() {
            Some(t) => t,
            None => String::from_str("0000000000"),
        };
        Self::with_timestamp(owner, id, question, options, seed_bump, timestamp)
    }

    /// Index of the first option whose text equals `option`, if any.
    pub fn find_option(&self, option: &String) -> (r: Option<usize>)
        ensures
            match r {
                Some(i) => spec_first_match(self@.options, option@) == Some(i as int),
                None => spec_first_match(self@.options, option@) is None,
            },
    {
        let mut i: usize = 0;
        while i < self.options.len()
            invariant
                i <= self.options@.len(),
                self@.options.len() == self.options@.len(),
                no_match_upto(self@.options, option@, i as int),
            decreases self.options@.len() - i,
        {
            proof {
                assert(self@.options[i as int] == self.options@[i as int]@);
            }
            if self.options[i] == *option {
                proof {
                    lemma_first_match_at(self@.options, option@, i as int);
                }
                return Some(i);
            }
            i = i + 1;
        }
        proof {
            lemma_first_match(self@.options, option@);
        }
        None
    }

    /// Cast one vote: the first option equal to `option` has its tally
    /// raised by exactly one and every other field and tally is left as
    /// it was; an unknown option changes nothing and is rejected.
    pub fn cast_vote(&mut self, option: &String) -> (r: Result<(), BlockPollError>)
        requires
            spec_first_match(old(self)@.options, option@) matches Some(i) ==> i < old(
                self,
            )@.votes.len() && old(self)@.votes[i] < u32::MAX,
        ensures
            final(self)@.owner == old(self)@.owner,
            final(self)@.id == old(self)@.id,
            final(self)@.question == old(self)@.question,
            final(self)@.options == old(self)@.options,
            final(self)@.seed_bump == old(self)@.seed_bump,
            final(self)@.timestamp == old(self)@.timestamp,
            match spec_first_match(old(self)@.options, option@) {
                Some(i) => r is Ok && final(self)@.votes == old(self)@.votes.update(
                    i,
                    (old(self)@.votes[i] + 1) as u32,
                ),
                None => r matches Err(BlockPollError::InvalidInputOption) && final(self)@.votes
                    == old(self)@.votes,
            },
    {
        match self.find_option(option) {
            Some(idx) => {
                let cur = self.votes[idx];
                self.votes.set(idx, cur + 1);
                Ok(())
            },
            None => Err(BlockPollError::InvalidInputOption),
        }
    }
}

} // verus!
