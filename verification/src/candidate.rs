use vstd::prelude::*;
use crate::types::Vote;

verus! {

/// The state that the counter keeps for each accepted vote. Candidates live
/// in one table and name each other by their position in it.
#[derive(Debug)]
pub struct Candidate {
    /// The position in the ballot of the vote that this candidate was made of
    pub vote: usize,
    /// The candidate whom they voted for, if any
    pub vote_for: Option<usize>,
    /// Another candidate who voted for the same person, if any
    pub voting_for_same: Option<usize>,
    /// The number of indirect votes which would be received if every
    /// candidate delegated their votes.
    pub total_indirect_votes: u64,
    /// The last candidate who voted for this candidate. This and
    /// `voting_for_same` make a linked list of those who voted for them.
    pub voted_for_me: Option<usize>,
    /// True if this is someone who is willing to potentially win the election.
    pub is_willing_candidate: bool,
    /// Makes a linked list of the willing candidates ordered by total
    /// indirect votes, descending.
    pub next_by_total_indirect_votes: Option<usize>,
}

/// A link between candidates, as a number.
pub open spec fn link(o: Option<usize>) -> Option<int> {
    match o {
        Some(k) => Some(k as int),
        None => None,
    }
}

/// For each candidate, whom they delegate to.
pub open spec fn targets(cands: Seq<Candidate>) -> Seq<Option<int>> {
    cands.map_values(|c: Candidate| link(c.vote_for))
}

/// For each candidate, the position of their vote in the ballot.
pub open spec fn vote_order(cands: Seq<Candidate>) -> Seq<int> {
    cands.map_values(|c: Candidate| c.vote as int)
}

/// The number of votes that candidate `c` holds themselves.
pub open spec fn weight(votes: Seq<Vote>, cands: Seq<Candidate>, c: int) -> nat {
    votes[cands[c].vote as int].number_of_votes as nat
}

/// Every delegation leads to another candidate of the table.
pub open spec fn targets_in_table(t: Seq<Option<int>>) -> bool {
    forall|c: int|
        0 <= c < t.len() ==> ((#[trigger] t[c]) matches Some(k) ==> 0 <= k < t.len() && k != c)
}

} // verus!
