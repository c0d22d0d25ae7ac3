use vstd::prelude::*;

verus! {

/// One row of the ballot: who votes, for whom, with how many votes, and
/// whether the voter is willing to be elected.
#[derive(Debug)]
pub struct Vote {
    /// The unique ID of the voter/candidate
    pub voter_id: String,
    /// The ID of the candidate who they are voting for; empty for none
    pub vote_for: String,
    /// How many votes they have: 1 in a typical national election, the
    /// number of shares in a stock company.
    pub number_of_votes: u64,
    /// Is this voter willing to also be a candidate for election?
    pub willing_candidate: bool,
}

impl Vote {
    /// True when the voter names nobody.
    pub open spec fn abstains(self) -> bool {
        self.vote_for@.len() == 0
    }

    /// True when the voter names themselves.
    pub open spec fn votes_for_self(self) -> bool {
        self.vote_for@ == self.voter_id@
    }
}

} // verus!
