use vstd::prelude::*;
use crate::types::Vote;
use crate::hex_names::{hex_id, hex_name};

verus! {

/// One vote in its smallest form: the IDs are one byte each.
#[derive(Debug)]
pub struct VoteBin {
    pub voter_id: u8,
    pub vote_for: u8,
    pub votes: u16,
}

/// Is the voter with this ID a willing candidate? The IDs up to 0x80 are
/// the candidates'.
pub open spec fn is_candidate_id(input: u8) -> bool {
    input <= 0x80
}

/// The name of the voter with this ID.
pub open spec fn id_name(input: u8) -> Seq<char> {
    if is_candidate_id(input) {
        hex_name("cand/"@, input as u16, 2)
    } else {
        hex_name("voter/"@, input as u16, 2)
    }
}

/// The vote that `data` stands for.
pub open spec fn is_bin_vote(vote: Vote, data: VoteBin) -> bool {
    &&& vote.voter_id@ == id_name(data.voter_id)
    &&& vote.willing_candidate == is_candidate_id(data.voter_id)
    &&& vote.number_of_votes == data.votes
    &&& vote.vote_for@ == id_name(data.vote_for)
}

/// The name of the voter with this ID, and whether they are a willing
/// candidate.
pub fn mk_id(input: u8) -> (id: (String, bool))
    ensures
        id.0@ == id_name(input),
        id.1 == is_candidate_id(input),
{
    if input > 0x80 {
        (hex_id("voter/", input as u16, 2), false)
    } else {
        (hex_id("cand/", input as u16, 2), true)
    }
}

/// The vote that `data` stands for.
pub fn parse_vote(data: &VoteBin) -> (vote: Vote)
    ensures
        is_bin_vote(vote, *data),
{
    let (voter_id, willing_candidate) = mk_id(data.voter_id);
    Vote {
        voter_id,
        vote_for: mk_id(data.vote_for).0,
        number_of_votes: data.votes as u64,
        willing_candidate,
    }
}

/// The votes that `data` stand for, in their order.
pub fn mk_votes(data: &[VoteBin]) -> (out: Vec<Vote>)
    ensures
        out@.len() == data@.len(),
        forall|i: int| 0 <= i < out@.len() ==> is_bin_vote(#[trigger] out@[i], data@[i]),
{
    let mut out: Vec<Vote> = Vec::new();
    let mut i: usize = 0;
    while i < data.len()
        invariant
            i <= data@.len(),
            out@.len() == i,
            forall|j: int| 0 <= j < i ==> is_bin_vote(#[trigger] out@[j], data@[j]),
        decreases data@.len() - i,
    {
        out.push(parse_vote(&data[i]));
        i += 1;
    }
    out
}

} // verus!
