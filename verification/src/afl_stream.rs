use vstd::prelude::*;
use crate::types::Vote;
use crate::hex_names::{hex_id, hex_name};
use vstd::slice::slice_subrange;

verus! {

/// The number of bytes of one vote in a stream of wide records:
/// `[u16 VoterID][u16 Votes][u16 VoteForID]`, each the low byte first.
pub const VOTE_WIDTH: usize = 6;

/// Is the voter with this ID a willing candidate? The IDs up to 0x8000
/// are the candidates'.
pub open spec fn is_candidate_id(input: u16) -> bool {
    input <= 0x8000
}

/// The name of the voter with this ID.
pub open spec fn id_name(input: u16) -> Seq<char> {
    if is_candidate_id(input) {
        hex_name("cand/"@, input, 4)
    } else {
        hex_name("voter/"@, input, 4)
    }
}

/// The number that two bytes stand for, the low byte first.
pub open spec fn word(data: Seq<u8>) -> u16 {
    (data[0] as int + 256 * data[1] as int) as u16
}

/// The vote that a record of six bytes stands for.
pub open spec fn is_record_vote(vote: Vote, rec: Seq<u8>) -> bool {
    &&& vote.voter_id@ == id_name(word(rec.subrange(0, 2)))
    &&& vote.willing_candidate == is_candidate_id(word(rec.subrange(0, 2)))
    &&& vote.number_of_votes == word(rec.subrange(2, 4))
    &&& vote.vote_for@ == id_name(word(rec.subrange(4, 6)))
}

/// The name of the voter with this ID, and whether they are a willing
/// candidate.
pub fn mk_id(input: u16) -> (id: (String, bool))
    ensures
        id.0@ == id_name(input),
        id.1 == is_candidate_id(input),
{
    if input > 0x8000 {
        (hex_id("voter/", input, 4), false)
    } else {
        (hex_id("cand/", input, 4), true)
    }
}

/// Reads a number from two bytes, the low byte first.
pub fn parse_u16(data: &[u8]) -> (value: u16)
    requires
        data@.len() >= 2,
    ensures
        value == word(data@),
{
    let low = data[0];
    let high = data[1];
    assert(((high as u16) << 8) | (low as u16) == (low as int + 256 * high as int) as u16) by (bit_vector);
    ((high as u16) << 8) | low as u16
}

/// Reads one vote from a record of six bytes.
pub fn parse_vote(data: &[u8]) -> (vote: Vote)
    requires
        data@.len() >= 6,
    ensures
        is_record_vote(vote, data@),
{
    let id = parse_u16(slice_subrange(data, 0, 2));
    let number_of_votes = parse_u16(slice_subrange(data, 2, 4)) as u64;
    let vf = parse_u16(slice_subrange(data, 4, 6));
    let (voter_id, willing_candidate) = mk_id(id);
    Vote { voter_id, vote_for: mk_id(vf).0, number_of_votes, willing_candidate }
}

/// Reads the votes of a stream, one from each full record; bytes after
/// the last full record are left out.
pub fn mk_votes(data: &[u8]) -> (out: Vec<Vote>)
    ensures
        out@.len() == data@.len() / 6,
        forall|i: int|
            0 <= i < out@.len() ==> is_record_vote(
                #[trigger] out@[i],
                data@.subrange(6 * i, 6 * i + 6),
            ),
{
    let len = data.len();
    let count = len / VOTE_WIDTH;
    let mut out: Vec<Vote> = Vec::new();
    let mut i: usize = 0;
    while i < count
        invariant
            i <= count,
            len == data@.len(),
            count == len / 6,
            out@.len() == i,
            forall|j: int|
                0 <= j < i ==> is_record_vote(#[trigger] out@[j], data@.subrange(6 * j, 6 * j + 6)),
        decreases count - i,
    {
        assert(6 * i + 6 <= len);
        let record = slice_subrange(data, i * VOTE_WIDTH, i * VOTE_WIDTH + VOTE_WIDTH);
        out.push(parse_vote(record));
        i += 1;
    }
    out
}

} // verus!
