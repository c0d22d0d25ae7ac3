use vstd::prelude::*;
use vstd::slice::slice_subrange;
use crate::types::Vote;
use crate::candidate::Candidate;
use crate::counter::{ballot_elects, ballot_weight, counted, elects, ranking_rows, VoteCounter};
use crate::introspector::Introspector;
use crate::counter::lemma_counted_ready;
use crate::laws::{law_ranking_sorted, law_winner_stays_ranked, lemma_elected_in_ballot};

verus! {

/// The number of bytes of one vote in a stream of votes:
/// `[ Flags ][ VoterID ][ VoteForID ][ Votes ]`.
pub const VOTE_WIDTH: usize = 4;

/// The vote that a record of four bytes stands for: the lowest bit of the
/// flags says whether the voter is willing, the two IDs are places in the
/// table of names, the last byte is the number of votes.
pub open spec fn record_vote(rec: Seq<u8>, names: Seq<String>) -> Vote {
    Vote {
        voter_id: names[rec[1] as int],
        vote_for: names[rec[2] as int],
        number_of_votes: rec[3] as u64,
        willing_candidate: rec[0] & 1 == 1,
    }
}

/// The ballot that a stream of bytes stands for: one vote for each full
/// record; bytes after the last full record are left out.
pub open spec fn stream_ballot(data: Seq<u8>, names: Seq<String>) -> Seq<Vote> {
    Seq::new(
        (data.len() / 4) as nat,
        |i: int| record_vote(data.subrange(4 * i, 4 * i + 4), names),
    )
}

/// Every ID in a full record of the stream has a name.
pub open spec fn ids_named(data: Seq<u8>, names: Seq<String>) -> bool {
    forall|i: int|
        0 <= i < data.len() / 4 ==> (#[trigger] data[4 * i + 1]) < names.len() && data[4 * i + 2]
            < names.len()
}

/// Does every ID in a full record of the stream have a name?
pub fn ids_are_named(data: &[u8], names: &Vec<String>) -> (named: bool)
    ensures
        named == ids_named(data@, names@),
{
    let len = data.len();
    let count = len / VOTE_WIDTH;
    let mut i: usize = 0;
    while i < count
        invariant
            i <= count,
            len == data@.len(),
            count == len / 4,
            forall|j: int|
                0 <= j < i ==> (#[trigger] data@[4 * j + 1]) < names@.len() && data@[4 * j + 2]
                    < names@.len(),
        decreases count - i,
    {
        assert(4 * i + 4 <= len);
        if data[i * VOTE_WIDTH + 1] as usize >= names.len() || data[i * VOTE_WIDTH + 2] as usize
            >= names.len() {
            return false;
        }
        i += 1;
    }
    true
}

/// The name that stands at place `input` of the table.
pub fn mk_id(input: u8, names: &Vec<String>) -> (id: String)
    requires
        input < names@.len(),
    ensures
        id == names@[input as int],
{
    names[input as usize].clone()
}

/// Reads one vote from a record of four bytes.
pub fn parse_vote(data: &[u8], names: &Vec<String>) -> (vote: Vote)
    requires
        data@.len() >= 4,
        data@[1] < names@.len(),
        data@[2] < names@.len(),
    ensures
        vote == record_vote(data@, names@),
{
    let willing_candidate = data[0] & 1 == 1;
    let id = data[1];
    let vf = data[2];
    let number_of_votes = data[3] as u64;
    Vote {
        voter_id: mk_id(id, names),
        vote_for: mk_id(vf, names),
        number_of_votes,
        willing_candidate,
    }
}

/// Reads the votes of a stream, one from each full record.
pub fn mk_votes(data: &[u8], names: &Vec<String>) -> (out: Vec<Vote>)
    requires
        ids_named(data@, names@),
    ensures
        out@ == stream_ballot(data@, names@),
{
    let len = data.len();
    let count = len / VOTE_WIDTH;
    let mut out: Vec<Vote> = Vec::new();
    let mut i: usize = 0;
    while i < count
        invariant
            i <= count,
            len == data@.len(),
            count == len / 4,
            ids_named(data@, names@),
            out@.len() == i,
            forall|j: int| 0 <= j < i ==> out@[j] == stream_ballot(data@, names@)[j],
        decreases count - i,
    {
        assert(4 * i + 4 <= data@.len());
        let record = slice_subrange(data, i * VOTE_WIDTH, i * VOTE_WIDTH + VOTE_WIDTH);
        proof {
            assert(data@[4 * i + 1] < names@.len() && data@[4 * i + 2] < names@.len());
            assert(record@[1] == data@[4 * i + 1]);
            assert(record@[2] == data@[4 * i + 2]);
        }
        out.push(parse_vote(record, names));
        i += 1;
    }
    assert(out@ =~= stream_ballot(data@, names@));
    out
}

/// A ballot read from a stream holds at most 255 votes for each record.
pub proof fn lemma_stream_weight(data: Seq<u8>, names: Seq<String>, upto: int)
    requires
        0 <= upto <= data.len() / 4,
    ensures
        ballot_weight(stream_ballot(data, names), upto) <= 255 * upto,
    decreases upto,
{
    if upto > 0 {
        lemma_stream_weight(data, names, upto - 1);
    }
}

/// The place of the first name in the table that is `id`.
pub fn name_index(names: &Vec<String>, id: &String) -> (found: Option<usize>)
    ensures
        match found {
            Some(i) => i < names@.len() && names@[i as int]@ == id@ && forall|j: int|
                0 <= j < i ==> names@[j]@ != id@,
            None => forall|j: int| 0 <= j < names@.len() ==> names@[j]@ != id@,
        },
{
    let mut i: usize = 0;
    while i < names.len()
        invariant
            i <= names@.len(),
            forall|j: int| 0 <= j < i ==> names@[j]@ != id@,
        decreases names@.len() - i,
    {
        if names[i] == *id {
            return Some(i);
        }
        i += 1;
    }
    None
}

/// The projected winner does not have the best score once their delegation
/// is revoked: `ahead` is ranked before them with a score below the best.
#[derive(Debug)]
pub struct NotBestScore {
    /// The place of the winning vote in the ballot
    pub winner: usize,
    /// The place in the ballot of the first vote ranked below the best score
    pub ahead: usize,
}

/// The vote `w` has a row in the ranking, and its score is the best.
pub open spec fn top_ranked(rows: Seq<(u64, usize)>, w: usize) -> bool {
    exists|i: int| 0 <= i < rows.len() && (#[trigger] rows[i]).1 == w && rows[i].0 == rows[0].0
}

/// Row `i` is the first with a score below the best.
pub open spec fn first_below(rows: Seq<(u64, usize)>, i: int) -> bool {
    &&& 0 <= i < rows.len()
    &&& rows[i].0 < rows[0].0
    &&& forall|j: int| 0 <= j < i ==> (#[trigger] rows[j]).0 == rows[0].0
}

/// Finds the winner and holds them to the ranking: revokes the winner's
/// delegation, counts again, and walks the ranking down to the winner. The
/// winner passes if nobody with less than the best score is ranked before
/// them.
#[verifier::loop_isolation(false)]
#[verifier::rlimit(40)]
pub fn audit_winner(vc: &mut VoteCounter<'_>) -> (out: Result<Option<usize>, NotBestScore>)
    requires
        old(vc).wf(),
    ensures
        final(vc).wf(),
        final(vc).ballot() == old(vc).ballot(),
        final(vc).willing() == old(vc).willing(),
        match out {
            Ok(None) => old(vc).willing() == 0 && final(vc).revoked() == old(vc).revoked(),
            Ok(Some(w)) => {
                &&& elects(
                    old(vc).ballot(),
                    old(vc).table(),
                    old(vc).willing(),
                    old(vc).leader(),
                    Some(w),
                )
                &&& final(vc).revoked() == old(vc).revoked().insert(w as int)
                &&& top_ranked(final(vc).rows(), w)
            },
            Err(e) => {
                &&& elects(
                    old(vc).ballot(),
                    old(vc).table(),
                    old(vc).willing(),
                    old(vc).leader(),
                    Some(e.winner),
                )
                &&& final(vc).revoked() == old(vc).revoked().insert(e.winner as int)
                &&& !top_ranked(final(vc).rows(), e.winner)
                &&& exists|i: int|
                    first_below(final(vc).rows(), i) && (#[trigger] final(vc).rows()[i]).1
                        == e.ahead
            },
        },
{
    let ghost votes = vc.ballot();
    let ghost cands0 = vc.table();
    let ghost k = vc.willing();
    let ghost best0 = vc.leader();
    let ghost revoked0 = vc.revoked();
    let win = match vc.find_winner() {
        None => {
            return Ok(None);
        },
        Some(win) => win,
    };
    vc.revoke_vote(win);
    let rows = vc.iter();
    proof {
        law_ranking_sorted(votes, vc.revoked(), vc.table(), vc.willing(), vc.leader());
        law_winner_stays_ranked(
            votes,
            revoked0,
            cands0,
            k,
            best0,
            win,
            vc.revoked(),
            vc.table(),
            vc.willing(),
            vc.leader(),
        );
    }
    let ghost at = choose|i: int|
        0 <= i < rows@.len() && (#[trigger] rows@[i]).1 == win && forall|j: int|
            0 <= j < i ==> rows@[j].0 >= rows@[i].0;
    let mut best_score: u64 = 0;
    let mut i: usize = 0;
    while i < rows.len()
        invariant
            i <= rows@.len(),
            rows@ == vc.rows(),
            0 <= at < rows@.len(),
            rows@[at].1 == win,
            i <= at,
            forall|a: int, b: int|
                0 <= a < b < rows@.len() ==> (#[trigger] rows@[a]).0 >= (#[trigger] rows@[b]).0,
            forall|j: int| 0 <= j < i ==> (#[trigger] rows@[j]).0 == rows@[0].0,
            forall|j: int| 0 <= j < i ==> (#[trigger] rows@[j]).1 != win,
            best_score == (if i == 0 {
                0
            } else {
                rows@[0].0
            }),
        decreases rows@.len() - i,
    {
        let (score, vote) = rows[i];
        if i > 0 {
            assert(rows@[0].0 >= rows@[i as int].0);
        }
        if best_score == 0 {
            best_score = score;
        } else if score < best_score {
            proof {
                assert(first_below(rows@, i as int));
                assert forall|j: int| 0 <= j < rows@.len() && (#[trigger] rows@[j]).1
                    == win implies rows@[j].0 != rows@[0].0 by {
                    if j < i {
                        // the rows before this one are not the winner's
                    } else if j > i {
                        assert(rows@[i as int].0 >= rows@[j].0);
                    }
                }
            }
            return Err(NotBestScore { winner: win, ahead: vote });
        }
        if vote == win {
            return Ok(Some(win));
        }
        proof {
            assert(i as int != at);
        }
        i += 1;
    }
    proof {
        assert(false);
    }
    Ok(None)
}


/// With the delegation of the vote `w` revoked, the ballot ranks `w` with
/// the best score, or does not, as `passes` says.
pub open spec fn audits(votes: Seq<Vote>, w: usize, passes: bool) -> bool {
    exists|later: Seq<Candidate>, k: int, best: Option<usize>| #[trigger]
        counted(votes, set![w as int], later, k, best) && top_ranked(ranking_rows(later, k), w)
            == passes
}

/// Runs elections on streams of votes, with the names that the IDs of
/// the streams stand for.
pub struct Fuzz {
    verbose: bool,
    names: Vec<String>,
}

impl Fuzz {
    /// Shall the run be told step by step?
    pub closed spec fn is_verbose(&self) -> bool {
        self.verbose
    }

    /// The table of names.
    pub closed spec fn name_table(&self) -> Seq<String> {
        self.names@
    }

    pub fn new(verbose: bool, names: Vec<String>) -> (fuzz: Self)
        ensures
            fuzz.is_verbose() == verbose,
            fuzz.name_table() == names@,
    {
        Self { verbose, names }
    }

    /// Shall the run be told step by step?
    pub fn verbose(&self) -> (verbose: bool)
        ensures
            verbose == self.is_verbose(),
    {
        self.verbose
    }

    /// The table of names.
    pub fn names(&self) -> (names: &Vec<String>)
        ensures
            names@ == self.name_table(),
    {
        &self.names
    }

    /// Reads the votes of `data`, finds the winner and holds them to the
    /// ranking after their delegation is revoked. Returns the place in the
    /// table of names of the first name that is the winner's, or -1 where
    /// nobody wins; and the error where the winner is ranked behind a
    /// lower score. The stream must be short enough for the votes of all
    /// its records to fit a score.
    #[verifier::rlimit(40)]
    pub fn run(&self, data: &[u8]) -> (out: Result<i16, NotBestScore>)
        requires
            ids_named(data@, self.name_table()),
            255 * (data@.len() / 4) <= u64::MAX,
        ensures
            match out {
                Ok(i) => if i == -1 {
                    ballot_elects(stream_ballot(data@, self.name_table()), None)
                } else {
                    &&& 0 <= i < self.name_table().len()
                    &&& exists|w: usize| #[trigger]
                        ballot_elects(stream_ballot(data@, self.name_table()), Some(w)) && {
                            &&& w < data@.len() / 4
                            &&& audits(stream_ballot(data@, self.name_table()), w, true)
                            &&& self.name_table()[i as int]@ == stream_ballot(
                                data@,
                                self.name_table(),
                            )[w as int].voter_id@
                            &&& forall|j: int|
                                0 <= j < i ==> self.name_table()[j]@ != stream_ballot(
                                    data@,
                                    self.name_table(),
                                )[w as int].voter_id@
                        }
                },
                Err(e) => {
                    &&& ballot_elects(stream_ballot(data@, self.name_table()), Some(e.winner))
                    &&& audits(stream_ballot(data@, self.name_table()), e.winner, false)
                },
            },
    {
        let ghost ballot = stream_ballot(data@, self.names@);
        let votes = mk_votes(data, &self.names);
        proof {
            lemma_stream_weight(data@, self.names@, ballot.len() as int);
        }
        let mut vc = VoteCounter::new(votes.as_slice(), Introspector::new());
        let ghost cands = vc.table();
        let ghost k = vc.willing();
        let ghost best = vc.leader();
        let audit = audit_winner(&mut vc);
        proof {
            assert(counted(ballot, Set::<int>::empty(), cands, k, best));
        }
        match audit {
            Ok(None) => {
                proof {
                    lemma_counted_ready(ballot, Set::<int>::empty(), cands, k, best);
                    assert(ballot_elects(ballot, None));
                }
                Ok(-1)
            },
            Ok(Some(w)) => {
                proof {
                    assert(ballot_elects(ballot, Some(w)));
                    assert(Set::<int>::empty().insert(w as int) =~= set![w as int]);
                    assert(counted(ballot, set![w as int], vc.table(), vc.willing(), vc.leader()));
                    assert(audits(ballot, w, true));
                    lemma_elected_in_ballot(ballot, cands, k, best, w);
                    assert(ballot[w as int] == record_vote(
                        data@.subrange(4 * w, 4 * w + 4),
                        self.names@,
                    ));
                    assert(data@[4 * w + 1] < self.names@.len());
                }
                match name_index(&self.names, &votes[w].voter_id) {
                    Some(i) => {
                        assert(i <= data@[4 * w + 1]);
                        Ok(i as i16)
                    },
                    None => {
                        proof {
                            assert(false);
                        }
                        Ok(-1)
                    },
                }
            },
            Err(e) => {
                proof {
                    assert(ballot_elects(ballot, Some(e.winner)));
                    assert(Set::<int>::empty().insert(e.winner as int) =~= set![e.winner as int]);
                    assert(counted(
                        ballot,
                        set![e.winner as int],
                        vc.table(),
                        vc.willing(),
                        vc.leader(),
                    ));
                    assert(audits(ballot, e.winner, false));
                }
                Err(e)
            },
        }
    }
}

} // verus!
