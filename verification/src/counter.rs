use vstd::prelude::*;
use crate::types::Vote;
use crate::candidate::{Candidate, link, targets, targets_in_table, vote_order};
use crate::builder::{
    accepted_in_pass,
    accepted_order,
    builder_events,
    fresh,
    is_accepted,
    lemma_pass_members,
    mk_candidates,
    names,
    resolved,
    table_built,
};
use crate::delegation::{
    compute_delegated_votes,
    delegation_events,
    in_lists_linked,
    lemma_last_voter,
    places,
    totals_delegated,
    undelegated,
    weight_sum,
    weights,
};
use crate::introspector::{
    Event,
    EventKind,
    EventView,
    Introspector,
    Winner,
    lemma_heard_more,
    lemma_unheard,
};
use crate::patron::{solve_winner, solved, solving_events};
use crate::ranking::{
    beats,
    order_by_total_indirect,
    rank_threaded,
    ranked,
    ranking,
};
use crate::ring::{
    best_of_ring,
    best_of_ring_event,
    best_ring_event,
    get_best_candidates,
    is_best_list,
    is_ring_best,
    lists_descend,
    ring_members,
    top_set,
};
use crate::tie_break::{tie_breaker, tie_events, tie_hashes, wins_tie};

verus! {

/// The votes held by the first `upto` voters of the ballot together.
pub open spec fn ballot_weight(votes: Seq<Vote>, upto: int) -> nat
    decreases upto,
{
    if upto <= 0 {
        0
    } else {
        ballot_weight(votes, upto - 1) + votes[upto - 1].number_of_votes as nat
    }
}

/// Do the votes of the ballot together fit the type of a score? Only
/// such a ballot can be counted.
pub fn ballot_fits(votes: &[Vote]) -> (fits: bool)
    ensures
        fits == (ballot_weight(votes@, votes@.len() as int) <= u64::MAX),
{
    let mut sum: u64 = 0;
    let mut i: usize = 0;
    while i < votes.len()
        invariant
            i <= votes@.len(),
            sum == ballot_weight(votes@, i as int),
        decreases votes@.len() - i,
    {
        match sum.checked_add(votes[i].number_of_votes) {
            Some(more) => {
                sum = more;
            },
            None => {
                proof {
                    lemma_ballot_weight_grows(votes@, i as int + 1, votes@.len() as int);
                }
                return false;
            },
        }
        i += 1;
    }
    true
}

proof fn lemma_ballot_weight_grows(votes: Seq<Vote>, a: int, b: int)
    requires
        a <= b,
    ensures
        ballot_weight(votes, a) <= ballot_weight(votes, b),
    decreases b - a,
{
    if a < b {
        lemma_ballot_weight_grows(votes, a, b - 1);
    }
}

/// The votes held by the first `upto` voters whose willingness is `willing`.
spec fn flagged_weight(votes: Seq<Vote>, willing: bool, upto: int) -> nat
    decreases upto,
{
    if upto <= 0 {
        0
    } else {
        flagged_weight(votes, willing, upto - 1) + if votes[upto - 1].willing_candidate == willing {
            votes[upto - 1].number_of_votes as nat
        } else {
            0
        }
    }
}

/// The votes held by the voters listed in `order`.
spec fn order_weight(votes: Seq<Vote>, order: Seq<int>) -> nat
    decreases order.len(),
{
    if order.len() == 0 {
        0
    } else {
        order_weight(votes, order.drop_last()) + votes[order.last()].number_of_votes as nat
    }
}

proof fn lemma_flagged_weights(votes: Seq<Vote>, upto: int)
    ensures
        flagged_weight(votes, true, upto) + flagged_weight(votes, false, upto) == ballot_weight(
            votes,
            upto,
        ),
    decreases upto,
{
    if upto > 0 {
        lemma_flagged_weights(votes, upto - 1);
    }
}

proof fn lemma_pass_weight(votes: Seq<Vote>, willing: bool, upto: int)
    ensures
        order_weight(votes, accepted_in_pass(votes, willing, upto)) <= flagged_weight(
            votes,
            willing,
            upto,
        ),
    decreases upto,
{
    if upto > 0 {
        lemma_pass_weight(votes, willing, upto - 1);
        let rest = accepted_in_pass(votes, willing, upto - 1);
        if votes[upto - 1].willing_candidate == willing && is_accepted(votes, upto - 1) {
            assert(rest.push(upto - 1).drop_last() =~= rest);
        }
    }
}

proof fn lemma_order_weight_concat(votes: Seq<Vote>, a: Seq<int>, b: Seq<int>)
    ensures
        order_weight(votes, a + b) == order_weight(votes, a) + order_weight(votes, b),
    decreases b.len(),
{
    if b.len() == 0 {
        assert(a + b =~= a);
    } else {
        lemma_order_weight_concat(votes, a, b.drop_last());
        assert((a + b).drop_last() =~= a + b.drop_last());
    }
}

proof fn lemma_weight_sum_is_order_weight(votes: Seq<Vote>, cands: Seq<Candidate>, upto: int)
    requires
        0 <= upto <= cands.len(),
    ensures
        weight_sum(weights(votes, cands), upto) == order_weight(
            votes,
            vote_order(cands).subrange(0, upto),
        ),
    decreases upto,
{
    if upto > 0 {
        lemma_weight_sum_is_order_weight(votes, cands, upto - 1);
        assert(vote_order(cands).subrange(0, upto).drop_last() =~= vote_order(cands).subrange(
            0,
            upto - 1,
        ));
    }
}

/// The candidates of a ballot hold no more votes than its voters.
proof fn lemma_table_weight(votes: Seq<Vote>, cands: Seq<Candidate>)
    requires
        vote_order(cands) == accepted_order(votes),
    ensures
        weight_sum(weights(votes, cands), cands.len() as int) <= ballot_weight(
            votes,
            votes.len() as int,
        ),
{
    let n = votes.len() as int;
    lemma_weight_sum_is_order_weight(votes, cands, cands.len() as int);
    assert(vote_order(cands).subrange(0, cands.len() as int) =~= vote_order(cands));
    lemma_order_weight_concat(
        votes,
        accepted_in_pass(votes, true, n),
        accepted_in_pass(votes, false, n),
    );
    lemma_pass_weight(votes, true, n);
    lemma_pass_weight(votes, false, n);
    lemma_flagged_weights(votes, n);
}

/// The table is what counting makes of the ballot `votes` once the
/// delegations of the votes in `revoked` are taken back: the accepted votes
/// in their order, each delegating as their vote says, with the totals of
/// indirect votes, the lists of voters and the ranking of the first `k`,
/// the willing ones, which `best` leads.
#[verifier::opaque]
pub open spec fn counted(
    votes: Seq<Vote>,
    revoked: Set<int>,
    cands: Seq<Candidate>,
    k: int,
    best: Option<usize>,
) -> bool {
    &&& vote_order(cands) == accepted_order(votes)
    &&& k == accepted_in_pass(votes, true, votes.len() as int).len()
    &&& forall|c: int|
        0 <= c < cands.len() ==> {
            &&& (#[trigger] cands[c]).vote < votes.len()
            &&& cands[c].is_willing_candidate == votes[cands[c].vote as int].willing_candidate
            &&& if revoked.contains(cands[c].vote as int) {
                cands[c].vote_for is None
            } else {
                resolved(votes, cands, c)
            }
            &&& c >= k ==> cands[c].next_by_total_indirect_votes is None
        }
    &&& totals_delegated(votes, cands)
    &&& in_lists_linked(cands)
    &&& ranked(cands, k, best)
}

/// In a counted table every delegation leads to another candidate.
pub proof fn lemma_counted_targets(
    votes: Seq<Vote>,
    revoked: Set<int>,
    cands: Seq<Candidate>,
)
    requires
        forall|c: int|
            0 <= c < cands.len() ==> (#[trigger] cands[c]).vote_for is None || resolved(
                votes,
                cands,
                c,
            ),
    ensures
        targets_in_table(targets(cands)),
{
    assert forall|c: int| 0 <= c < cands.len() implies ((#[trigger] targets(cands)[c]) matches Some(
        k,
    ) ==> 0 <= k < cands.len() && k != c) by {
        match cands[c].vote_for {
            Some(k) => {
                assert(resolved(votes, cands, c));
                assert(names(votes, cands, c, k as int));
            },
            None => {},
        }
    }
}

/// In linked lists of voters every link leads to an earlier candidate.
pub proof fn lemma_linked_descend(cands: Seq<Candidate>)
    requires
        in_lists_linked(cands),
        targets_in_table(targets(cands)),
    ensures
        lists_descend(cands),
{
    let t = targets(cands);
    assert forall|c: int| 0 <= c < cands.len() implies ((#[trigger] cands[c]).vote_for matches Some(
        k,
    ) ==> k < cands.len()) && (cands[c].voted_for_me matches Some(k) ==> k < cands.len()) && (
    cands[c].voting_for_same matches Some(k) ==> k < c) by {
        assert(t[c] == link(cands[c].vote_for));
        lemma_last_voter(t, c, cands.len() as int);
        match t[c] {
            Some(x) => {
                lemma_last_voter(t, x, c);
            },
            None => {},
        }
    }
}

/// What finding the winner needs of a counted table.
pub proof fn lemma_counted_ready(
    votes: Seq<Vote>,
    revoked: Set<int>,
    cands: Seq<Candidate>,
    k: int,
    best: Option<usize>,
)
    requires
        counted(votes, revoked, cands, k, best),
    ensures
        ranked(cands, k, best),
        in_lists_linked(cands),
        lists_descend(cands),
        targets_in_table(targets(cands)),
        forall|c: int| 0 <= c < cands.len() ==> (#[trigger] cands[c]).vote < votes.len(),
        best is None <==> k == 0,
{
    reveal(counted);
    assert forall|c: int| 0 <= c < cands.len() implies (#[trigger] cands[c]).vote_for is None
        || resolved(votes, cands, c) by {}
    lemma_counted_targets(votes, revoked, cands);
    lemma_linked_descend(cands);
}

/// The rows of the ranking: one for each willing candidate and for nobody
/// else, and none before a row with a higher score.
pub proof fn lemma_rows_ranked(
    votes: Seq<Vote>,
    revoked: Set<int>,
    cands: Seq<Candidate>,
    k: int,
    best: Option<usize>,
)
    requires
        counted(votes, revoked, cands, k, best),
    ensures
        ranking_rows(cands, k).len() == k,
        k <= cands.len(),
        forall|i: int|
            0 <= i < k ==> (#[trigger] ranking_rows(cands, k)[i]).1 < votes.len() && votes[ranking_rows(
                cands,
                k,
            )[i].1 as int].willing_candidate,
        forall|i: int, j: int|
            0 <= i < j < k ==> (#[trigger] ranking_rows(cands, k)[i]).0 >= (#[trigger] ranking_rows(
                cands,
                k,
            )[j]).0,
{
    lemma_counted_ready(votes, revoked, cands, k, best);
    reveal(counted);
    let order = ranking(cands, k);
    let rows = ranking_rows(cands, k);
    assert forall|i: int| 0 <= i < k implies (#[trigger] rows[i]).1 < votes.len()
        && votes[rows[i].1 as int].willing_candidate by {
        assert(0 <= order[i] < k);
        lemma_willing_first(votes, cands, order[i]);
    }
    assert forall|i: int, j: int| 0 <= i < j < k implies (#[trigger] rows[i]).0 >= (
    #[trigger] rows[j]).0 by {
        assert(beats(cands, order[i], order[j]));
    }
}

/// A vote that is elected by some choice of the best of the ring and some
/// place among the finalists is the vote that the table elects.
pub proof fn lemma_elected(
    votes: Seq<Vote>,
    cands: Seq<Candidate>,
    k: int,
    best: usize,
    winner: usize,
)
    requires
        exists|tenative: Seq<usize>, place: int| #[trigger]
            elects_by(votes, cands, k, top_set(cands, k, best as int), tenative, place, winner),
    ensures
        elects(votes, cands, k, Some(best), Some(winner)),
{
    let ring = top_set(cands, k, best as int);
    let (tenative, place) = choose|tenative: Seq<usize>, place: int| #[trigger]
        elects_by(votes, cands, k, ring, tenative, place, winner);
    assert(elects_by(votes, cands, k, top_set(cands, k, best as int), tenative, place, winner));
    assert(elects_vote(votes, cands, k, best as int, winner));
}

/// The willing candidates are the first of the table.
pub proof fn lemma_willing_first(votes: Seq<Vote>, cands: Seq<Candidate>, c: int)
    requires
        vote_order(cands) == accepted_order(votes),
        0 <= c < cands.len(),
    ensures
        votes[cands[c].vote as int].willing_candidate <==> c < accepted_in_pass(
            votes,
            true,
            votes.len() as int,
        ).len(),
        0 <= cands[c].vote < votes.len(),
        is_accepted(votes, cands[c].vote as int),
{
    let n = votes.len() as int;
    let first = accepted_in_pass(votes, true, n);
    let second = accepted_in_pass(votes, false, n);
    lemma_pass_members(votes, true, n);
    lemma_pass_members(votes, false, n);
    assert(vote_order(cands)[c] == cands[c].vote);
    assert(vote_order(cands).len() == cands.len());
    assert((first + second).len() == first.len() + second.len());
    if c < first.len() {
        assert(first[c] == cands[c].vote);
        assert(first.contains(cands[c].vote as int));
    } else {
        assert(second[c - first.len()] == cands[c].vote);
        assert(second.contains(cands[c].vote as int));
    }
}


/// The table as it stands before the votes are delegated: the accepted
/// votes in their order, each delegating as their vote says unless it was
/// revoked, each holding their own votes, nobody in a list.
pub open spec fn uncounted(votes: Seq<Vote>, revoked: Set<int>, cands: Seq<Candidate>) -> bool {
    &&& vote_order(cands) == accepted_order(votes)
    &&& forall|c: int|
        0 <= c < cands.len() ==> {
            &&& fresh(votes, cands, c)
            &&& if revoked.contains((#[trigger] cands[c]).vote as int) {
                cands[c].vote_for is None
            } else {
                resolved(votes, cands, c)
            }
        }
}

/// The events of counting a ballot: those of building the table, then
/// those of delegating the votes.
pub open spec fn counting_events(votes: Seq<Vote>, cands: Seq<Candidate>) -> Seq<EventView> {
    builder_events(votes) + delegation_events(places(cands), targets(cands), cands.len() as int)
}

/// The events of finding the winner where `tenative` are the best of the
/// ring and the finalist at `place` wins: the best ring, the best of the
/// ring, the search for a patron where there is one ring, the tie
/// breaker, and the winner.
pub open spec fn election_events(
    votes: Seq<Vote>,
    cands: Seq<Candidate>,
    k: int,
    best: int,
    tenative: Seq<usize>,
    place: int,
) -> Seq<EventView> {
    let ring = top_set(cands, k, best);
    let last = finalists(cands, k, ring, tenative);
    seq![best_ring_event(cands, k, best)] + seq![
        best_of_ring_event(votes, cands, ring, tenative),
    ] + (if ring_members(cands, ring).len() < 2 {
        solving_events(cands, k, ring, tenative)
    } else {
        Seq::empty()
    }) + tie_events(votes, cands, last) + seq![
        EventView::Winner(
            Some((cands[last[place] as int].vote, cands[last[place] as int].total_indirect_votes)),
        ),
    ]
}

/// The rows of the ranking: for each willing candidate, from the first of
/// the ranking to the last, the total of indirect votes and the vote.
pub open spec fn ranking_rows(cands: Seq<Candidate>, k: int) -> Seq<(u64, usize)> {
    Seq::new(
        k as nat,
        |i: int|
            (cands[ranking(cands, k)[i]].total_indirect_votes, cands[ranking(cands, k)[i]].vote),
    )
}

/// Those among whom the tie breaker picks: where the candidates with the
/// best score make up one ring, what `solved` makes of the best of the
/// ring; else the best of the ring as they are.
pub open spec fn finalists(cands: Seq<Candidate>, k: int, ring: Seq<bool>, tenative: Seq<usize>) -> Seq<
    usize,
> {
    if ring_members(cands, ring).len() < 2 {
        solved(cands, k, ring, tenative)
    } else {
        tenative
    }
}

/// `tenative` are the best of the ring, and of the finalists the one at
/// `place` wins the tie and stands for the vote `winner`.
pub open spec fn elects_by(
    votes: Seq<Vote>,
    cands: Seq<Candidate>,
    k: int,
    ring: Seq<bool>,
    tenative: Seq<usize>,
    place: int,
    winner: usize,
) -> bool {
    &&& is_best_list(votes, cands, ring, tenative)
    &&& wins_tie(tie_hashes(votes, cands, finalists(cands, k, ring, tenative)), place)
    &&& winner == cands[finalists(cands, k, ring, tenative)[place] as int].vote
}

/// The table, which `best` leads, elects the vote `winner`.
pub open spec fn elects_vote(
    votes: Seq<Vote>,
    cands: Seq<Candidate>,
    k: int,
    best: int,
    winner: usize,
) -> bool {
    exists|tenative: Seq<usize>, place: int| #[trigger]
        elects_by(votes, cands, k, top_set(cands, k, best), tenative, place, winner)
}

/// `winner` is the vote that the table elects. Without a willing candidate
/// there is none. Else the candidates with the best score are taken, and
/// of them the best of the ring; where they make up one ring, a single
/// one gives way to their patron; and of those who are left the tie
/// breaker picks one.
pub open spec fn elects(
    votes: Seq<Vote>,
    cands: Seq<Candidate>,
    k: int,
    best: Option<usize>,
    winner: Option<usize>,
) -> bool {
    match best {
        None => winner is None,
        Some(b) => match winner {
            Some(w) => elects_vote(votes, cands, k, b as int, w),
            None => false,
        },
    }
}

/// Finding the winner has published how `winner` was found: that there is
/// none where no candidate is willing, else the events of an election that
/// elects `winner`.
pub open spec fn told_winner(
    votes: Seq<Vote>,
    cands: Seq<Candidate>,
    k: int,
    best: Option<usize>,
    winner: Option<usize>,
    before: Introspector,
    after: Introspector,
) -> bool {
    match best {
        None => after.has_heard(before, seq![EventView::Winner(None)]),
        Some(b) => match winner {
            Some(w) => exists|tenative: Seq<usize>, place: int| #[trigger]
                elects_by(votes, cands, k, top_set(cands, k, b as int), tenative, place, w)
                    && after.has_heard(
                    before,
                    election_events(votes, cands, k, b as int, tenative, place),
                ),
            None => false,
        },
    }
}

/// Finds the winner in a table that has a willing candidate: takes the
/// candidates with the best score and the best of their ring, lets a
/// single one give way to their patron where they make up one ring, and
/// breaks the tie among those who are left. Returns the place of the
/// winning vote in the ballot.
#[verifier::rlimit(40)]
pub fn elect(
    votes: &[Vote],
    cand: &Vec<Candidate>,
    total_willing_candidates: usize,
    best: usize,
    is: &mut Introspector,
) -> (winner: usize)
    requires
        ranked(cand@, total_willing_candidates as int, Some(best)),
        in_lists_linked(cand@),
        lists_descend(cand@),
        forall|c: int| 0 <= c < cand@.len() ==> (#[trigger] cand@[c]).vote < votes@.len(),
    ensures
        exists|tenative: Seq<usize>, place: int| #[trigger]
            elects_by(
                votes@,
                cand@,
                total_willing_candidates as int,
                top_set(cand@, total_willing_candidates as int, best as int),
                tenative,
                place,
                winner,
            ) && final(is).has_heard(
                *old(is),
                election_events(
                    votes@,
                    cand@,
                    total_willing_candidates as int,
                    best as int,
                    tenative,
                    place,
                ),
            ),
        winner < votes@.len(),
{
    let ghost k = total_willing_candidates as int;
    let ghost sink0 = *is;
    let (best_ring, ring_count) = get_best_candidates(cand, best, total_willing_candidates, is);
    let ghost sink1 = *is;
    let ghost ring = best_ring@;
    // Get the best candidate out of the best ring
    let mut tenative_winner = best_of_ring(votes, cand, &best_ring, is);
    let ghost sink2 = *is;
    let ghost tenative = tenative_winner@;
    proof {
        assert(0 <= ranking(cand@, k)[0] < k);
        assert(ring[best as int]);
        assert forall|i: int| 0 <= i < tenative.len() implies (#[trigger] tenative[i]) < k
            && ring[tenative[i] as int] by {
            assert(is_ring_best(votes@, cand@, ring, tenative[i] as int));
        }
        lemma_heard_more(
            sink0,
            sink1,
            sink2,
            seq![best_ring_event(cand@, k, best as int)],
            seq![best_of_ring_event(votes@, cand@, ring, tenative)],
        );
    }
    let ghost told2 = seq![best_ring_event(cand@, k, best as int)] + seq![
        best_of_ring_event(votes@, cand@, ring, tenative),
    ];
    let ghost told3 = told2 + (if ring_count < 2 {
        solving_events(cand@, k, ring, tenative)
    } else {
        Seq::empty()
    });
    if ring_count < 2 {
        tenative_winner =
        solve_winner(cand, tenative_winner, &best_ring, total_willing_candidates, is);
    }
    let ghost sink3 = *is;
    proof {
        assert(tenative_winner@ == finalists(cand@, k, ring, tenative));
        if ring_count < 2 {
            lemma_heard_more(
                sink0,
                sink2,
                sink3,
                told2,
                solving_events(cand@, k, ring, tenative),
            );
        } else {
            assert(told2 + Seq::<EventView>::empty() =~= told2);
        }
    }
    // In case of a tie, resolve
    let winner = tie_breaker(votes, cand, &tenative_winner, is);
    let ghost sink4 = *is;
    proof {
        lemma_heard_more(
            sink0,
            sink3,
            sink4,
            told3,
            tie_events(votes@, cand@, tenative_winner@),
        );
    }
    let w = winner.unwrap();
    let vote = cand[w].vote;
    let ghost won = EventView::Winner(Some((vote, cand@[w as int].total_indirect_votes)));
    if is.is_subscribed(EventKind::Winner) {
        let event = Event::Winner(
            Some(Winner { candidate: vote, votes: cand[w].total_indirect_votes }),
        );
        assert(event@ == won);
        is.event(event);
    } else {
        proof {
            lemma_unheard(*is, won);
        }
    }
    proof {
        let place = choose|place: int|
            wins_tie(tie_hashes(votes@, cand@, tenative_winner@), place) && tenative_winner@[place]
                == w;
        assert(elects_by(votes@, cand@, k, ring, tenative, place, vote));
        lemma_heard_more(
            sink0,
            sink4,
            *is,
            told3 + tie_events(votes@, cand@, tenative_winner@),
            seq![won],
        );
        assert(is.has_heard(sink0, election_events(votes@, cand@, k, best as int, tenative, place)));
    }
    vote
}

/// Counts the votes of an election: makes the table of candidates,
/// delegates every vote, ranks the willing candidates, and finds the
/// winner.
pub struct VoteCounter<'a> {
    votes: &'a [Vote],
    cand: Vec<Candidate>,
    is: Introspector,
    total_willing_candidates: usize,
    best: Option<usize>,
    revoked: Ghost<Set<int>>,
}

impl<'a> VoteCounter<'a> {
    /// The ballot that is counted.
    pub closed spec fn ballot(&self) -> Seq<Vote> {
        self.votes@
    }

    /// The votes whose delegation was revoked, by their place in the
    /// ballot.
    pub closed spec fn revoked(&self) -> Set<int> {
        self.revoked@
    }

    /// The table of candidates.
    pub closed spec fn table(&self) -> Seq<Candidate> {
        self.cand@
    }

    /// The number of willing candidates.
    pub closed spec fn willing(&self) -> int {
        self.total_willing_candidates as int
    }

    /// The first of the ranking.
    pub closed spec fn leader(&self) -> Option<usize> {
        self.best
    }

    /// The sink of the events.
    pub closed spec fn sink(&self) -> Introspector {
        self.is
    }

    /// The counter holds the count of its ballot, and the votes of the
    /// ballot together fit the type of a score.
    pub open spec fn wf(&self) -> bool {
        &&& counted(self.ballot(), self.revoked(), self.table(), self.willing(), self.leader())
        &&& ballot_weight(self.ballot(), self.ballot().len() as int) <= u64::MAX
    }

    /// The rows of the ranking, from the first to the last.
    pub open spec fn rows(&self) -> Seq<(u64, usize)> {
        ranking_rows(self.table(), self.willing())
    }

    /// Creates a new counter and computes the delegated votes. After this
    /// has been called, `iter` gives the ranking of the candidates and
    /// `find_winner` computes a winning candidate.
    pub fn new(votes: &'a [Vote], is: Introspector) -> (counter: Self)
        requires
            ballot_weight(votes@, votes@.len() as int) <= u64::MAX,
        ensures
            counter.wf(),
            counter.ballot() == votes@,
            counter.revoked() == Set::<int>::empty(),
            counter.sink().has_heard(is, counting_events(votes@, counter.table())),
    {
        let mut out = VoteCounter {
            votes,
            cand: Vec::new(),
            is,
            total_willing_candidates: 0,
            best: None,
            revoked: Ghost(Set::empty()),
        };
        out.total_willing_candidates = mk_candidates(votes, &mut out.cand, &mut out.is);
        proof {
            assert(table_built(votes@, out.cand@));
            assert(uncounted(votes@, Set::<int>::empty(), out.cand@)) by {
                assert forall|c: int| 0 <= c < out.cand@.len() implies fresh(
                    votes@,
                    out.cand@,
                    c,
                ) && resolved(votes@, out.cand@, c) by {
                    assert(resolved(votes@, out.cand@, c));
                }
            }
        }
        let ghost built = out.is;
        out.compute_delegated_votes();
        proof {
            lemma_heard_more(
                is,
                built,
                out.is,
                builder_events(votes@),
                delegation_events(places(out.cand@), targets(out.cand@), out.cand@.len() as int),
            );
        }
        out
    }

    /// Delegates the votes and ranks the willing candidates.
    #[verifier::rlimit(40)]
    fn compute_delegated_votes(&mut self)
        requires
            uncounted(old(self).votes@, old(self).revoked@, old(self).cand@),
            old(self).total_willing_candidates == accepted_in_pass(
                old(self).votes@,
                true,
                old(self).votes@.len() as int,
            ).len(),
            ballot_weight(old(self).votes@, old(self).votes@.len() as int) <= u64::MAX,
        ensures
            final(self).wf(),
            final(self).votes@ == old(self).votes@,
            final(self).revoked@ == old(self).revoked@,
            final(self).total_willing_candidates == old(self).total_willing_candidates,
            final(self).is.has_heard(
                old(self).is,
                delegation_events(
                    places(final(self).cand@),
                    targets(final(self).cand@),
                    final(self).cand@.len() as int,
                ),
            ),
    {
        let ghost votes = self.votes@;
        let ghost start = self.cand@;
        let ghost k = self.total_willing_candidates as int;
        proof {
            reveal(counted);
            lemma_table_weight(votes, start);
            assert forall|c: int| 0 <= c < start.len() implies (#[trigger] start[c]).vote_for
                is None || resolved(votes, start, c) by {
                assert(fresh(votes, start, c));
            }
            lemma_counted_targets(votes, self.revoked@, start);
            assert(undelegated(votes, start)) by {
                assert forall|c: int| 0 <= c < start.len() implies (#[trigger] start[c]).vote
                    < votes.len() && start[c].total_indirect_votes
                    == votes[start[c].vote as int].number_of_votes && start[c].voting_for_same
                    is None && start[c].voted_for_me is None by {
                    assert(fresh(votes, start, c));
                }
            }
        }
        compute_delegated_votes(self.votes, &mut self.cand, &mut self.is);
        let ghost mid = self.cand@;
        proof {
            lemma_pass_members(votes, true, votes.len() as int);
            assert(vote_order(mid) =~= vote_order(start));
            assert((accepted_in_pass(votes, true, votes.len() as int) + accepted_in_pass(
                votes,
                false,
                votes.len() as int,
            )).len() >= k);
            assert(vote_order(mid).len() == mid.len());
        }
        self.best = order_by_total_indirect(&mut self.cand, self.total_willing_candidates);
        proof {
            let done = self.cand@;
            assert(vote_order(done) =~= vote_order(start));
            assert(targets(done) =~= targets(mid));
            assert(targets(mid) =~= targets(start));
            assert(places(done) =~= places(start));
            assert(weights(votes, done) =~= weights(votes, mid));
            assert(totals_delegated(votes, done)) by {
                assert forall|c: int| 0 <= c < done.len() implies (#[trigger] done[c]).total_indirect_votes
                    == mid[c].total_indirect_votes by {}
            }
            assert(in_lists_linked(done)) by {
                assert forall|c: int| 0 <= c < done.len() implies (#[trigger] done[c]).voted_for_me
                    == mid[c].voted_for_me && done[c].voting_for_same
                    == mid[c].voting_for_same by {}
            }
            assert forall|c: int| 0 <= c < done.len() implies (#[trigger] done[c]).vote
                < votes.len() && done[c].is_willing_candidate
                == votes[done[c].vote as int].willing_candidate && (if self.revoked@.contains(
                done[c].vote as int,
            ) {
                done[c].vote_for is None
            } else {
                resolved(votes, done, c)
            }) && (c >= k ==> done[c].next_by_total_indirect_votes is None) by {
                assert(fresh(votes, start, c));
                assert(mid[c].vote == start[c].vote);
                assert(done[c].vote == mid[c].vote);
                assert(mid[c].next_by_total_indirect_votes
                    == start[c].next_by_total_indirect_votes);
                if !self.revoked@.contains(done[c].vote as int) {
                    assert(resolved(votes, start, c));
                    assert forall|j: int| 0 <= j < done.len() implies names(votes, done, c, j)
                        == names(votes, start, c, j) by {
                        assert(done[j].vote == mid[j].vote);
                        assert(mid[j].vote == start[j].vote);
                    }
                    match done[c].vote_for {
                        Some(j) => {
                            assert(names(votes, start, c, j as int));
                        },
                        None => {
                            assert forall|j: int| 0 <= j < done.len() implies !names(
                                votes,
                                done,
                                c,
                                j,
                            ) by {
                                assert(!names(votes, start, c, j));
                            }
                        },
                    }
                }
            }
        }
    }

    /// Attempts to find a winning candidate. Returns the place of the
    /// winning vote in the ballot, or nothing where no candidate is
    /// willing. Publishes how the winner was found.
    #[verifier::rlimit(40)]
    pub fn find_winner(&mut self) -> (winner: Option<usize>)
        requires
            old(self).wf(),
        ensures
            final(self).wf(),
            final(self).ballot() == old(self).ballot(),
            final(self).revoked() == old(self).revoked(),
            final(self).table() == old(self).table(),
            final(self).willing() == old(self).willing(),
            final(self).leader() == old(self).leader(),
            elects(
                old(self).ballot(),
                old(self).table(),
                old(self).willing(),
                old(self).leader(),
                winner,
            ),
            winner is None <==> old(self).willing() == 0,
            winner matches Some(w) ==> w < old(self).ballot().len(),
            told_winner(
                old(self).ballot(),
                old(self).table(),
                old(self).willing(),
                old(self).leader(),
                winner,
                old(self).sink(),
                final(self).sink(),
            ),
    {
        let ghost votes = self.votes@;
        let ghost cands = self.cand@;
        let ghost k = self.total_willing_candidates as int;
        proof {
            lemma_counted_ready(votes, self.revoked@, cands, k, self.best);
        }
        let best = match self.best {
            Some(best) => best,
            None => {
                if self.is.is_subscribed(EventKind::Winner) {
                    let event = Event::Winner(None);
                    assert(event@ == EventView::Winner(None));
                    self.is.event(event);
                } else {
                    proof {
                        lemma_unheard(self.is, EventView::Winner(None));
                    }
                }
                return None;
            },
        };
        let ghost before = self.is;
        let vote = elect(
            self.votes,
            &self.cand,
            self.total_willing_candidates,
            best,
            &mut self.is,
        );
        proof {
            let ring = top_set(cands, k, best as int);
            let (tenative, place) = choose|tenative: Seq<usize>, place: int| #[trigger]
                elects_by(votes, cands, k, ring, tenative, place, vote) && self.is.has_heard(
                    before,
                    election_events(votes, cands, k, best as int, tenative, place),
                );
            assert(elects_by(votes, cands, k, ring, tenative, place, vote));
            lemma_elected(votes, cands, k, best, vote);
        }
        Some(vote)
    }

    /// Revokes the delegation of the vote at `projected_winner` in the
    /// ballot and computes again. This can be used when a winning candidate
    /// has been identified, to demonstrate that they are the winner if
    /// they do not delegate their vote.
    #[verifier::rlimit(40)]
    pub fn revoke_vote(&mut self, projected_winner: usize)
        requires
            old(self).wf(),
        ensures
            final(self).wf(),
            final(self).ballot() == old(self).ballot(),
            final(self).revoked() == old(self).revoked().insert(projected_winner as int),
            final(self).willing() == old(self).willing(),
            final(self).sink().has_heard(
                old(self).sink(),
                delegation_events(
                    places(final(self).table()),
                    targets(final(self).table()),
                    final(self).table().len() as int,
                ),
            ),
    {
        let ghost votes = self.votes@;
        let ghost start = self.cand@;
        let ghost then_revoked = self.revoked@;
        let ghost now_revoked = self.revoked@.insert(projected_winner as int);
        proof {
            reveal(counted);
        }
        let n = self.cand.len();
        let mut c: usize = 0;
        while c < n
            invariant
                c <= n,
                n == self.cand@.len(),
                n == start.len(),
                self.votes@ == votes,
                self.revoked@ == then_revoked,
                self.is == old(self).is,
                self.total_willing_candidates == old(self).total_willing_candidates,
                counted(
                    votes,
                    then_revoked,
                    start,
                    old(self).total_willing_candidates as int,
                    old(self).best,
                ),
                now_revoked == then_revoked.insert(projected_winner as int),
                forall|d: int|
                    0 <= d < n ==> (#[trigger] start[d]).vote < votes.len()
                        && start[d].is_willing_candidate
                        == votes[start[d].vote as int].willing_candidate,
                forall|d: int|
                    0 <= d < n ==> (#[trigger] self.cand@[d]).vote == start[d].vote
                        && self.cand@[d].is_willing_candidate == start[d].is_willing_candidate,
                forall|d: int| c <= d < n ==> (#[trigger] self.cand@[d]) == start[d],
                forall|d: int|
                    0 <= d < c ==> fresh(votes, self.cand@, d) && (#[trigger] self.cand@[d]).vote_for
                        == (if start[d].vote == projected_winner {
                        None
                    } else {
                        start[d].vote_for
                    }),
            decreases n - c,
        {
            let number_of_votes = self.votes[self.cand[c].vote].number_of_votes;
            self.cand[c].next_by_total_indirect_votes = None;
            self.cand[c].total_indirect_votes = number_of_votes;
            self.cand[c].voted_for_me = None;
            self.cand[c].voting_for_same = None;
            if self.cand[c].vote == projected_winner {
                self.cand[c].vote_for = None;
            }
            proof {
                assert forall|d: int| 0 <= d < c + 1 implies fresh(votes, self.cand@, d) by {
                    if d < c {
                        assert(fresh(votes, self.cand@, d)) by {
                            assert(self.cand@[d].vote == start[d].vote);
                        }
                    }
                }
            }
            c += 1;
        }
        self.best = None;
        proof {
            reveal(counted);
            self.revoked = Ghost(now_revoked);
            let reset = self.cand@;
            assert(vote_order(reset) =~= vote_order(start));
            assert(uncounted(votes, now_revoked, reset)) by {
                assert forall|d: int| 0 <= d < reset.len() implies fresh(votes, reset, d) && (
                if now_revoked.contains((#[trigger] reset[d]).vote as int) {
                    reset[d].vote_for is None
                } else {
                    resolved(votes, reset, d)
                }) by {
                    assert(reset[d].vote == start[d].vote);
                    if !now_revoked.contains(reset[d].vote as int) {
                        assert(resolved(votes, start, d));
                        assert(reset[d].vote_for == start[d].vote_for);
                        assert forall|j: int| 0 <= j < reset.len() implies names(
                            votes,
                            reset,
                            d,
                            j,
                        ) == names(votes, start, d, j) by {
                            assert(reset[j].vote == start[j].vote);
                        }
                        match reset[d].vote_for {
                            Some(j) => {
                                assert(names(votes, start, d, j as int));
                            },
                            None => {
                                assert forall|j: int| 0 <= j < reset.len() implies !names(
                                    votes,
                                    reset,
                                    d,
                                    j,
                                ) by {
                                    assert(!names(votes, start, d, j));
                                }
                            },
                        }
                    } else if then_revoked.contains(reset[d].vote as int) {
                        assert(start[d].vote_for is None);
                    }
                }
            }
        }
        self.compute_delegated_votes();
    }

    /// The ranking: for each willing candidate, from the one with the most
    /// to the one with the fewest, the number of votes that they would
    /// receive with all possible delegations, and the place of their vote
    /// in the ballot.
    pub fn iter(&self) -> (rows: Vec<(u64, usize)>)
        requires
            self.wf(),
        ensures
            rows@ == self.rows(),
            rows@.len() == self.willing(),
            forall|i: int|
                0 <= i < rows@.len() ==> (#[trigger] rows@[i]).1 < self.ballot().len()
                    && self.ballot()[rows@[i].1 as int].willing_candidate,
            forall|i: int, j: int|
                0 <= i < j < rows@.len() ==> (#[trigger] rows@[i]).0 >= (#[trigger] rows@[j]).0,
    {
        let ghost cands = self.cand@;
        let ghost k = self.total_willing_candidates as int;
        let ghost order = ranking(cands, k);
        proof {
            lemma_counted_ready(self.votes@, self.revoked@, cands, k, self.best);
        }
        let mut rows: Vec<(u64, usize)> = Vec::new();
        let mut next = self.best;
        while next.is_some()
            invariant
                cands == self.cand@,
                k == self.total_willing_candidates,
                order == ranking(cands, k),
                rank_threaded(cands, k),
                0 <= rows@.len() <= k,
                link(next) == (if rows@.len() < k {
                    Some(order[rows@.len() as int])
                } else {
                    None
                }),
                forall|i: int|
                    0 <= i < rows@.len() ==> rows@[i] == (
                        cands[order[i]].total_indirect_votes,
                        cands[order[i]].vote,
                    ),
            decreases k - rows@.len(),
        {
            let idx = next.unwrap();
            assert(0 <= order[rows@.len() as int] < k);
            let cand = &self.cand[idx];
            next = cand.next_by_total_indirect_votes;
            rows.push((cand.total_indirect_votes, cand.vote));
        }
        assert(rows@ =~= self.rows());
        proof {
            lemma_rows_ranked(self.votes@, self.revoked@, cands, k, self.best);
        }
        rows
    }

    /// The sink of the events, with what it has recorded.
    pub fn introspector(&self) -> (is: &Introspector)
        ensures
            *is == self.sink(),
    {
        &self.is
    }

    /// Hands out the events recorded so far and starts a new record. The
    /// count stays as it is.
    pub fn take_events(&mut self) -> (log: Vec<Event>)
        ensures
            log@ == old(self).sink().recorded(),
            final(self).sink().recorded() == Seq::<Event>::empty(),
            final(self).sink().subscriptions() == old(self).sink().subscriptions(),
            final(self).ballot() == old(self).ballot(),
            final(self).revoked() == old(self).revoked(),
            final(self).table() == old(self).table(),
            final(self).willing() == old(self).willing(),
            final(self).leader() == old(self).leader(),
    {
        self.is.take_events()
    }
}


/// The ballot `votes`, counted with nothing revoked, elects `winner`.
pub open spec fn ballot_elects(votes: Seq<Vote>, winner: Option<usize>) -> bool {
    exists|cands: Seq<Candidate>, k: int, best: Option<usize>| #[trigger]
        counted(votes, Set::<int>::empty(), cands, k, best) && elects(
            votes,
            cands,
            k,
            best,
            winner,
        )
}

/// The name of the winner of the ballot, or the empty name where nobody
/// wins.
pub open spec fn winner_name(votes: Seq<Vote>, winner: Option<usize>) -> Seq<char> {
    match winner {
        Some(w) => votes[w as int].voter_id@,
        None => Seq::empty(),
    }
}

/// Counts the ballot and returns the ID of the voter who wins, or the
/// empty string where no candidate is willing.
pub fn compute_winner(votes: &[Vote]) -> (name: String)
    requires
        ballot_weight(votes@, votes@.len() as int) <= u64::MAX,
    ensures
        exists|winner: Option<usize>| #[trigger]
            ballot_elects(votes@, winner) && name@ == winner_name(votes@, winner),
{
    let mut vc = VoteCounter::new(votes, Introspector::new());
    let ghost cands = vc.table();
    let ghost k = vc.willing();
    let ghost best = vc.leader();
    let winner = vc.find_winner();
    proof {
        assert(counted(votes@, Set::<int>::empty(), cands, k, best));
        assert(ballot_elects(votes@, winner));
    }
    match winner {
        Some(w) => votes[w].voter_id.clone(),
        None => String::new(),
    }
}

} // verus!
