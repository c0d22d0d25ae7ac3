use vstd::prelude::*;
use crate::types::Vote;
use crate::candidate::{Candidate, link, targets, vote_order};
use crate::introspector::{EventView, InvalidVoteCause};
use crate::builder::{
    accepted_in_pass,
    accepted_order,
    builder_events,
    discarded_in_pass,
    is_accepted,
    lemma_accepted_distinct,
    lemma_pass_members,
    names,
    outranks,
    resolved,
};
use crate::counter::{
    counted,
    elects,
    elects_by,
    elects_vote,
    finalists,
    lemma_counted_ready,
    lemma_rows_ranked,
    lemma_willing_first,
    ranking_rows,
};
use crate::delegation::{
    hop,
    reaches,
    weights,
};
use crate::patron::{
    is_potential_patron,
    patron_of,
    patron_search,
    potential_patron,
    runner_up,
    valid_patron,
};
use crate::ranking::{
    beats,
    is_ranking,
    lemma_ranking_unique,
    ranked,
    ranking,
};
use crate::ring::{is_best_list, is_ring_best, ring_members, top_set};
use crate::tie_break::{earlier, tie_hashes};

verus! {

/// The ranking holds every willing candidate once and nobody else, and
/// nobody in it comes before a candidate with more indirect votes.
pub proof fn law_ranking_sorted(
    votes: Seq<Vote>,
    revoked: Set<int>,
    cands: Seq<Candidate>,
    k: int,
    best: Option<usize>,
)
    requires
        counted(votes, revoked, cands, k, best),
    ensures
        ranking_rows(cands, k).len() == k,
        k <= cands.len(),
        forall|i: int|
            0 <= i < k ==> (#[trigger] ranking_rows(cands, k)[i]).1 < votes.len() && votes[ranking_rows(
                cands,
                k,
            )[i].1 as int].willing_candidate,
        forall|i: int, j: int|
            0 <= i < j < k ==> (#[trigger] ranking_rows(cands, k)[i]).0 >= (#[trigger] ranking_rows(
                cands,
                k,
            )[j]).0,
{
    lemma_rows_ranked(votes, revoked, cands, k, best);
}

/// Revoking delegations changes nothing about who is a candidate: two
/// counts of one ballot have the same candidates in the same order, and
/// as many willing ones, whatever was revoked.
pub proof fn law_candidates_kept(
    votes: Seq<Vote>,
    revoked: Set<int>,
    cands: Seq<Candidate>,
    k: int,
    best: Option<usize>,
    later_revoked: Set<int>,
    later_cands: Seq<Candidate>,
    later_k: int,
    later_best: Option<usize>,
)
    requires
        counted(votes, revoked, cands, k, best),
        counted(votes, later_revoked, later_cands, later_k, later_best),
    ensures
        later_k == k,
        later_cands.len() == cands.len(),
        forall|c: int|
            0 <= c < cands.len() ==> (#[trigger] later_cands[c]).vote == cands[c].vote
                && later_cands[c].is_willing_candidate == cands[c].is_willing_candidate,
{
    reveal(counted);
    assert(vote_order(cands).len() == cands.len());
    assert(vote_order(later_cands).len() == later_cands.len());
    assert forall|c: int| 0 <= c < cands.len() implies (#[trigger] later_cands[c]).vote
        == cands[c].vote && later_cands[c].is_willing_candidate
        == cands[c].is_willing_candidate by {
        assert(vote_order(cands)[c] == cands[c].vote);
        assert(vote_order(later_cands)[c] == later_cands[c].vote);
    }
}

/// A candidate whose vote names nobody, or names themselves, delegates to
/// nobody: their votes reach no other candidate, and so count in no total
/// but their own.
pub proof fn law_no_vote_no_delegation(
    votes: Seq<Vote>,
    revoked: Set<int>,
    cands: Seq<Candidate>,
    k: int,
    best: Option<usize>,
    c: int,
    x: int,
)
    requires
        counted(votes, revoked, cands, k, best),
        0 <= c < cands.len(),
        votes[cands[c].vote as int].abstains() || votes[cands[c].vote as int].votes_for_self(),
        x != c,
    ensures
        cands[c].vote_for is None,
        !reaches(targets(cands), c, x),
{
    reveal(counted);
    let t = targets(cands);
    match cands[c].vote_for {
        Some(j) => {
            assert(resolved(votes, cands, c));
            assert(names(votes, cands, c, j as int));
        },
        None => {},
    }
    assert(t[c] is None);
    assert forall|steps: nat| hop(t, c, steps) != Some(x) by {
        lemma_stays(t, c, steps);
    }
}

proof fn lemma_stays(t: Seq<Option<int>>, c: int, steps: nat)
    requires
        0 <= c < t.len(),
        t[c] is None,
    ensures
        hop(t, c, steps) == (if steps == 0 {
            Some(c)
        } else {
            None
        }),
    decreases steps,
{
    if steps > 0 {
        lemma_stays(t, c, (steps - 1) as nat);
    }
}

/// Where the votes of one voter are all as willing as each other, the
/// first of them is the one that is accepted: a vote becomes a candidate
/// if and only if no earlier vote is by the same voter.
pub proof fn law_first_occurrence(votes: Seq<Vote>, i: int)
    requires
        0 <= i < votes.len(),
        forall|a: int, b: int|
            0 <= a < votes.len() && 0 <= b < votes.len() && votes[a].voter_id@ == votes[b].voter_id@
                ==> votes[a].willing_candidate == votes[b].willing_candidate,
    ensures
        is_accepted(votes, i) <==> (forall|j: int|
            0 <= j < i ==> votes[j].voter_id@ != votes[i].voter_id@),
{
    if is_accepted(votes, i) {
        assert forall|j: int| 0 <= j < i implies votes[j].voter_id@ != votes[i].voter_id@ by {
            assert(!outranks(votes, j, i));
        }
    }
    if forall|j: int| 0 <= j < i ==> votes[j].voter_id@ != votes[i].voter_id@ {
        assert forall|j: int| 0 <= j < votes.len() implies !outranks(votes, j, i) by {}
    }
}

/// Every candidate of a counted table stands for an accepted vote, and no
/// two for votes of one voter: a vote that was discarded is no candidate
/// and holds no score.
pub proof fn law_candidates_accepted(
    votes: Seq<Vote>,
    revoked: Set<int>,
    cands: Seq<Candidate>,
    k: int,
    best: Option<usize>,
    c: int,
    d: int,
)
    requires
        counted(votes, revoked, cands, k, best),
        0 <= c < cands.len(),
        0 <= d < cands.len(),
        c != d,
    ensures
        is_accepted(votes, cands[c].vote as int),
        cands[c].vote != cands[d].vote,
        votes[cands[c].vote as int].voter_id@ != votes[cands[d].vote as int].voter_id@,
{
    reveal(counted);
    lemma_willing_first(votes, cands, c);
    lemma_willing_first(votes, cands, d);
    lemma_table_distinct(votes, cands, c, d);
    lemma_accepted_distinct(votes, cands[c].vote as int, cands[d].vote as int);
}

/// A pass takes up the votes in ballot order.
proof fn lemma_pass_ascends(votes: Seq<Vote>, willing: bool, upto: int)
    requires
        0 <= upto <= votes.len(),
    ensures
        forall|a: int, b: int|
            0 <= a < b < accepted_in_pass(votes, willing, upto).len() ==> (
            #[trigger] accepted_in_pass(votes, willing, upto)[a]) < (#[trigger] accepted_in_pass(
                votes,
                willing,
                upto,
            )[b]),
        forall|a: int|
            0 <= a < accepted_in_pass(votes, willing, upto).len() ==> 0 <= (
            #[trigger] accepted_in_pass(votes, willing, upto)[a]) < upto,
    decreases upto,
{
    if upto > 0 {
        lemma_pass_ascends(votes, willing, upto - 1);
        let rest = accepted_in_pass(votes, willing, upto - 1);
        let now = accepted_in_pass(votes, willing, upto);
        assert forall|a: int| 0 <= a < now.len() implies 0 <= (#[trigger] now[a]) < upto by {
            if a < rest.len() {
                assert(now[a] == rest[a]);
            }
        }
        assert forall|a: int, b: int| 0 <= a < b < now.len() implies (#[trigger] now[a]) < (
        #[trigger] now[b]) by {
            assert(now[a] == rest[a]);
            if b < rest.len() {
                assert(now[b] == rest[b]);
            }
        }
    }
}

/// No vote is in the table twice.
proof fn lemma_table_distinct(votes: Seq<Vote>, cands: Seq<Candidate>, c: int, d: int)
    requires
        vote_order(cands) == accepted_order(votes),
        0 <= c < cands.len(),
        0 <= d < cands.len(),
        c != d,
    ensures
        cands[c].vote != cands[d].vote,
{
    let n = votes.len() as int;
    let first = accepted_in_pass(votes, true, n);
    let second = accepted_in_pass(votes, false, n);
    lemma_pass_ascends(votes, true, n);
    lemma_pass_ascends(votes, false, n);
    lemma_pass_members(votes, true, n);
    lemma_pass_members(votes, false, n);
    assert(vote_order(cands).len() == cands.len());
    assert((first + second).len() == first.len() + second.len());
    assert(vote_order(cands)[c] == cands[c].vote);
    assert(vote_order(cands)[d] == cands[d].vote);
    let place = |e: int| if e < first.len() { first[e] } else { second[e - first.len()] };
    assert(cands[c].vote == place(c));
    assert(cands[d].vote == place(d));
    if c < first.len() && d < first.len() {
        if c < d {
            assert(first[c] < first[d]);
        } else {
            assert(first[d] < first[c]);
        }
    } else if c >= first.len() && d >= first.len() {
        if c < d {
            assert(second[c - first.len()] < second[d - first.len()]);
        } else {
            assert(second[d - first.len()] < second[c - first.len()]);
        }
    } else if c < first.len() {
        assert(first.contains(first[c]));
        assert(second.contains(second[d - first.len()]));
    } else {
        assert(first.contains(first[d]));
        assert(second.contains(second[c - first.len()]));
    }
}


/// Whom the search for a patron finds is the one it had found before, or a
/// willing candidate.
proof fn lemma_patron_willing(
    cands: Seq<Candidate>,
    order: Seq<int>,
    ring: Seq<bool>,
    first: int,
    w: int,
    ru: Option<int>,
    found: Option<int>,
    fuel: nat,
)
    ensures
        patron_search(cands, order, ring, first, w, ru, found, fuel) matches Some(p) ==> Some(p)
            == found || (0 <= p < cands.len() && cands[p].is_willing_candidate),
    decreases fuel,
{
    reveal(patron_search);
    if fuel > 0 {
        match potential_patron(cands, ring, w) {
            Some(p) => {
                let next_ru = if ru == Some(p) {
                    runner_up(order, ring, p)
                } else {
                    ru
                };
                assert(is_potential_patron(cands, ring, w, p));
                if valid_patron(cands, first, p, next_ru) {
                    lemma_patron_willing(
                        cands,
                        order,
                        ring,
                        first,
                        p,
                        next_ru,
                        Some(p),
                        (fuel - 1) as nat,
                    );
                }
            },
            None => {},
        }
    }
}

/// Those among whom the tie breaker picks are willing candidates.
proof fn lemma_finalists_willing(
    votes: Seq<Vote>,
    revoked: Set<int>,
    cands: Seq<Candidate>,
    k: int,
    best: usize,
    tenative: Seq<usize>,
    place: int,
)
    requires
        counted(votes, revoked, cands, k, Some(best)),
        is_best_list(votes, cands, top_set(cands, k, best as int), tenative),
        0 <= place < finalists(cands, k, top_set(cands, k, best as int), tenative).len(),
    ensures
        finalists(cands, k, top_set(cands, k, best as int), tenative)[place] < k,
{
    let ring = top_set(cands, k, best as int);
    let last = finalists(cands, k, ring, tenative);
    lemma_counted_ready(votes, revoked, cands, k, Some(best));
    assert forall|i: int| 0 <= i < tenative.len() implies (#[trigger] tenative[i]) < k by {
        assert(is_ring_best(votes, cands, ring, tenative[i] as int));
    }
    if ring_members(cands, ring).len() < 2 && tenative.len() == 1 {
        let order = ranking(cands, k);
        let w = tenative[0] as int;
        lemma_patron_willing(
            cands,
            order,
            ring,
            w,
            w,
            runner_up(order, ring, w),
            None,
            cands.len(),
        );
        match patron_of(cands, k, ring, w) {
            Some(p) => {
                reveal(counted);
                lemma_willing_first(votes, cands, p);
                assert(cands[p].is_willing_candidate == votes[cands[p].vote as int].willing_candidate);
                assert(last[0] == p as usize);
            },
            None => {},
        }
    }
}

/// The winner stays in the ranking when delegations are revoked: in every
/// count of the ballot the winning vote has a row, and no row before it
/// has a smaller score. So after the winner's own delegation is revoked,
/// nobody with fewer votes than the winner is ranked before them.
pub proof fn law_winner_stays_ranked(
    votes: Seq<Vote>,
    revoked: Set<int>,
    cands: Seq<Candidate>,
    k: int,
    best: Option<usize>,
    winner: usize,
    later_revoked: Set<int>,
    later_cands: Seq<Candidate>,
    later_k: int,
    later_best: Option<usize>,
)
    requires
        counted(votes, revoked, cands, k, best),
        elects(votes, cands, k, best, Some(winner)),
        counted(votes, later_revoked, later_cands, later_k, later_best),
    ensures
        exists|i: int|
            0 <= i < ranking_rows(later_cands, later_k).len() && (#[trigger] ranking_rows(
                later_cands,
                later_k,
            )[i]).1 == winner && forall|j: int|
                0 <= j < i ==> ranking_rows(later_cands, later_k)[j].0 >= ranking_rows(
                    later_cands,
                    later_k,
                )[i].0,
{
    let b = best->0;
    let ring = top_set(cands, k, b as int);
    assert(elects_vote(votes, cands, k, b as int, winner));
    let (tenative, place) = choose|tenative: Seq<usize>, place: int| #[trigger]
        elects_by(votes, cands, k, ring, tenative, place, winner);
    let last = finalists(cands, k, ring, tenative);
    lemma_finalists_willing(votes, revoked, cands, k, b, tenative, place);
    let f = last[place] as int;
    law_candidates_kept(
        votes,
        revoked,
        cands,
        k,
        best,
        later_revoked,
        later_cands,
        later_k,
        later_best,
    );
    lemma_counted_ready(votes, revoked, cands, k, best);
    lemma_counted_ready(votes, later_revoked, later_cands, later_k, later_best);
    let order = ranking(later_cands, later_k);
    let rows = ranking_rows(later_cands, later_k);
    assert(order.contains(f));
    let i = choose|i: int| 0 <= i < order.len() && order[i] == f;
    assert(rows[i].1 == winner);
    assert forall|j: int| 0 <= j < i implies rows[j].0 >= rows[i].0 by {
        assert(beats(later_cands, order[j], order[i]));
    }
}

/// Two lists of the best of one ring are the same list.
proof fn lemma_best_list_prefix(
    votes: Seq<Vote>,
    cands: Seq<Candidate>,
    ring: Seq<bool>,
    a: Seq<usize>,
    b: Seq<usize>,
    upto: int,
)
    requires
        is_best_list(votes, cands, ring, a),
        is_best_list(votes, cands, ring, b),
        0 <= upto <= a.len(),
    ensures
        upto <= b.len(),
        forall|i: int| 0 <= i < upto ==> a[i] == b[i],
    decreases upto,
{
    if upto > 0 {
        lemma_best_list_prefix(votes, cands, ring, a, b, upto - 1);
        let i = upto - 1;
        let x = a[i];
        assert(is_ring_best(votes, cands, ring, x as int));
        let j = choose|j: int| 0 <= j < b.len() && b[j] == x as int;
        if j < i {
            assert(a[j] == b[j]);
            assert(a[j] < a[i]);
        } else if j > i {
            let y = b[i];
            assert(is_ring_best(votes, cands, ring, y as int));
            let m = choose|m: int| 0 <= m < a.len() && a[m] == y as int;
            if m < i {
                assert(a[m] == b[m]);
                assert(b[m] < b[i]);
            } else if m > i {
                assert(b[i] < b[j]);
                assert(a[i] < a[m]);
            }
        }
    }
}

proof fn lemma_best_list_unique(
    votes: Seq<Vote>,
    cands: Seq<Candidate>,
    ring: Seq<bool>,
    a: Seq<usize>,
    b: Seq<usize>,
)
    requires
        is_best_list(votes, cands, ring, a),
        is_best_list(votes, cands, ring, b),
    ensures
        a == b,
{
    lemma_best_list_prefix(votes, cands, ring, a, b, a.len() as int);
    lemma_best_list_prefix(votes, cands, ring, b, a, b.len() as int);
    assert(a =~= b);
}

/// One ballot with the same delegations revoked has one count only.
pub proof fn lemma_count_unique(
    votes: Seq<Vote>,
    revoked: Set<int>,
    cands: Seq<Candidate>,
    k: int,
    best: Option<usize>,
    other_cands: Seq<Candidate>,
    other_k: int,
    other_best: Option<usize>,
)
    requires
        counted(votes, revoked, cands, k, best),
        counted(votes, revoked, other_cands, other_k, other_best),
    ensures
        other_cands == cands,
        other_k == k,
        other_best == best,
{
    law_candidates_kept(votes, revoked, cands, k, best, revoked, other_cands, other_k, other_best);
    lemma_counted_ready(votes, revoked, cands, k, best);
    lemma_counted_ready(votes, revoked, other_cands, other_k, other_best);
    let n = cands.len() as int;
    assert forall|c: int| 0 <= c < n implies (#[trigger] other_cands[c]).vote_for
        == cands[c].vote_for by {
        reveal(counted);
        assert forall|j: int| 0 <= j < n implies names(votes, cands, c, j) == names(
            votes,
            other_cands,
            c,
            j,
        ) by {
            assert(other_cands[j].vote == cands[j].vote);
        }
        if !revoked.contains(cands[c].vote as int) {
            assert(resolved(votes, cands, c));
            assert(resolved(votes, other_cands, c));
            match (cands[c].vote_for, other_cands[c].vote_for) {
                (Some(a), Some(b)) => {
                    assert(names(votes, cands, c, a as int));
                    assert(names(votes, other_cands, c, b as int));
                    if a != b {
                        law_candidates_accepted(votes, revoked, cands, k, best, a as int, b as int);
                        assert(other_cands[b as int].vote == cands[b as int].vote);
                    }
                },
                (Some(a), None) => {
                    assert(names(votes, cands, c, a as int));
                    assert(!names(votes, other_cands, c, a as int));
                },
                (None, Some(b)) => {
                    assert(names(votes, other_cands, c, b as int));
                    assert(!names(votes, cands, c, b as int));
                },
                (None, None) => {},
            }
        }
    }
    assert(targets(other_cands) =~= targets(cands));
    assert(weights(votes, other_cands) =~= weights(votes, cands));
    assert forall|c: int| 0 <= c < n implies (#[trigger] other_cands[c]).total_indirect_votes
        == cands[c].total_indirect_votes && other_cands[c].voted_for_me == cands[c].voted_for_me
        && other_cands[c].voting_for_same == cands[c].voting_for_same by {
        reveal(counted);
        assert(link(other_cands[c].voted_for_me) == link(cands[c].voted_for_me));
        assert(link(other_cands[c].voting_for_same) == link(cands[c].voting_for_same));
    }
    let order = ranking(cands, k);
    assert(is_ranking(other_cands, k, order)) by {
        assert forall|i: int, j: int| 0 <= i < j < k implies beats(
            other_cands,
            #[trigger] order[i],
            #[trigger] order[j],
        ) by {
            assert(beats(cands, order[i], order[j]));
        }
    }
    lemma_ranking_unique(other_cands, k, order, ranking(other_cands, k));
    assert forall|c: int| 0 <= c < n implies (#[trigger] other_cands[c]).next_by_total_indirect_votes
        == cands[c].next_by_total_indirect_votes by {
        reveal(counted);
        if c < k {
            assert(order.contains(c));
            let i = choose|i: int| 0 <= i < order.len() && order[i] == c;
            assert(link(cands[order[i]].next_by_total_indirect_votes) == link(
                other_cands[order[i]].next_by_total_indirect_votes,
            ));
        }
    }
    assert(link(other_best) == link(best));
    assert forall|c: int| 0 <= c < n implies other_cands[c] == cands[c] by {}
    assert(other_cands =~= cands);
}

/// The winner depends on the ballot and on what was revoked, on nothing
/// else: two counts of one ballot with the same delegations revoked elect
/// the same vote, whoever listens to the events.
pub proof fn law_same_winner(
    votes: Seq<Vote>,
    revoked: Set<int>,
    cands: Seq<Candidate>,
    k: int,
    best: Option<usize>,
    winner: Option<usize>,
    other_cands: Seq<Candidate>,
    other_k: int,
    other_best: Option<usize>,
    other_winner: Option<usize>,
)
    requires
        counted(votes, revoked, cands, k, best),
        elects(votes, cands, k, best, winner),
        counted(votes, revoked, other_cands, other_k, other_best),
        elects(votes, other_cands, other_k, other_best, other_winner),
    ensures
        other_winner == winner,
{
    lemma_count_unique(votes, revoked, cands, k, best, other_cands, other_k, other_best);
    match best {
        None => {},
        Some(b) => {
            let ring = top_set(cands, k, b as int);
            let w = winner->0;
            let v = other_winner->0;
            assert(elects_vote(votes, cands, k, b as int, w));
            assert(elects_vote(votes, cands, k, b as int, v));
            let (list_a, place_a) = choose|tenative: Seq<usize>, place: int| #[trigger]
                elects_by(votes, cands, k, ring, tenative, place, w);
            let (list_b, place_b) = choose|tenative: Seq<usize>, place: int| #[trigger]
                elects_by(votes, cands, k, ring, tenative, place, v);
            lemma_best_list_unique(votes, cands, ring, list_a, list_b);
            let hashes = tie_hashes(votes, cands, finalists(cands, k, ring, list_a));
            if place_a != place_b {
                assert(earlier(hashes, place_a, place_b));
                assert(earlier(hashes, place_b, place_a));
            }
        },
    }
}


/// The vote that is elected is a vote of the ballot, by a willing voter.
pub proof fn lemma_elected_in_ballot(
    votes: Seq<Vote>,
    cands: Seq<Candidate>,
    k: int,
    best: Option<usize>,
    winner: usize,
)
    requires
        exists|revoked: Set<int>| counted(votes, revoked, cands, k, best),
        elects(votes, cands, k, best, Some(winner)),
    ensures
        winner < votes.len(),
        votes[winner as int].willing_candidate,
{
    let revoked = choose|revoked: Set<int>| counted(votes, revoked, cands, k, best);
    let b = best->0;
    let ring = top_set(cands, k, b as int);
    assert(elects_vote(votes, cands, k, b as int, winner));
    let (tenative, place) = choose|tenative: Seq<usize>, place: int| #[trigger]
        elects_by(votes, cands, k, ring, tenative, place, winner);
    lemma_finalists_willing(votes, revoked, cands, k, b, tenative, place);
    let f = finalists(cands, k, ring, tenative)[place] as int;
    lemma_counted_ready(votes, revoked, cands, k, best);
    reveal(counted);
    lemma_willing_first(votes, cands, f);
}


/// A vote that is discarded is published as a duplicate: building the
/// table publishes for each vote that is not accepted that it is one.
pub proof fn law_discarded_published(votes: Seq<Vote>, i: int)
    requires
        0 <= i < votes.len(),
        !is_accepted(votes, i),
    ensures
        builder_events(votes).contains(
            EventView::InvalidVote { cause: InvalidVoteCause::Duplicate, vote: i as usize },
        ),
{
    let n = votes.len() as int;
    let event = EventView::InvalidVote { cause: InvalidVoteCause::Duplicate, vote: i as usize };
    let willing = votes[i].willing_candidate;
    lemma_discarded_in_pass(votes, willing, n, i);
    let first = discarded_in_pass(votes, true, n);
    let second = discarded_in_pass(votes, false, n);
    let all = builder_events(votes);
    if willing {
        let at = choose|at: int| 0 <= at < first.len() && first[at] == event;
        assert(all[at] == event);
    } else {
        let at = choose|at: int| 0 <= at < second.len() && second[at] == event;
        assert(all[first.len() + at] == event);
    }
}

proof fn lemma_discarded_in_pass(votes: Seq<Vote>, willing: bool, upto: int, i: int)
    requires
        0 <= i < upto <= votes.len(),
        votes[i].willing_candidate == willing,
        !is_accepted(votes, i),
    ensures
        discarded_in_pass(votes, willing, upto).contains(
            EventView::InvalidVote { cause: InvalidVoteCause::Duplicate, vote: i as usize },
        ),
    decreases upto,
{
    let event = EventView::InvalidVote { cause: InvalidVoteCause::Duplicate, vote: i as usize };
    let now = discarded_in_pass(votes, willing, upto);
    if i == upto - 1 {
        assert(now[now.len() - 1] == event);
    } else {
        lemma_discarded_in_pass(votes, willing, upto - 1, i);
        let rest = discarded_in_pass(votes, willing, upto - 1);
        let at = choose|at: int| 0 <= at < rest.len() && rest[at] == event;
        assert(now[at] == event);
    }
}

} // verus!
