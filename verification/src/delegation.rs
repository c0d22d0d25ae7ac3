use vstd::prelude::*;
use crate::types::Vote;
use crate::candidate::{Candidate, link, targets, targets_in_table, weight};
use crate::introspector::{
    Event,
    EventKind,
    EventView,
    Introspector,
    VoteDelegation,
    VoteDelegationRing,
    lemma_heard_more,
    lemma_heard_nothing,
    lemma_unheard,
};

verus! {

/// Where the vote of `u` stands after `k` steps of delegation, if the chain
/// is that long.
pub open spec fn hop(t: Seq<Option<int>>, u: int, k: nat) -> Option<int>
    decreases k,
{
    if k == 0 {
        Some(u)
    } else {
        match hop(t, u, (k - 1) as nat) {
            Some(m) => t[m],
            None => None,
        }
    }
}

/// The vote of `u` comes to `x` by delegation. Everybody reaches themselves.
pub open spec fn reaches(t: Seq<Option<int>>, u: int, x: int) -> bool {
    exists|k: nat| hop(t, u, k) == Some(x)
}

/// The votes of each candidate of the table.
pub open spec fn weights(votes: Seq<Vote>, cands: Seq<Candidate>) -> Seq<nat> {
    Seq::new(cands.len(), |c: int| weight(votes, cands, c))
}

/// The votes held by the first `upto` candidates together.
pub open spec fn weight_sum(w: Seq<nat>, upto: int) -> nat
    decreases upto,
{
    if upto <= 0 {
        0
    } else {
        weight_sum(w, upto - 1) + w[upto - 1]
    }
}

/// The votes that `x` has from the first `upto` candidates: the sum of the
/// votes of those among them that reach `x`.
pub open spec fn credit(w: Seq<nat>, t: Seq<Option<int>>, x: int, upto: int) -> nat
    decreases upto,
{
    if upto <= 0 {
        0
    } else {
        credit(w, t, x, upto - 1) + if reaches(t, upto - 1, x) {
            w[upto - 1]
        } else {
            0
        }
    }
}

/// The total of indirect votes of `x`: the votes of everybody who reaches
/// `x`, themselves included.
pub open spec fn delegated_total(w: Seq<nat>, t: Seq<Option<int>>, x: int) -> nat {
    credit(w, t, x, t.len() as int)
}

/// The last of the first `m` candidates who delegates to `x`, if any does.
pub open spec fn last_voter_before(t: Seq<Option<int>>, x: int, m: int) -> Option<int>
    decreases m,
{
    if m <= 0 {
        None
    } else if t[m - 1] == Some(x) {
        Some(m - 1)
    } else {
        last_voter_before(t, x, m - 1)
    }
}

/// The candidate before `u` in the list of those who delegate to the same
/// candidate as `u`.
pub open spec fn previous_with_same_target(t: Seq<Option<int>>, u: int) -> Option<int> {
    match t[u] {
        Some(x) => last_voter_before(t, x, u),
        None => None,
    }
}

/// The lists of voters are complete: each candidate points at the last
/// candidate who delegates to them, and each of those at the one before.
pub open spec fn in_lists_linked(cands: Seq<Candidate>) -> bool {
    forall|c: int|
        0 <= c < cands.len() ==> {
            &&& link((#[trigger] cands[c]).voted_for_me) == last_voter_before(
                targets(cands),
                c,
                cands.len() as int,
            )
            &&& link(cands[c].voting_for_same) == previous_with_same_target(targets(cands), c)
        }
}

/// Every candidate holds the total of their indirect votes.
pub open spec fn totals_delegated(votes: Seq<Vote>, cands: Seq<Candidate>) -> bool {
    forall|c: int|
        0 <= c < cands.len() ==> (#[trigger] cands[c]).total_indirect_votes == delegated_total(
            weights(votes, cands),
            targets(cands),
            c,
        )
}

/// The two tables stand for the same votes with the same delegations.
pub open spec fn same_ballot(a: Seq<Candidate>, b: Seq<Candidate>) -> bool {
    &&& a.len() == b.len()
    &&& forall|c: int|
        0 <= c < a.len() ==> {
            &&& (#[trigger] a[c]).vote == b[c].vote
            &&& a[c].vote_for == b[c].vote_for
            &&& a[c].is_willing_candidate == b[c].is_willing_candidate
        }
}

/// No candidate is in a list of voters, and each holds their own votes only.
pub open spec fn undelegated(votes: Seq<Vote>, cands: Seq<Candidate>) -> bool {
    forall|c: int|
        0 <= c < cands.len() ==> {
            &&& (#[trigger] cands[c]).vote < votes.len()
            &&& cands[c].total_indirect_votes == votes[cands[c].vote as int].number_of_votes
            &&& cands[c].voting_for_same is None
            &&& cands[c].voted_for_me is None
        }
}

pub proof fn lemma_weight_sum_monotone(w: Seq<nat>, a: int, b: int)
    requires
        a <= b,
    ensures
        weight_sum(w, a) <= weight_sum(w, b),
    decreases b - a,
{
    if a < b {
        lemma_weight_sum_monotone(w, a, b - 1);
    }
}

/// What a candidate has from the first `upto` is no more than these hold.
pub proof fn lemma_credit_bounded(w: Seq<nat>, t: Seq<Option<int>>, x: int, upto: int)
    ensures
        credit(w, t, x, upto) <= weight_sum(w, upto),
    decreases upto,
{
    if upto > 0 {
        lemma_credit_bounded(w, t, x, upto - 1);
    }
}

/// Two candidates from `m` on hold no more than all from `m` on.
proof fn lemma_two_weights(w: Seq<nat>, m: int, a: int, b: int, n: int)
    requires
        0 <= m <= a < b < n,
    ensures
        weight_sum(w, m) + w[a] + w[b] <= weight_sum(w, n),
{
    lemma_weight_sum_monotone(w, m, a);
    lemma_weight_sum_monotone(w, a + 1, b);
    lemma_weight_sum_monotone(w, b + 1, n);
}

proof fn lemma_one_weight(w: Seq<nat>, m: int, a: int, n: int)
    requires
        0 <= m <= a < n,
    ensures
        weight_sum(w, m) + w[a] <= weight_sum(w, n),
{
    lemma_weight_sum_monotone(w, m, a);
    lemma_weight_sum_monotone(w, a + 1, n);
}

/// The last voter before `m` is one of the first `m`, delegates to `x`, and
/// nobody between them and `m` does.
pub proof fn lemma_last_voter(t: Seq<Option<int>>, x: int, m: int)
    requires
        0 <= m <= t.len(),
        0 <= x < t.len(),
    ensures
        match last_voter_before(t, x, m) {
            Some(u) => 0 <= u < m && t[u] == Some(x) && forall|j: int|
                u < j < m ==> t[j] != Some(x),
            None => forall|j: int| 0 <= j < m ==> t[j] != Some(x),
        },
    decreases m,
{
    if m > 0 && t[m - 1] != Some(x) {
        lemma_last_voter(t, x, m - 1);
    }
}

/// A walk along the delegations: it starts at `u`, each step goes to whom
/// the one before delegates to, and nobody is passed twice.
pub open spec fn is_walk(t: Seq<Option<int>>, u: int, path: Seq<usize>) -> bool {
    &&& path.len() >= 1
    &&& path[0] == u
    &&& forall|i: int| 0 <= i < path.len() ==> (#[trigger] path[i]) < t.len()
    &&& forall|i: int|
        0 <= i < path.len() - 1 ==> t[#[trigger] path[i] as int] == Some(path[i + 1] as int)
    &&& path.no_duplicates()
}

/// `x` was stepped onto: it is on the walk after its start.
pub open spec fn stepped_on(path: Seq<usize>, x: int) -> bool {
    exists|i: int| 1 <= i < path.len() && path[i] == x
}

proof fn lemma_walk_hops(t: Seq<Option<int>>, u: int, path: Seq<usize>, i: int)
    requires
        is_walk(t, u, path),
        0 <= i < path.len(),
    ensures
        hop(t, u, i as nat) == Some(path[i] as int),
    decreases i,
{
    if i > 0 {
        lemma_walk_hops(t, u, path, i - 1);
        assert(t[path[i - 1] as int] == Some(path[i - 1 + 1] as int));
    }
}

proof fn lemma_walk_closed(t: Seq<Option<int>>, u: int, path: Seq<usize>, k: nat)
    requires
        is_walk(t, u, path),
        t[path[path.len() - 1] as int] matches Some(c) ==> exists|i: int|
            0 <= i < path.len() && path[i] == c,
    ensures
        hop(t, u, k) matches Some(x) ==> exists|i: int| 0 <= i < path.len() && path[i] == x,
    decreases k,
{
    if k > 0 {
        lemma_walk_closed(t, u, path, (k - 1) as nat);
        match hop(t, u, (k - 1) as nat) {
            Some(m) => {
                let i = choose|i: int| 0 <= i < path.len() && path[i] == m;
                match t[m] {
                    Some(x) => {
                        if i < path.len() - 1 {
                            assert(t[path[i] as int] == Some(path[i + 1] as int));
                            assert(path[i + 1] == x);
                        }
                    },
                    None => {},
                }
            },
            None => {},
        }
    } else {
        assert(path[0] == u);
    }
}

/// A walk that can go no further has stepped on exactly those whom the
/// vote of `u` reaches, `u` left out.
proof fn lemma_walk_complete(t: Seq<Option<int>>, u: int, path: Seq<usize>)
    requires
        is_walk(t, u, path),
        t[path[path.len() - 1] as int] matches Some(c) ==> exists|i: int|
            0 <= i < path.len() && path[i] == c,
    ensures
        forall|x: int| stepped_on(path, x) <==> (x != u && reaches(t, u, x)),
{
    assert forall|x: int| stepped_on(path, x) <==> (x != u && reaches(t, u, x)) by {
        if stepped_on(path, x) {
            let i = choose|i: int| 1 <= i < path.len() && path[i] == x;
            lemma_walk_hops(t, u, path, i);
            assert(path[0] != path[i]);
        }
        if x != u && reaches(t, u, x) {
            let k = choose|k: nat| hop(t, u, k) == Some(x);
            lemma_walk_closed(t, u, path, k);
            let i = choose|i: int| 0 <= i < path.len() && path[i] == x;
            assert(i >= 1);
        }
    }
}

/// Distinct numbers below `n` are at most `n`.
pub proof fn lemma_distinct_bounded(s: Seq<usize>, n: int)
    requires
        s.no_duplicates(),
        forall|i: int| 0 <= i < s.len() ==> (#[trigger] s[i]) < n,
        0 <= n,
    ensures
        s.len() <= n,
    decreases n,
{
    if s.len() > 0 {
        if n == 0 {
            assert(s[0] < 0);
        } else {
            let top = (n - 1) as usize;
            if s.contains(top) {
                let i = choose|i: int| 0 <= i < s.len() && s[i] == top;
                let r = s.remove(i);
                assert forall|j: int| 0 <= j < r.len() implies (#[trigger] r[j]) < n - 1 by {
                    if j < i {
                        assert(r[j] == s[j]);
                    } else {
                        assert(r[j] == s[j + 1]);
                    }
                }
                assert(r.no_duplicates()) by {
                    assert forall|a: int, b: int| 0 <= a < r.len() && 0 <= b < r.len() && a != b implies r[a] != r[b] by {
                        let a2 = if a < i { a } else { a + 1 };
                        let b2 = if b < i { b } else { b + 1 };
                        assert(r[a] == s[a2] && r[b] == s[b2]);
                    }
                }
                lemma_distinct_bounded(r, n - 1);
            } else {
                assert forall|j: int| 0 <= j < s.len() implies (#[trigger] s[j]) < n - 1 by {
                    assert(s.contains(s[j]));
                }
                lemma_distinct_bounded(s, n - 1);
            }
        }
    }
}


/// The totals while the votes of the candidates before `m` have been
/// delegated, and those of `m` to whom `path` has stepped on.
spec fn totals_at(cands: Seq<Candidate>, w: Seq<nat>, t: Seq<Option<int>>, m: int, path: Seq<usize>) -> bool {
    forall|x: int|
        0 <= x < cands.len() ==> (#[trigger] cands[x]).total_indirect_votes == credit(w, t, x, m)
            + (if x >= m {
            w[x]
        } else {
            0
        }) + (if stepped_on(path, x) {
            w[m]
        } else {
            0
        })
}

/// The lists of voters while the candidates before `m` have been entered.
spec fn links_at(cands: Seq<Candidate>, t: Seq<Option<int>>, m: int) -> bool {
    forall|x: int|
        0 <= x < cands.len() ==> {
            &&& link((#[trigger] cands[x]).voted_for_me) == last_voter_before(t, x, m)
            &&& link(cands[x].voting_for_same) == (if x < m {
                previous_with_same_target(t, x)
            } else {
                None
            })
        }
}

/// What delegation leaves as it is: the votes, the delegations, the
/// willingness and the ranking links.
spec fn kept(a: Seq<Candidate>, b: Seq<Candidate>) -> bool {
    &&& same_ballot(a, b)
    &&& forall|c: int|
        0 <= c < a.len() ==> (#[trigger] a[c]).next_by_total_indirect_votes
            == b[c].next_by_total_indirect_votes
}

proof fn lemma_kept_models(votes: Seq<Vote>, a: Seq<Candidate>, b: Seq<Candidate>)
    requires
        kept(a, b),
    ensures
        targets(a) == targets(b),
        weights(votes, a) == weights(votes, b),
{
    assert(targets(a) =~= targets(b));
    assert(weights(votes, a) =~= weights(votes, b));
}

fn path_contains(path: &Vec<usize>, x: usize) -> (found: bool)
    ensures
        found == exists|i: int| 0 <= i < path@.len() && path@[i] == x,
{
    let mut i: usize = 0;
    while i < path.len()
        invariant
            i <= path@.len(),
            forall|j: int| 0 <= j < i ==> path@[j] != x,
        decreases path@.len() - i,
    {
        if path[i] == x {
            return true;
        }
        i += 1;
    }
    false
}

/// The votes of the candidates on `path`.
fn chain_votes(cand: &Vec<Candidate>, path: &Vec<usize>) -> (chain: Vec<usize>)
    requires
        forall|i: int| 0 <= i < path@.len() ==> (#[trigger] path@[i]) < cand@.len(),
    ensures
        chain@.len() == path@.len(),
        forall|i: int| 0 <= i < path@.len() ==> chain@[i] == cand@[path@[i] as int].vote,
{
    let mut chain: Vec<usize> = Vec::new();
    let mut i: usize = 0;
    while i < path.len()
        invariant
            i <= path@.len(),
            chain@.len() == i,
            forall|j: int| 0 <= j < path@.len() ==> (#[trigger] path@[j]) < cand@.len(),
            forall|j: int| 0 <= j < i ==> chain@[j] == cand@[path@[j] as int].vote,
        decreases path@.len() - i,
    {
        chain.push(cand[path[i]].vote);
        i += 1;
    }
    chain
}

/// For each candidate, the place of their vote in the ballot.
pub open spec fn places(cands: Seq<Candidate>) -> Seq<usize> {
    cands.map_values(|c: Candidate| c.vote)
}

/// The walk has passed `c`.
pub open spec fn passed(path: Seq<usize>, c: int) -> bool {
    exists|i: int| 0 <= i < path.len() && path[i] == c
}

/// The votes of the candidates on `path`.
pub open spec fn chain_of(places: Seq<usize>, path: Seq<usize>) -> Seq<usize> {
    path.map_values(|c: usize| places[c as int])
}

/// The events of the walk of the votes of `first` from where it stands,
/// having passed `path` and looking at `cursor`: a delegation for each
/// step, and in the end the ring if the walk runs into one. `fuel` bounds
/// the steps: a walk never takes as many as the table has candidates.
pub open spec fn walk_events(
    places: Seq<usize>,
    t: Seq<Option<int>>,
    first: int,
    path: Seq<usize>,
    cursor: Option<int>,
    fuel: nat,
) -> Seq<EventView>
    decreases fuel,
{
    match cursor {
        None => Seq::empty(),
        Some(c) => if passed(path, c) {
            seq![EventView::VoteDelegationRing { chain: chain_of(places, path), next: places[c] }]
        } else if fuel == 0 {
            Seq::empty()
        } else {
            seq![
                EventView::VoteDelegation {
                    from: places[first],
                    to: places[c],
                    because_of: places[path.last() as int],
                },
            ] + walk_events(places, t, first, path.push(c as usize), t[c], (fuel - 1) as nat)
        },
    }
}

/// The events of delegating the votes of the first `upto` candidates.
pub open spec fn delegation_events(places: Seq<usize>, t: Seq<Option<int>>, upto: int) -> Seq<
    EventView,
>
    decreases upto,
{
    if upto <= 0 {
        Seq::empty()
    } else {
        delegation_events(places, t, upto - 1) + walk_events(
            places,
            t,
            upto - 1,
            seq![(upto - 1) as usize],
            t[upto - 1],
            places.len(),
        )
    }
}

fn publish_delegation(is: &mut Introspector, from: usize, to: usize, because_of: usize)
    ensures
        final(is).has_heard(*old(is), seq![EventView::VoteDelegation { from, to, because_of }]),
{
    if is.is_subscribed(EventKind::VoteDelegation) {
        is.event(Event::VoteDelegation(VoteDelegation { from, to, because_of }));
    } else {
        proof {
            lemma_unheard(*is, EventView::VoteDelegation { from, to, because_of });
        }
    }
}

fn publish_ring(is: &mut Introspector, cand: &Vec<Candidate>, path: &Vec<usize>, next: usize)
    requires
        forall|i: int| 0 <= i < path@.len() ==> (#[trigger] path@[i]) < cand@.len(),
        next < cand@.len(),
    ensures
        final(is).has_heard(
            *old(is),
            seq![
                EventView::VoteDelegationRing {
                    chain: chain_of(places(cand@), path@),
                    next: cand@[next as int].vote,
                },
            ],
        ),
{
    let ghost expected = EventView::VoteDelegationRing {
        chain: chain_of(places(cand@), path@),
        next: cand@[next as int].vote,
    };
    if is.is_subscribed(EventKind::VoteDelegationRing) {
        let chain = chain_votes(cand, path);
        assert(chain@ =~= chain_of(places(cand@), path@));
        let event = Event::VoteDelegationRing(VoteDelegationRing { chain, next: cand[next].vote });
        assert(event@ == expected);
        is.event(event);
    } else {
        proof {
            lemma_unheard(*is, expected);
        }
    }
}

/// Delegates the votes of every candidate along the chain of those whom
/// they and their delegates vote for, up to the first who was already
/// passed: each one on the way is credited with the votes that the
/// candidate holds. Enters every candidate in the list of voters of the one
/// they delegate to. Publishes each delegation and each ring that a chain
/// runs into.
#[verifier::rlimit(40)]
pub fn compute_delegated_votes(votes: &[Vote], cand: &mut Vec<Candidate>, is: &mut Introspector)
    requires
        undelegated(votes@, old(cand)@),
        targets_in_table(targets(old(cand)@)),
        weight_sum(weights(votes@, old(cand)@), old(cand)@.len() as int) <= u64::MAX,
    ensures
        same_ballot(final(cand)@, old(cand)@),
        forall|c: int|
            0 <= c < final(cand)@.len() ==> (#[trigger] final(cand)@[c]).next_by_total_indirect_votes
                == old(cand)@[c].next_by_total_indirect_votes,
        totals_delegated(votes@, final(cand)@),
        in_lists_linked(final(cand)@),
        final(is).has_heard(
            *old(is),
            delegation_events(
                places(old(cand)@),
                targets(old(cand)@),
                old(cand)@.len() as int,
            ),
        ),
{
    let ghost start = cand@;
    let ghost t = targets(cand@);
    let ghost w = weights(votes@, cand@);
    let ghost n = cand@.len() as int;
    let ghost p = places(cand@);
    let mut delegation_path: Vec<usize> = Vec::new();
    let mut node_id: usize = 0;
    proof {
        lemma_heard_nothing(*is);
        assert forall|x: int| 0 <= x < cand@.len() implies (#[trigger] cand@[x]).total_indirect_votes
            == w[x] by {}
    }
    while node_id < cand.len()
        invariant
            node_id <= n,
            n == cand@.len(),
            kept(cand@, start),
            t == targets(start),
            w == weights(votes@, start),
            targets_in_table(t),
            forall|c: int| 0 <= c < n ==> (#[trigger] start[c]).vote < votes@.len(),
            totals_at(cand@, w, t, node_id as int, Seq::<usize>::empty()),
            links_at(cand@, t, node_id as int),
            weight_sum(w, n) <= u64::MAX,
            p == places(start),
            is.has_heard(*old(is), delegation_events(p, t, node_id as int)),
        decreases n - node_id,
    {
        let ghost m = node_id as int;
        let ghost at_start = *is;
        let ghost whole = walk_events(p, t, m, seq![node_id], t[m], n as nat);
        let ghost mut done: Seq<EventView> = Seq::empty();
        proof {
            lemma_heard_nothing(*is);
        }
        let orig_vote = cand[node_id].vote;
        let mut vote_for = cand[node_id].vote_for;
        let number_of_votes = votes[orig_vote].number_of_votes;
        assert(t[m] == link(vote_for));
        assert(w[m] == number_of_votes);
        // Insert ourselves into the voted_for_me linked list
        if let Some(target) = vote_for {
            let ghost prior = cand@;
            let head = cand[target].voted_for_me;
            cand[node_id].voting_for_same = head;
            cand[target].voted_for_me = Some(node_id);
            proof {
                assert(kept(cand@, start)) by {
                    assert forall|c: int| 0 <= c < n implies (#[trigger] cand@[c]).vote
                        == start[c].vote && cand@[c].vote_for == start[c].vote_for
                        && cand@[c].is_willing_candidate == start[c].is_willing_candidate
                        && cand@[c].next_by_total_indirect_votes
                        == start[c].next_by_total_indirect_votes by {
                        assert(prior[c].vote == start[c].vote);
                    }
                }
                assert(totals_at(cand@, w, t, m, Seq::<usize>::empty())) by {
                    assert forall|x: int| 0 <= x < n implies (#[trigger] cand@[x]).total_indirect_votes
                        == prior[x].total_indirect_votes by {}
                }
                assert(links_at(cand@, t, m + 1)) by {
                    assert forall|x: int| 0 <= x < n implies link(
                        (#[trigger] cand@[x]).voted_for_me,
                    ) == last_voter_before(t, x, m + 1) && link(cand@[x].voting_for_same) == (if x
                        < m + 1 {
                        previous_with_same_target(t, x)
                    } else {
                        None
                    }) by {
                        assert(link(prior[x].voted_for_me) == last_voter_before(t, x, m));
                    }
                }
            }
        } else {
            proof {
                assert(links_at(cand@, t, m + 1)) by {
                    assert forall|x: int| 0 <= x < n implies link(
                        (#[trigger] cand@[x]).voted_for_me,
                    ) == last_voter_before(t, x, m + 1) && link(cand@[x].voting_for_same) == (if x
                        < m + 1 {
                        previous_with_same_target(t, x)
                    } else {
                        None
                    }) by {}
                }
            }
        }
        delegation_path.clear();
        delegation_path.push(node_id);
        let mut last_vote = orig_vote;
        proof {
            assert(delegation_path@ =~= seq![node_id]);
            assert(is_walk(t, m, delegation_path@));
            assert(totals_at(cand@, w, t, m, delegation_path@)) by {
                assert forall|x: int| !stepped_on(delegation_path@, x) by {}
            }
        }
        loop
            invariant_except_break
                is.has_heard(at_start, done),
                done + walk_events(
                    p,
                    t,
                    m,
                    delegation_path@,
                    link(vote_for),
                    (n - delegation_path@.len() + 1) as nat,
                ) == whole,
            invariant
                node_id < n,
                m == node_id,
                n == cand@.len(),
                kept(cand@, start),
                t == targets(start),
                w == weights(votes@, start),
                targets_in_table(t),
                forall|c: int| 0 <= c < n ==> (#[trigger] start[c]).vote < votes@.len(),
                is_walk(t, m, delegation_path@),
                link(vote_for) == t[delegation_path@[delegation_path@.len() - 1] as int],
                last_vote == start[delegation_path@[delegation_path@.len() - 1] as int].vote,
                orig_vote == start[m].vote,
                number_of_votes == w[m],
                totals_at(cand@, w, t, m, delegation_path@),
                links_at(cand@, t, m + 1),
                weight_sum(w, n) <= u64::MAX,
                p == places(start),
                delegation_path@.len() <= n,
                whole == walk_events(p, t, m, seq![node_id], t[m], n as nat),
            ensures
                link(vote_for) matches Some(c) ==> exists|i: int|
                    0 <= i < delegation_path@.len() && delegation_path@[i] == c,
                is.has_heard(at_start, whole),
            decreases n - delegation_path@.len(),
        {
            let ghost last = delegation_path@[delegation_path@.len() - 1] as int;
            match vote_for {
                None => {
                    // nobody left to delegate to, end of the line
                    proof {
                        assert(done + Seq::<EventView>::empty() =~= done);
                    }
                    break ;
                },
                Some(target) => {
                    assert(t[last] == Some(target as int));
                    assert(target < n);
                    let ghost heard = *is;
                    proof {
                        assert(places(cand@) =~= p);
                    }
                    if path_contains(&delegation_path, target) {
                        // It's a ring, we already delegated to them, abort.
                        publish_ring(is, cand, &delegation_path, target);
                        proof {
                            assert(passed(delegation_path@, target as int));
                            let ring = EventView::VoteDelegationRing {
                                chain: chain_of(p, delegation_path@),
                                next: p[target as int],
                            };
                            lemma_heard_more(at_start, heard, *is, done, seq![ring]);
                        }
                        break ;
                    }
                    publish_delegation(is, orig_vote, cand[target].vote, last_vote);
                    proof {
                        assert(!passed(delegation_path@, target as int));
                        let step = EventView::VoteDelegation {
                            from: p[m],
                            to: p[target as int],
                            because_of: p[delegation_path@.last() as int],
                        };
                        lemma_heard_more(at_start, heard, *is, done, seq![step]);
                        let rest = walk_events(
                            p,
                            t,
                            m,
                            delegation_path@.push(target),
                            t[target as int],
                            (n - delegation_path@.len()) as nat,
                        );
                        assert(done + (seq![step] + rest) =~= (done + seq![step]) + rest);
                        done = done + seq![step];
                    }
                    let ghost prior = cand@;
                    let ghost path_before = delegation_path@;
                    delegation_path.push(target);
                    proof {
                        let path = delegation_path@;
                        assert(path == path_before.push(target));
                        assert(is_walk(t, m, path)) by {
                            assert forall|i: int| 0 <= i < path.len() - 1 implies t[#[trigger] path[i] as int]
                                == Some(path[i + 1] as int) by {
                                if i < path_before.len() - 1 {
                                    assert(path[i] == path_before[i]);
                                    assert(t[path_before[i] as int] == Some(
                                        path_before[i + 1] as int,
                                    ));
                                }
                            }
                            assert forall|a: int, b: int|
                                0 <= a < path.len() && 0 <= b < path.len() && a != b implies path[a]
                                != path[b] by {
                                if a < path_before.len() && b < path_before.len() {
                                    assert(path_before[a] != path_before[b]);
                                }
                            }
                        }
                        lemma_distinct_bounded(path, n);
                        assert(!stepped_on(path_before, target as int));
                        lemma_credit_bounded(w, t, target as int, m);
                        assert(target != node_id) by {
                            assert(path_before[0] == node_id);
                        }
                        if target > node_id {
                            lemma_two_weights(w, m, m, target as int, n);
                        } else {
                            lemma_one_weight(w, m, m, n);
                        }
                    }
                    // Add the votes
                    cand[target].total_indirect_votes = cand[target].total_indirect_votes
                        + number_of_votes;
                    // Next round
                    last_vote = cand[target].vote;
                    vote_for = cand[target].vote_for;
                    proof {
                        let path = delegation_path@;
                        assert(kept(cand@, start)) by {
                            assert forall|c: int| 0 <= c < n implies (#[trigger] cand@[c]).vote
                                == start[c].vote && cand@[c].vote_for == start[c].vote_for
                                && cand@[c].is_willing_candidate == start[c].is_willing_candidate
                                && cand@[c].next_by_total_indirect_votes
                                == start[c].next_by_total_indirect_votes by {
                                assert(prior[c].vote == start[c].vote);
                            }
                        }
                        assert(links_at(cand@, t, m + 1)) by {
                            assert forall|x: int| 0 <= x < n implies link(
                                (#[trigger] cand@[x]).voted_for_me,
                            ) == last_voter_before(t, x, m + 1) && link(cand@[x].voting_for_same)
                                == (if x < m + 1 {
                                previous_with_same_target(t, x)
                            } else {
                                None
                            }) by {
                                assert(link(prior[x].voted_for_me) == last_voter_before(
                                    t,
                                    x,
                                    m + 1,
                                ));
                            }
                        }
                        assert(totals_at(cand@, w, t, m, path)) by {
                            assert forall|x: int| 0 <= x < n implies (#[trigger] cand@[x]).total_indirect_votes
                                == credit(w, t, x, m) + (if x >= m {
                                w[x]
                            } else {
                                0
                            }) + (if stepped_on(path, x) {
                                w[m]
                            } else {
                                0
                            }) by {
                                assert(prior[x].total_indirect_votes == credit(w, t, x, m) + (if x
                                    >= m {
                                    w[x]
                                } else {
                                    0
                                }) + (if stepped_on(path_before, x) {
                                    w[m]
                                } else {
                                    0
                                }));
                                if stepped_on(path_before, x) {
                                    let i = choose|i: int|
                                        1 <= i < path_before.len() && path_before[i] == x;
                                    assert(path[i] == x);
                                    assert(x != target);
                                }
                                if x == target {
                                    assert(path[path.len() - 1] == x);
                                }
                                if stepped_on(path, x) && x != target {
                                    let i = choose|i: int| 1 <= i < path.len() && path[i] == x;
                                    assert(path_before[i] == x);
                                }
                            }
                        }
                        assert(t[target as int] == link(start[target as int].vote_for));
                    }
                },
            }
        }
        proof {
            lemma_heard_more(*old(is), at_start, *is, delegation_events(p, t, m), whole);
            let path = delegation_path@;
            lemma_walk_complete(t, m, path);
            assert(hop(t, m, 0) == Some(m));
            assert(reaches(t, m, m));
            assert(totals_at(cand@, w, t, m + 1, Seq::<usize>::empty())) by {
                assert forall|x: int| 0 <= x < n implies (#[trigger] cand@[x]).total_indirect_votes
                    == credit(w, t, x, m + 1) + (if x >= m + 1 {
                    w[x]
                } else {
                    0
                }) + (if stepped_on(Seq::<usize>::empty(), x) {
                    w[m + 1]
                } else {
                    0
                }) by {
                    assert(cand@[x].total_indirect_votes == credit(w, t, x, m) + (if x >= m {
                        w[x]
                    } else {
                        0
                    }) + (if stepped_on(path, x) {
                        w[m]
                    } else {
                        0
                    }));
                    assert(stepped_on(path, x) <==> (x != m && reaches(t, m, x)));
                }
            }
        }
        node_id += 1;
    }
    proof {
        lemma_kept_models(votes@, cand@, start);
        assert(totals_delegated(votes@, cand@));
        assert(in_lists_linked(cand@));
    }
}

} // verus!
