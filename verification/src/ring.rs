use vstd::prelude::*;
use crate::types::Vote;
use crate::candidate::{Candidate, link, targets, weight};
use crate::delegation::{in_lists_linked, last_voter_before, lemma_last_voter, previous_with_same_target};
use crate::introspector::{
    BestOfRing,
    BestRing,
    Event,
    EventKind,
    EventView,
    Introspector,
    lemma_unheard,
};
use crate::ranking::{beats, is_ranking, ranked, ranking, threaded};

verus! {

/// How many candidates are marked in `pool`.
pub open spec fn marked(pool: Seq<bool>) -> nat
    decreases pool.len(),
{
    if pool.len() == 0 {
        0
    } else {
        marked(pool.drop_last()) + if pool.last() {
            1nat
        } else {
            0nat
        }
    }
}

pub proof fn lemma_unmark(pool: Seq<bool>, i: int)
    requires
        0 <= i < pool.len(),
        pool[i],
    ensures
        marked(pool.update(i, false)) == marked(pool) - 1,
    decreases pool.len(),
{
    let after = pool.update(i, false);
    if i == pool.len() - 1 {
        assert(after.drop_last() =~= pool.drop_last());
    } else {
        lemma_unmark(pool.drop_last(), i);
        assert(after.drop_last() =~= pool.drop_last().update(i, false));
    }
}

/// The first marked candidate from `from` on, or the length of `pool`.
pub open spec fn first_marked(pool: Seq<bool>, from: int) -> int
    decreases pool.len() - from,
{
    if from >= pool.len() || (from >= 0 && pool[from]) {
        from
    } else {
        first_marked(pool, from + 1)
    }
}

/// Walks from `cur` along the delegations as long as it meets marked
/// candidates, takes each of them out of `pool` and adds them to `acc`.
/// Gives the candidates gathered and what is left of the pool.
pub open spec fn forward_walk(
    cands: Seq<Candidate>,
    pool: Seq<bool>,
    cur: Option<int>,
    acc: Seq<int>,
) -> (Seq<int>, Seq<bool>)
    decreases marked(pool),
{
    match cur {
        Some(i) => if 0 <= i < pool.len() && pool[i] {
            proof {
                lemma_unmark(pool, i);
            }
            forward_walk(cands, pool.update(i, false), link(cands[i].vote_for), acc.push(i))
        } else {
            (acc, pool)
        },
        None => (acc, pool),
    }
}

/// Walks a list of voters from `cur` on. A marked voter is taken out of
/// `pool` and added to `acc`, and the walk goes on in the list of their own
/// voters; past an unmarked voter it goes on in the same list.
pub open spec fn scoop(cands: Seq<Candidate>, pool: Seq<bool>, cur: Option<int>, acc: Seq<int>) -> (
    Seq<int>,
    Seq<bool>,
)
    decreases marked(pool), (match cur {
            Some(v) => v + 1,
            None => 0,
        }),
{
    match cur {
        Some(v) => if 0 <= v < pool.len() && pool[v] {
            proof {
                lemma_unmark(pool, v);
            }
            scoop(cands, pool.update(v, false), link(cands[v].voted_for_me), acc.push(v))
        } else {
            match link(cands[v].voting_for_same) {
                Some(j) => if 0 <= j < v {
                    scoop(cands, pool, Some(j), acc)
                } else {
                    (acc, pool)
                },
                None => (acc, pool),
            }
        },
        None => (acc, pool),
    }
}

pub proof fn lemma_forward_walk_shrinks(
    cands: Seq<Candidate>,
    pool: Seq<bool>,
    cur: Option<int>,
    acc: Seq<int>,
)
    ensures
        forward_walk(cands, pool, cur, acc).1.len() == pool.len(),
        marked(forward_walk(cands, pool, cur, acc).1) <= marked(pool),
        (cur matches Some(i) && 0 <= i < pool.len() && pool[i]) ==> marked(
            forward_walk(cands, pool, cur, acc).1,
        ) < marked(pool),
    decreases marked(pool),
{
    match cur {
        Some(i) => if 0 <= i < pool.len() && pool[i] {
            lemma_unmark(pool, i);
            lemma_forward_walk_shrinks(
                cands,
                pool.update(i, false),
                link(cands[i].vote_for),
                acc.push(i),
            );
        },
        None => {},
    }
}

pub proof fn lemma_scoop_shrinks(
    cands: Seq<Candidate>,
    pool: Seq<bool>,
    cur: Option<int>,
    acc: Seq<int>,
)
    ensures
        scoop(cands, pool, cur, acc).1.len() == pool.len(),
        marked(scoop(cands, pool, cur, acc).1) <= marked(pool),
    decreases marked(pool), (match cur {
            Some(v) => v + 1,
            None => 0,
        }),
{
    match cur {
        Some(v) => if 0 <= v < pool.len() && pool[v] {
            lemma_unmark(pool, v);
            lemma_scoop_shrinks(cands, pool.update(v, false), link(cands[v].voted_for_me), acc.push(v));
        } else {
            match link(cands[v].voting_for_same) {
                Some(j) => if 0 <= j < v {
                    lemma_scoop_shrinks(cands, pool, Some(j), acc);
                },
                None => {},
            }
        },
        None => {},
    }
}

/// The ring that is taken out of `pool` first: it starts at the first
/// marked candidate `s`, follows the delegations from there, and then
/// gathers from the voters of `s`. Gives the ring and what is left.
pub open spec fn first_ring(cands: Seq<Candidate>, pool: Seq<bool>, s: int) -> (Seq<int>, Seq<bool>) {
    let (chain, rest) = forward_walk(cands, pool, Some(s), Seq::empty());
    scoop(cands, rest, link(cands[s].voted_for_me), chain)
}

/// The rings that the marked candidates of `pool` fall into, in the order
/// in which they are found.
pub open spec fn ring_members(cands: Seq<Candidate>, pool: Seq<bool>) -> Seq<Seq<int>>
    decreases marked(pool),
{
    let s = first_marked(pool, 0);
    if 0 <= s < pool.len() && pool[s] {
        proof {
            lemma_forward_walk_shrinks(cands, pool, Some(s), Seq::empty());
            let (chain, rest) = forward_walk(cands, pool, Some(s), Seq::empty());
            lemma_scoop_shrinks(cands, rest, link(cands[s].voted_for_me), chain);
        }
        seq![first_ring(cands, pool, s).0] + ring_members(cands, first_ring(cands, pool, s).1)
    } else {
        Seq::empty()
    }
}


/// Every link of the table leads into the table, and the lists of voters
/// lead from later candidates to earlier ones.
pub open spec fn lists_descend(cands: Seq<Candidate>) -> bool {
    forall|c: int|
        0 <= c < cands.len() ==> {
            &&& ((#[trigger] cands[c]).vote_for matches Some(k) ==> k < cands.len())
            &&& (cands[c].voted_for_me matches Some(k) ==> k < cands.len())
            &&& (cands[c].voting_for_same matches Some(k) ==> k < c)
        }
}

/// `out` holds, ring by ring, the votes of the candidates in `rings`.
pub open spec fn votes_of_rings(cands: Seq<Candidate>, rings: Seq<Seq<int>>, out: Seq<Vec<usize>>) -> bool {
    &&& out.len() == rings.len()
    &&& forall|r: int|
        0 <= r < rings.len() ==> {
            &&& (#[trigger] out[r])@.len() == rings[r].len()
            &&& forall|j: int|
                0 <= j < rings[r].len() ==> out[r]@[j] == cands[#[trigger] rings[r][j]].vote
        }
}

fn find_first_marked(pool: &Vec<bool>) -> (s: usize)
    ensures
        s == first_marked(pool@, 0),
        s <= pool@.len(),
        s < pool@.len() ==> pool@[s as int],
{
    let mut s: usize = 0;
    while s < pool.len() && !pool[s]
        invariant
            s <= pool@.len(),
            first_marked(pool@, s as int) == first_marked(pool@, 0),
        decreases pool@.len() - s,
    {
        s += 1;
    }
    s
}

fn copy_marks(ring: &Vec<bool>) -> (pool: Vec<bool>)
    ensures
        pool@ == ring@,
{
    let mut pool: Vec<bool> = Vec::new();
    let mut i: usize = 0;
    while i < ring.len()
        invariant
            i <= ring@.len(),
            pool@ == ring@.subrange(0, i as int),
        decreases ring@.len() - i,
    {
        pool.push(ring[i]);
        assert(pool@ =~= ring@.subrange(0, i as int + 1));
        i += 1;
    }
    assert(pool@ =~= ring@);
    pool
}

/// Splits the marked candidates into rings. Each ring starts at the first
/// candidate not yet taken, follows the delegations while they lead to
/// marked candidates not yet taken, and then gathers, from the voters of
/// the one it started at, marked candidates that point into the ring.
/// Returns for each ring the votes of its members.
#[verifier::rlimit(40)]
pub fn compute_ring_members(cand: &Vec<Candidate>, ring: &Vec<bool>) -> (out: Vec<Vec<usize>>)
    requires
        ring@.len() == cand@.len(),
        lists_descend(cand@),
    ensures
        votes_of_rings(cand@, ring_members(cand@, ring@), out@),
{
    let mut out: Vec<Vec<usize>> = Vec::new();
    let mut unorganized = copy_marks(ring);
    let ghost mut done: Seq<Seq<int>> = Seq::empty();
    let n = cand.len();
    loop
        invariant
            n == cand@.len(),
            unorganized@.len() == n,
            lists_descend(cand@),
            done + ring_members(cand@, unorganized@) == ring_members(cand@, ring@),
            votes_of_rings(cand@, done, out@),
        ensures
            done == ring_members(cand@, ring@),
            votes_of_rings(cand@, done, out@),
        decreases marked(unorganized@),
    {
        let start = find_first_marked(&unorganized);
        if start >= n {
            assert(ring_members(cand@, unorganized@) == Seq::<Seq<int>>::empty());
            assert(done + Seq::<Seq<int>>::empty() =~= done);
            break ;
        }
        let ghost pool0 = unorganized@;
        let ghost mut acc: Seq<int> = Seq::empty();
        let mut ring_votes: Vec<usize> = Vec::new();
        let mut maybe_idx = Some(start);
        loop
            invariant
                n == cand@.len(),
                unorganized@.len() == n,
                lists_descend(cand@),
                maybe_idx matches Some(i) ==> i < n,
                forward_walk(cand@, unorganized@, link(maybe_idx), acc) == forward_walk(
                    cand@,
                    pool0,
                    Some(start as int),
                    Seq::empty(),
                ),
                ring_votes@.len() == acc.len(),
                forall|j: int|
                    0 <= j < acc.len() ==> 0 <= #[trigger] acc[j] < n && ring_votes@[j]
                        == cand@[acc[j]].vote,
            ensures
                unorganized@.len() == n,
                (acc, unorganized@) == forward_walk(cand@, pool0, Some(start as int), Seq::empty()),
                ring_votes@.len() == acc.len(),
                forall|j: int|
                    0 <= j < acc.len() ==> 0 <= #[trigger] acc[j] < n && ring_votes@[j]
                        == cand@[acc[j]].vote,
            decreases marked(unorganized@),
        {
            match maybe_idx {
                None => {
                    break ;
                },
                Some(idx) => {
                    if !unorganized[idx] {
                        break ;
                    }
                    proof {
                        lemma_unmark(unorganized@, idx as int);
                        acc = acc.push(idx as int);
                    }
                    unorganized.set(idx, false);
                    ring_votes.push(cand[idx].vote);
                    maybe_idx = cand[idx].vote_for;
                },
            }
        }
        let ghost pool1 = unorganized@;
        let ghost acc1 = acc;
        let mut maybe_vfm = cand[start].voted_for_me;
        loop
            invariant
                n == cand@.len(),
                unorganized@.len() == n,
                lists_descend(cand@),
                maybe_vfm matches Some(i) ==> i < n,
                scoop(cand@, unorganized@, link(maybe_vfm), acc) == scoop(
                    cand@,
                    pool1,
                    link(cand@[start as int].voted_for_me),
                    acc1,
                ),
                ring_votes@.len() == acc.len(),
                forall|j: int|
                    0 <= j < acc.len() ==> 0 <= #[trigger] acc[j] < n && ring_votes@[j]
                        == cand@[acc[j]].vote,
            ensures
                unorganized@.len() == n,
                (acc, unorganized@) == scoop(
                    cand@,
                    pool1,
                    link(cand@[start as int].voted_for_me),
                    acc1,
                ),
                ring_votes@.len() == acc.len(),
                forall|j: int|
                    0 <= j < acc.len() ==> 0 <= #[trigger] acc[j] < n && ring_votes@[j]
                        == cand@[acc[j]].vote,
            decreases
                    marked(unorganized@),
                    (match maybe_vfm {
                        Some(v) => v + 1,
                        None => 0,
                    }),
        {
            match maybe_vfm {
                None => {
                    break ;
                },
                Some(vfm) => {
                    if unorganized[vfm] {
                        proof {
                            lemma_unmark(unorganized@, vfm as int);
                            acc = acc.push(vfm as int);
                        }
                        unorganized.set(vfm, false);
                        ring_votes.push(cand[vfm].vote);
                        maybe_vfm = cand[vfm].voted_for_me;
                    } else {
                        maybe_vfm = cand[vfm].voting_for_same;
                    }
                },
            }
        }
        proof {
            lemma_forward_walk_shrinks(cand@, pool0, Some(start as int), Seq::empty());
            lemma_scoop_shrinks(cand@, pool1, link(cand@[start as int].voted_for_me), acc1);
            assert(first_ring(cand@, pool0, start as int) == (acc, unorganized@));
            assert(ring_members(cand@, pool0) == seq![acc] + ring_members(cand@, unorganized@));
            assert(done.push(acc) + ring_members(cand@, unorganized@) =~= done + ring_members(
                cand@,
                pool0,
            ));
            done = done.push(acc);
        }
        out.push(ring_votes);
    }
    out
}


/// The candidates with the best score: the willing ones that have as many
/// indirect votes as `best`.
pub open spec fn top_set(cands: Seq<Candidate>, k: int, best: int) -> Seq<bool> {
    Seq::new(
        cands.len(),
        |c: int| c < k && cands[c].total_indirect_votes == cands[best].total_indirect_votes,
    )
}

spec fn in_prefix(order: Seq<int>, taken: int, c: int) -> bool {
    exists|i: int| 0 <= i < taken && order[i] == c
}

fn no_marks(n: usize) -> (pool: Vec<bool>)
    ensures
        pool@.len() == n,
        forall|c: int| 0 <= c < n ==> !pool@[c],
{
    let mut pool: Vec<bool> = Vec::new();
    let mut i: usize = 0;
    while i < n
        invariant
            i <= n,
            pool@.len() == i,
            forall|c: int| 0 <= c < i ==> !pool@[c],
        decreases n - i,
    {
        pool.push(false);
        i += 1;
    }
    pool
}

/// The votes of the candidates in `rings`, ring by ring.
pub open spec fn rings_votes(cands: Seq<Candidate>, rings: Seq<Seq<int>>) -> Seq<Seq<usize>> {
    Seq::new(rings.len(), |r: int| Seq::new(rings[r].len(), |j: int| cands[rings[r][j]].vote))
}

/// The event that tells the candidates with the best score, which `best`
/// leads, in their rings.
pub open spec fn best_ring_event(cands: Seq<Candidate>, k: int, best: int) -> EventView {
    EventView::BestRing {
        best_total_delegated_votes: cands[best].total_indirect_votes,
        best_rings_members: rings_votes(cands, ring_members(cands, top_set(cands, k, best))),
    }
}

/// Marks the candidates with the best score: walks the ranking from `best`
/// on as long as the score stays the same. Returns the marks and the
/// number of rings that the marked candidates fall into. Publishes the
/// rings.
#[verifier::rlimit(40)]
pub fn get_best_candidates(
    cand: &Vec<Candidate>,
    best: usize,
    total_willing_candidates: usize,
    is: &mut Introspector,
) -> (found: (Vec<bool>, usize))
    requires
        total_willing_candidates <= cand@.len(),
        ranked(cand@, total_willing_candidates as int, Some(best)),
        lists_descend(cand@),
    ensures
        found.0@ == top_set(cand@, total_willing_candidates as int, best as int),
        found.1 == ring_members(cand@, found.0@).len(),
        final(is).has_heard(
            *old(is),
            seq![best_ring_event(cand@, total_willing_candidates as int, best as int)],
        ),
{
    let n = cand.len();
    let ghost k = total_willing_candidates as int;
    let ghost order = ranking(cand@, k);
    assert(order[0] == best);
    let mut best_ring = no_marks(n);
    let mut c_idx = best;
    let score = cand[c_idx].total_indirect_votes;
    let ghost mut taken: int = 0;
    loop
        invariant_except_break
            0 <= taken < k,
            c_idx == order[taken],
        invariant
            n == cand@.len(),
            best_ring@.len() == n,
            is_ranking(cand@, k, order),
            threaded(cand@, order),
            order[0] == best,
            score == cand@[best as int].total_indirect_votes,
            k <= n,
            forall|c: int| 0 <= c < n ==> (best_ring@[c] <==> #[trigger] in_prefix(order, taken, c)),
            forall|i: int|
                0 <= i < taken ==> cand@[#[trigger] order[i]].total_indirect_votes == score,
        ensures
            best_ring@.len() == n,
            0 <= taken <= k,
            forall|c: int| 0 <= c < n ==> (best_ring@[c] <==> #[trigger] in_prefix(order, taken, c)),
            forall|i: int|
                0 <= i < taken ==> cand@[#[trigger] order[i]].total_indirect_votes == score,
            taken < k ==> cand@[order[taken]].total_indirect_votes < score,
        decreases k - taken,
    {
        if cand[c_idx].total_indirect_votes < score {
            break ;
        }
        let ghost before = best_ring@;
        best_ring.set(c_idx, true);
        proof {
            if taken > 0 {
                assert(beats(cand@, order[0], order[taken]));
            }
            assert forall|c: int| 0 <= c < n implies (best_ring@[c] <==> #[trigger] in_prefix(
                order,
                taken + 1,
                c,
            )) by {
                if in_prefix(order, taken, c) {
                    let i = choose|i: int| 0 <= i < taken && order[i] == c;
                    assert(0 <= i < taken + 1 && order[i] == c);
                }
                if c == c_idx {
                    assert(0 <= taken < taken + 1 && order[taken] == c);
                }
                if in_prefix(order, taken + 1, c) && c != c_idx {
                    let i = choose|i: int| 0 <= i < taken + 1 && order[i] == c;
                    assert(0 <= i < taken && order[i] == c);
                    assert(before[c] <==> in_prefix(order, taken, c));
                }
                if !in_prefix(order, taken + 1, c) {
                    assert(before[c] <==> in_prefix(order, taken, c));
                }
            }
        }
        let next = cand[c_idx].next_by_total_indirect_votes;
        proof {
            assert(link(cand@[order[taken]].next_by_total_indirect_votes) == (if taken + 1
                < order.len() {
                Some(order[taken + 1])
            } else {
                None
            }));
            taken = taken + 1;
        }
        match next {
            Some(next_idx) => {
                c_idx = next_idx;
            },
            None => {
                break ;
            },
        }
    }
    proof {
        assert(best_ring@ =~= top_set(cand@, k, best as int)) by {
            assert forall|c: int| 0 <= c < n implies best_ring@[c] == (c < k
                && cand@[c].total_indirect_votes == score) by {
                assert(best_ring@[c] <==> in_prefix(order, taken, c));
                if in_prefix(order, taken, c) {
                    let i = choose|i: int| 0 <= i < taken && order[i] == c;
                    assert(0 <= order[i] < k);
                }
                if c < k && cand@[c].total_indirect_votes == score {
                    assert(order.contains(c));
                    let i = choose|i: int| 0 <= i < order.len() && order[i] == c;
                    if i >= taken {
                        if i > taken {
                            assert(beats(cand@, order[taken], order[i]));
                        }
                        assert(false);
                    }
                }
            }
        }
    }
    let best_rings_members = compute_ring_members(cand, &best_ring);
    let ring_count = best_rings_members.len();
    let ghost expected = best_ring_event(cand@, k, best as int);
    if is.is_subscribed(EventKind::BestRing) {
        let event = Event::BestRing(
            BestRing { best_rings_members, best_total_delegated_votes: score },
        );
        proof {
            let rings = ring_members(cand@, best_ring@);
            let told = Seq::new(
                best_rings_members@.len(),
                |i: int| best_rings_members@[i]@,
            );
            assert(told =~= rings_votes(cand@, rings)) by {
                assert forall|r: int| 0 <= r < rings.len() implies told[r] =~= rings_votes(
                    cand@,
                    rings,
                )[r] by {
                    assert(best_rings_members@[r]@.len() == rings[r].len());
                }
            }
            assert(event@ == expected);
        }
        is.event(event);
    } else {
        proof {
            lemma_unheard(*is, expected);
        }
    }
    (best_ring, ring_count)
}


/// What the candidates from `lo` on that delegate to `c` and are not in
/// the ring bring to `c`: the sum of their indirect votes.
pub open spec fn outside_support(cands: Seq<Candidate>, ring: Seq<bool>, c: int, lo: int) -> nat
    decreases cands.len() - lo,
{
    if lo >= cands.len() {
        0
    } else {
        (if link(cands[lo].vote_for) == Some(c) && !ring[lo] {
            cands[lo].total_indirect_votes as nat
        } else {
            0
        }) + outside_support(cands, ring, c, lo + 1)
    }
}

/// The score of `c` if the ring were not there: their own votes and the
/// indirect votes of everybody outside the ring who delegates to them.
pub open spec fn ring_score(votes: Seq<Vote>, cands: Seq<Candidate>, ring: Seq<bool>, c: int) -> nat {
    weight(votes, cands, c) + outside_support(cands, ring, c, 0)
}

/// `c` is a member of the ring, and no member has a higher score with the
/// ring left out.
pub open spec fn is_ring_best(
    votes: Seq<Vote>,
    cands: Seq<Candidate>,
    ring: Seq<bool>,
    c: int,
) -> bool {
    &&& 0 <= c < cands.len()
    &&& ring[c]
    &&& forall|d: int|
        0 <= d < cands.len() && ring[d] ==> ring_score(votes, cands, ring, d) <= ring_score(
            votes,
            cands,
            ring,
            c,
        )
}

/// `list` holds the best of the ring, each once, in table order.
pub open spec fn is_best_list(
    votes: Seq<Vote>,
    cands: Seq<Candidate>,
    ring: Seq<bool>,
    list: Seq<usize>,
) -> bool {
    &&& forall|i: int|
        0 <= i < list.len() ==> is_ring_best(votes, cands, ring, #[trigger] list[i] as int)
    &&& forall|c: int| #[trigger]
        is_ring_best(votes, cands, ring, c) ==> exists|i: int| 0 <= i < list.len() && list[i] == c
    &&& forall|i: int, j: int| 0 <= i < j < list.len() ==> list[i] < list[j]
}

proof fn lemma_support_gap(cands: Seq<Candidate>, ring: Seq<bool>, c: int, lo: int, hi: int)
    requires
        0 <= lo <= hi <= cands.len(),
        forall|j: int| lo <= j < hi ==> targets(cands)[j] != Some(c),
    ensures
        outside_support(cands, ring, c, lo) == outside_support(cands, ring, c, hi),
    decreases hi - lo,
{
    if lo < hi {
        assert(targets(cands)[lo] == link(cands[lo].vote_for));
        lemma_support_gap(cands, ring, c, lo + 1, hi);
    }
}

/// The score of candidate `c` with the ring left out.
fn ring_score_of(votes: &[Vote], cand: &Vec<Candidate>, ring: &Vec<bool>, c: usize) -> (score: u128)
    requires
        c < cand@.len(),
        ring@.len() == cand@.len(),
        in_lists_linked(cand@),
        forall|d: int| 0 <= d < cand@.len() ==> (#[trigger] cand@[d]).vote < votes@.len(),
    ensures
        score == ring_score(votes@, cand@, ring@, c as int),
{
    let ghost t = targets(cand@);
    let len = cand.len();
    let ghost n = len as int;
    let mut score: u128 = votes[cand[c].vote].number_of_votes as u128;
    let mut maybe_vfm = cand[c].voted_for_me;
    let ghost mut limit: int = n;
    while maybe_vfm.is_some()
        invariant
            n == cand@.len(),
            n == len,
            ring@.len() == n,
            t == targets(cand@),
            c < n,
            in_lists_linked(cand@),
            0 <= limit <= n,
            link(maybe_vfm) == last_voter_before(t, c as int, limit),
            score == weight(votes@, cand@, c as int) + outside_support(cand@, ring@, c as int, limit),
            score <= (n - limit + 1) * 0xFFFF_FFFF_FFFF_FFFF,
        decreases limit,
    {
        let vfm = maybe_vfm.unwrap();
        proof {
            lemma_last_voter(t, c as int, limit);
            lemma_support_gap(cand@, ring@, c as int, vfm as int + 1, limit);
            assert(t[vfm as int] == link(cand@[vfm as int].vote_for));
            assert(link(cand@[vfm as int].voting_for_same) == previous_with_same_target(
                t,
                vfm as int,
            ));
        }
        if !ring[vfm] {
            assert(n <= 0xFFFF_FFFF_FFFF_FFFF);
            assert(score + cand@[vfm as int].total_indirect_votes <= (n - vfm + 1)
                * 0xFFFF_FFFF_FFFF_FFFF);
            score = score + cand[vfm].total_indirect_votes as u128;
        }
        maybe_vfm = cand[vfm].voting_for_same;
        proof {
            limit = vfm as int;
        }
    }
    proof {
        lemma_last_voter(t, c as int, limit);
        lemma_support_gap(cand@, ring@, c as int, 0, limit);
    }
    score
}

fn push_score(scores: &mut Vec<(usize, u128)>, vote: usize, score: u128)
    ensures
        final(scores)@ == old(scores)@.push((vote, score)),
{
    scores.push((vote, score));
}

/// For each member of the ring among the first `upto` candidates, in
/// table order, their vote and their score with the ring left out.
pub open spec fn member_scores(
    votes: Seq<Vote>,
    cands: Seq<Candidate>,
    ring: Seq<bool>,
    upto: int,
) -> Seq<(usize, u128)>
    decreases upto,
{
    if upto <= 0 {
        Seq::empty()
    } else {
        let rest = member_scores(votes, cands, ring, upto - 1);
        if ring[upto - 1] {
            rest.push((cands[upto - 1].vote, ring_score(votes, cands, ring, upto - 1) as u128))
        } else {
            rest
        }
    }
}

/// The votes of the candidates in `list`.
pub open spec fn votes_of(cands: Seq<Candidate>, list: Seq<usize>) -> Seq<usize> {
    list.map_values(|c: usize| cands[c as int].vote)
}

/// The event that tells the scores of the members of the ring and the
/// best of them.
pub open spec fn best_of_ring_event(
    votes: Seq<Vote>,
    cands: Seq<Candidate>,
    ring: Seq<bool>,
    winners: Seq<usize>,
) -> EventView {
    EventView::BestOfRing {
        rings_member_scores: member_scores(votes, cands, ring, cands.len() as int),
        winners: votes_of(cands, winners),
    }
}

/// Gets the best candidates out of the ring: those who would have the most
/// votes if the ring did not exist. Returns more than one in case of a tie,
/// in table order. Publishes the score of each member and those who were
/// picked.
#[verifier::rlimit(40)]
pub fn best_of_ring(votes: &[Vote], cand: &Vec<Candidate>, ring: &Vec<bool>, is: &mut Introspector) -> (out:
    Vec<usize>)
    requires
        ring@.len() == cand@.len(),
        in_lists_linked(cand@),
        forall|d: int| 0 <= d < cand@.len() ==> (#[trigger] cand@[d]).vote < votes@.len(),
    ensures
        is_best_list(votes@, cand@, ring@, out@),
        (exists|c: int| 0 <= c < ring@.len() && ring@[c]) ==> out@.len() > 0,
        final(is).has_heard(*old(is), seq![best_of_ring_event(votes@, cand@, ring@, out@)]),
{
    let n = cand.len();
    let mut scores: Vec<(usize, u128)> = Vec::new();
    let mut winning_count: u128 = 0;
    let mut out: Vec<usize> = Vec::new();
    let mut c: usize = 0;
    while c < n
        invariant
            c <= n,
            n == cand@.len(),
            ring@.len() == n,
            in_lists_linked(cand@),
            forall|d: int| 0 <= d < cand@.len() ==> (#[trigger] cand@[d]).vote < votes@.len(),
            forall|d: int|
                0 <= d < c && ring@[d] ==> #[trigger] ring_score(votes@, cand@, ring@, d)
                    <= winning_count,
            forall|i: int|
                0 <= i < out@.len() ==> (#[trigger] out@[i]) < c && ring@[out@[i] as int]
                    && ring_score(votes@, cand@, ring@, out@[i] as int) == winning_count,
            forall|d: int|
                0 <= d < c && ring@[d] && #[trigger] ring_score(votes@, cand@, ring@, d)
                    == winning_count ==> exists|i: int| 0 <= i < out@.len() && out@[i] == d,
            forall|i: int, j: int| 0 <= i < j < out@.len() ==> out@[i] < out@[j],
            out@.len() == 0 ==> winning_count == 0,
            out@.len() == 0 ==> forall|d: int| 0 <= d < c ==> !ring@[d],
            scores@ == member_scores(votes@, cand@, ring@, c as int),
        decreases n - c,
    {
        if ring[c] {
            let score = ring_score_of(votes, cand, ring, c);
            push_score(&mut scores, cand[c].vote, score);
            if score >= winning_count {
                if score > winning_count {
                    out.clear();
                    winning_count = score;
                }
                let ghost before = out@;
                out.push(c);
                proof {
                    assert forall|d: int|
                        0 <= d < c + 1 && ring@[d] && #[trigger] ring_score(
                            votes@,
                            cand@,
                            ring@,
                            d,
                        ) == winning_count implies exists|i: int|
                        0 <= i < out@.len() && out@[i] == d by {
                        if d == c {
                            assert(out@[out@.len() - 1] == d);
                        } else {
                            let i = choose|i: int| 0 <= i < before.len() && before[i] == d;
                            assert(out@[i] == d);
                        }
                    }
                }
            }
        }
        c += 1;
    }
    proof {
        assert forall|i: int| 0 <= i < out@.len() implies is_ring_best(
            votes@,
            cand@,
            ring@,
            #[trigger] out@[i] as int,
        ) by {
            assert forall|d: int| 0 <= d < n && ring@[d] implies ring_score(
                votes@,
                cand@,
                ring@,
                d,
            ) <= ring_score(votes@, cand@, ring@, out@[i] as int) by {}
        }
        assert forall|b: int| #[trigger] is_ring_best(votes@, cand@, ring@, b) implies exists|
            i: int,
        |
            0 <= i < out@.len() && out@[i] == b by {
            assert(ring_score(votes@, cand@, ring@, b) <= winning_count);
            if ring_score(votes@, cand@, ring@, b) < winning_count {
                // somebody holds the winning count, so `b` is not the best
                if out@.len() > 0 {
                    assert(ring_score(votes@, cand@, ring@, out@[0] as int) == winning_count);
                    assert(false);
                } else {
                    assert(false);
                }
            }
        }
    }
    let ghost expected = best_of_ring_event(votes@, cand@, ring@, out@);
    if is.is_subscribed(EventKind::BestOfRing) {
        let mut winners: Vec<usize> = Vec::new();
        let mut i: usize = 0;
        while i < out.len()
            invariant
                i <= out@.len(),
                forall|j: int| 0 <= j < out@.len() ==> (#[trigger] out@[j]) < cand@.len(),
                winners@.len() == i,
                forall|j: int| 0 <= j < i ==> winners@[j] == cand@[out@[j] as int].vote,
            decreases out@.len() - i,
        {
            winners.push(cand[out[i]].vote);
            i += 1;
        }
        assert(winners@ =~= votes_of(cand@, out@));
        let event = Event::BestOfRing(BestOfRing { rings_member_scores: scores, winners });
        assert(event@ == expected);
        is.event(event);
    } else {
        proof {
            lemma_unheard(*is, expected);
        }
    }
    out
}

} // verus!
