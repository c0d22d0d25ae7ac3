use vstd::prelude::*;
use crate::candidate::{Candidate, link};

verus! {

/// Candidate `a` is ranked before candidate `b`: with more indirect votes
/// or, where these are equal, as the later of the two in the table.
pub open spec fn beats(cands: Seq<Candidate>, a: int, b: int) -> bool {
    cands[a].total_indirect_votes > cands[b].total_indirect_votes || (
    cands[a].total_indirect_votes == cands[b].total_indirect_votes && a > b)
}

/// `order` ranks the first `k` candidates of the table: each of them is in
/// it, and each one in it is ranked before all that follow.
pub open spec fn is_ranking(cands: Seq<Candidate>, k: int, order: Seq<int>) -> bool {
    &&& order.len() == k
    &&& forall|i: int| 0 <= i < k ==> 0 <= #[trigger] order[i] < k
    &&& forall|c: int| 0 <= c < k ==> #[trigger] order.contains(c)
    &&& forall|i: int, j: int|
        0 <= i < j < k ==> beats(cands, #[trigger] order[i], #[trigger] order[j])
}

/// The ranking links follow `order`: each candidate in it points at the
/// one after, the last at nobody.
pub open spec fn threaded(cands: Seq<Candidate>, order: Seq<int>) -> bool {
    forall|i: int|
        0 <= i < order.len() ==> link(cands[#[trigger] order[i]].next_by_total_indirect_votes)
            == (if i + 1 < order.len() {
            Some(order[i + 1])
        } else {
            None
        })
}

/// The ranking of the first `k` candidates of the table.
pub open spec fn ranking(cands: Seq<Candidate>, k: int) -> Seq<int> {
    choose|order: Seq<int>| is_ranking(cands, k, order)
}

/// The first `k` candidates are linked in the order of their ranking.
pub open spec fn rank_threaded(cands: Seq<Candidate>, k: int) -> bool {
    &&& 0 <= k <= cands.len()
    &&& is_ranking(cands, k, ranking(cands, k))
    &&& threaded(cands, ranking(cands, k))
}

/// The first `k` candidates are linked in the order of their ranking, and
/// `best` is the first of it.
pub open spec fn ranked(cands: Seq<Candidate>, k: int, best: Option<usize>) -> bool {
    &&& rank_threaded(cands, k)
    &&& link(best) == (if k > 0 {
        Some(ranking(cands, k)[0])
    } else {
        None
    })
}

proof fn lemma_ranking_prefix(cands: Seq<Candidate>, k: int, a: Seq<int>, b: Seq<int>, upto: int)
    requires
        is_ranking(cands, k, a),
        is_ranking(cands, k, b),
        0 <= upto <= k,
    ensures
        forall|i: int| 0 <= i < upto ==> a[i] == b[i],
    decreases upto,
{
    if upto > 0 {
        lemma_ranking_prefix(cands, k, a, b, upto - 1);
        let i = upto - 1;
        let x = a[i];
        let y = b[i];
        assert(b.contains(x));
        let j = choose|j: int| 0 <= j < b.len() && b[j] == x;
        assert(a.contains(y));
        let m = choose|m: int| 0 <= m < a.len() && a[m] == y;
        if j < i {
            assert(a[j] == b[j]);
            assert(beats(cands, a[j], a[i]));
        } else if m < i {
            assert(a[m] == b[m]);
            assert(beats(cands, b[m], b[i]));
        } else if j > i && m > i {
            assert(beats(cands, b[i], b[j]));
            assert(beats(cands, a[i], a[m]));
        }
    }
}

/// The first `k` candidates have one ranking only.
pub proof fn lemma_ranking_unique(cands: Seq<Candidate>, k: int, a: Seq<int>, b: Seq<int>)
    requires
        is_ranking(cands, k, a),
        is_ranking(cands, k, b),
    ensures
        a == b,
{
    lemma_ranking_prefix(cands, k, a, b, k);
    assert(a =~= b);
}

/// Candidate `c` is in `sorted`.
spec fn holds(sorted: Seq<usize>, c: int) -> bool {
    exists|a: int| 0 <= a < sorted.len() && sorted[a] == c
}

/// The candidates in `sorted` are the first `i` of the table, from the last
/// of the ranking to the first.
spec fn is_ascending(cands: Seq<Candidate>, i: int, sorted: Seq<usize>) -> bool {
    &&& sorted.len() == i
    &&& forall|a: int| 0 <= a < i ==> (#[trigger] sorted[a]) < i
    &&& forall|c: int| 0 <= c < i ==> #[trigger] holds(sorted, c)
    &&& forall|a: int, b: int|
        0 <= a < b < i ==> beats(cands, #[trigger] sorted[b] as int, #[trigger] sorted[a] as int)
}

/// Only the ranking links of the first `k` candidates differ.
pub open spec fn relinked(a: Seq<Candidate>, b: Seq<Candidate>, k: int) -> bool {
    &&& a.len() == b.len()
    &&& forall|c: int|
        0 <= c < a.len() ==> {
            &&& (#[trigger] a[c]).vote == b[c].vote
            &&& a[c].vote_for == b[c].vote_for
            &&& a[c].voting_for_same == b[c].voting_for_same
            &&& a[c].total_indirect_votes == b[c].total_indirect_votes
            &&& a[c].voted_for_me == b[c].voted_for_me
            &&& a[c].is_willing_candidate == b[c].is_willing_candidate
            &&& c >= k ==> a[c].next_by_total_indirect_votes == b[c].next_by_total_indirect_votes
        }
}

/// The first `k` candidates of the table from the fewest indirect votes to
/// the most; those with as many stay in table order.
fn sort_by_total(cand: &Vec<Candidate>, k: usize) -> (sorted: Vec<usize>)
    requires
        k <= cand@.len(),
    ensures
        is_ascending(cand@, k as int, sorted@),
{
    let mut sorted: Vec<usize> = Vec::new();
    let mut i: usize = 0;
    while i < k
        invariant
            i <= k <= cand@.len(),
            is_ascending(cand@, i as int, sorted@),
        decreases k - i,
    {
        let score = cand[i].total_indirect_votes;
        let mut p: usize = 0;
        while p < sorted.len() && cand[sorted[p]].total_indirect_votes <= score
            invariant
                i < k <= cand@.len(),
                p <= sorted@.len(),
                is_ascending(cand@, i as int, sorted@),
                score == cand@[i as int].total_indirect_votes,
                forall|a: int|
                    0 <= a < p ==> cand@[#[trigger] sorted@[a] as int].total_indirect_votes <= score,
            decreases sorted@.len() - p,
        {
            p += 1;
        }
        let ghost before = sorted@;
        sorted.insert(p, i);
        proof {
            let now = sorted@;
            assert(now == before.insert(p as int, i));
            assert forall|a: int| 0 <= a < i + 1 implies (#[trigger] now[a]) < i + 1 by {
                if a < p {
                    assert(now[a] == before[a]);
                } else if a > p {
                    assert(now[a] == before[a - 1]);
                }
            }
            assert forall|c: int| 0 <= c < i + 1 implies #[trigger] holds(now, c) by {
                if c == i {
                    assert(now[p as int] == c);
                } else {
                    assert(holds(before, c));
                    let a = choose|a: int| 0 <= a < before.len() && before[a] == c;
                    if a < p {
                        assert(now[a] == c);
                    } else {
                        assert(now[a + 1] == c);
                    }
                }
            }
            assert forall|a: int, b: int| 0 <= a < b < i + 1 implies beats(
                cand@,
                #[trigger] now[b] as int,
                #[trigger] now[a] as int,
            ) by {
                let a0 = if a < p { a } else { a - 1 };
                let b0 = if b < p { b } else { b - 1 };
                if a != p && b != p {
                    assert(now[a] == before[a0] && now[b] == before[b0]);
                    assert(beats(cand@, before[b0] as int, before[a0] as int));
                } else if a == p {
                    assert(now[b] == before[b0]);
                    if p < b0 {
                        assert(beats(cand@, before[b0] as int, before[p as int] as int));
                    }
                } else {
                    assert(now[a] == before[a0]);
                    assert(before[a0] < i);
                }
            }
        }
        i += 1;
    }
    sorted
}

/// Links the first `total_willing_candidates` candidates of the table by
/// their indirect votes, from the most to the fewest; of two with as many
/// the later in the table comes first. Returns the first of the list, the
/// candidate with the most, or nothing where none is willing.
pub fn order_by_total_indirect(cand: &mut Vec<Candidate>, total_willing_candidates: usize) -> (best:
    Option<usize>)
    requires
        total_willing_candidates <= old(cand)@.len(),
    ensures
        relinked(final(cand)@, old(cand)@, total_willing_candidates as int),
        ranked(final(cand)@, total_willing_candidates as int, best),
        best is Some <==> total_willing_candidates > 0,
{
    let k = total_willing_candidates;
    let sorted = sort_by_total(cand, k);
    let ghost start = cand@;
    let ghost order = Seq::new(k as nat, |i: int| sorted@[k - 1 - i] as int);
    if k == 0 {
        proof {
            assert(is_ranking(cand@, 0, order));
            lemma_ranking_unique(cand@, 0, order, ranking(cand@, 0));
        }
        return None;
    }
    let first = sorted[0];
    cand[first].next_by_total_indirect_votes = None;
    let mut j: usize = 1;
    while j < k
        invariant
            1 <= j <= k,
            k == sorted@.len(),
            k <= cand@.len(),
            is_ascending(start, k as int, sorted@),
            relinked(cand@, start, k as int),
            link(cand@[sorted@[0] as int].next_by_total_indirect_votes) is None,
            forall|a: int|
                1 <= a < j ==> cand@[#[trigger] sorted@[a] as int].next_by_total_indirect_votes
                    == Some(sorted@[a - 1]),
        decreases k - j,
    {
        let ghost prior = cand@;
        let idx = sorted[j];
        let below = sorted[j - 1];
        cand[idx].next_by_total_indirect_votes = Some(below);
        proof {
            assert(relinked(cand@, start, k as int)) by {
                assert forall|c: int| 0 <= c < cand@.len() implies (#[trigger] cand@[c]).vote
                    == start[c].vote && cand@[c].vote_for == start[c].vote_for
                    && cand@[c].voting_for_same == start[c].voting_for_same
                    && cand@[c].total_indirect_votes == start[c].total_indirect_votes
                    && cand@[c].voted_for_me == start[c].voted_for_me
                    && cand@[c].is_willing_candidate == start[c].is_willing_candidate && (c >= k
                    ==> cand@[c].next_by_total_indirect_votes
                    == start[c].next_by_total_indirect_votes) by {
                    assert(prior[c].vote == start[c].vote);
                }
            }
            assert forall|a: int| 0 <= a < j implies sorted@[a] != idx by {
                assert(beats(start, sorted@[j as int] as int, sorted@[a] as int));
            }
            assert forall|a: int| 1 <= a < j + 1 implies cand@[#[trigger] sorted@[a] as int].next_by_total_indirect_votes
                == Some(sorted@[a - 1]) by {
                if a < j {
                    assert(prior[sorted@[a] as int].next_by_total_indirect_votes == Some(
                        sorted@[a - 1],
                    ));
                }
            }
        }
        j += 1;
    }
    let best = sorted[k - 1];
    proof {
        assert(is_ranking(cand@, k as int, order)) by {
            assert forall|c: int| 0 <= c < k implies #[trigger] order.contains(c) by {
                assert(holds(sorted@, c));
                let a = choose|a: int| 0 <= a < sorted@.len() && sorted@[a] == c;
                assert(order[k - 1 - a] == c);
            }
            assert forall|i: int, j: int| 0 <= i < j < k implies beats(
                cand@,
                #[trigger] order[i],
                #[trigger] order[j],
            ) by {
                assert(beats(start, sorted@[k - 1 - i] as int, sorted@[k - 1 - j] as int));
                assert(cand@[order[i]].total_indirect_votes == start[order[i]].total_indirect_votes);
                assert(cand@[order[j]].total_indirect_votes == start[order[j]].total_indirect_votes);
            }
        }
        assert(threaded(cand@, order)) by {
            assert forall|i: int| 0 <= i < order.len() implies link(
                cand@[#[trigger] order[i]].next_by_total_indirect_votes,
            ) == (if i + 1 < order.len() {
                Some(order[i + 1])
            } else {
                None
            }) by {
                let a = k - 1 - i;
                assert(order[i] == sorted@[a]);
                if a >= 1 {
                    assert(cand@[sorted@[a] as int].next_by_total_indirect_votes == Some(
                        sorted@[a - 1],
                    ));
                }
            }
        }
        lemma_ranking_unique(cand@, k as int, order, ranking(cand@, k as int));
    }
    Some(best)
}

} // verus!
