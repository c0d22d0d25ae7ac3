use vstd::prelude::*;
use vstd::bytes::{spec_u64_to_le_bytes, u64_to_le_bytes};
use vstd::slice::slice_to_vec;
use vstd::utf8::encode_utf8;
use blake2::{Blake2b512, Digest};
use crate::types::Vote;
use crate::candidate::Candidate;
use crate::introspector::{
    DeterministicTieBreaker,
    DeterministicTieBreakerHash,
    Event,
    EventKind,
    EventView,
    Introspector,
    lemma_heard_more,
    lemma_heard_nothing,
    lemma_unheard,
};

verus! {

/// The BLAKE2b digest of 512 bits of `data`.
pub uninterp spec fn blake2b_512(data: Seq<u8>) -> Seq<u8>;

/// Calls `Blake2b512::digest` of the blake2 crate, which hashes the whole
/// of `data` at once. The contract claims that what comes back is the
/// BLAKE2b-512 digest of these bytes, which is a function of the bytes
/// alone.
#[verifier::external_body]
fn blake2b_512_digest(data: &Vec<u8>) -> (hash: [u8; 64])
    ensures
        hash@ == blake2b_512(data@),
{
    Blake2b512::digest(data).into()
}

/// The bytes that are hashed for a candidate: the voter's ID in UTF-8,
/// then the total of indirect votes as 8 bytes, the lowest first.
pub open spec fn tie_breaker_preimage(voter_id: Seq<char>, total_indirect_votes: u64) -> Seq<u8> {
    encode_utf8(voter_id) + spec_u64_to_le_bytes(total_indirect_votes)
}

/// The hash of candidate `c` for the tie breaker.
pub open spec fn tie_hash(votes: Seq<Vote>, cands: Seq<Candidate>, c: int) -> Seq<u8> {
    blake2b_512(
        tie_breaker_preimage(
            votes[cands[c].vote as int].voter_id@,
            cands[c].total_indirect_votes,
        ),
    )
}

/// A digest read as a number, its first byte the most significant. Of two
/// digests of one length the one that has the lower byte where they first
/// differ has the lower rank.
pub open spec fn digest_rank(h: Seq<u8>) -> nat
    decreases h.len(),
{
    if h.len() == 0 {
        0
    } else {
        digest_rank(h.drop_last()) * 256 + h.last() as nat
    }
}

/// Digests compare by rank as they do byte by byte.
pub proof fn lemma_rank_first_difference(a: Seq<u8>, b: Seq<u8>, i: int)
    requires
        a.len() == b.len(),
        0 <= i < a.len(),
        forall|j: int| 0 <= j < i ==> a[j] == b[j],
        a[i] < b[i],
    ensures
        digest_rank(a) < digest_rank(b),
    decreases a.len(),
{
    if i == a.len() - 1 {
        assert(a.drop_last() =~= b.drop_last());
    } else {
        lemma_rank_first_difference(a.drop_last(), b.drop_last(), i);
    }
}

/// Does the digest `a` come before the digest `b`?
pub fn hash_before(a: &[u8; 64], b: &[u8; 64]) -> (before: bool)
    ensures
        before == (digest_rank(a@) < digest_rank(b@)),
{
    let mut i: usize = 0;
    while i < 64
        invariant
            i <= 64,
            forall|j: int| 0 <= j < i ==> a@[j] == b@[j],
        decreases 64 - i,
    {
        if a[i] != b[i] {
            proof {
                if a@[i as int] < b@[i as int] {
                    lemma_rank_first_difference(a@, b@, i as int);
                } else {
                    lemma_rank_first_difference(b@, a@, i as int);
                }
            }
            return a[i] < b[i];
        }
        i += 1;
    }
    assert(a@ =~= b@);
    false
}

/// The event that tells what is hashed for candidate `c`.
pub open spec fn hash_event(votes: Seq<Vote>, cands: Seq<Candidate>, c: int) -> EventView {
    EventView::DeterministicTieBreakerHash {
        candidate: votes[cands[c].vote as int].voter_id@,
        bytes: tie_breaker_preimage(
            votes[cands[c].vote as int].voter_id@,
            cands[c].total_indirect_votes,
        ),
        total_indirect_votes: cands[c].total_indirect_votes,
    }
}

/// Hashes candidate `c` for the tie breaker: BLAKE2b-512 of the voter's
/// ID followed by the total of indirect votes in little endian. Publishes
/// what was hashed.
pub fn tie_breaker_hash(votes: &[Vote], cand: &Vec<Candidate>, c: usize, is: &mut Introspector) -> (hash:
    [u8; 64])
    requires
        c < cand@.len(),
        cand@[c as int].vote < votes@.len(),
    ensures
        hash@ == tie_hash(votes@, cand@, c as int),
        final(is).has_heard(*old(is), seq![hash_event(votes@, cand@, c as int)]),
{
    let name = &votes[cand[c].vote].voter_id;
    let total = cand[c].total_indirect_votes;
    let mut buf = slice_to_vec(name.as_str().as_bytes());
    let le = u64_to_le_bytes(total);
    let ghost head = buf@;
    let mut i: usize = 0;
    while i < 8
        invariant
            i <= 8,
            le@.len() == 8,
            buf@ == head + le@.subrange(0, i as int),
        decreases 8 - i,
    {
        buf.push(le[i]);
        assert(buf@ =~= head + le@.subrange(0, i as int + 1));
        i += 1;
    }
    assert(buf@ =~= tie_breaker_preimage(name@, total));
    let hash = blake2b_512_digest(&buf);
    if is.is_subscribed(EventKind::DeterministicTieBreakerHash) {
        let event = Event::DeterministicTieBreakerHash(
            DeterministicTieBreakerHash {
                candidate: name.clone(),
                total_indirect_votes: total,
                bytes: buf,
            },
        );
        assert(event@ == hash_event(votes@, cand@, c as int));
        is.event(event);
    } else {
        proof {
            lemma_unheard(*is, hash_event(votes@, cand@, c as int));
        }
    }
    hash
}

/// Place `x` comes before place `y`: its hash has the lower rank or, with
/// the same hash, it is the earlier place.
pub open spec fn earlier(hashes: Seq<Seq<u8>>, x: int, y: int) -> bool {
    digest_rank(hashes[x]) < digest_rank(hashes[y]) || (digest_rank(hashes[x]) == digest_rank(
        hashes[y],
    ) && x < y)
}

/// Place `c` is in `sorted`.
pub open spec fn holds(sorted: Seq<usize>, c: int) -> bool {
    exists|a: int| 0 <= a < sorted.len() && sorted[a] == c
}

/// `sorted` holds the first `i` places in the order of their hashes.
pub open spec fn is_hash_order(hashes: Seq<Seq<u8>>, i: int, sorted: Seq<usize>) -> bool {
    &&& sorted.len() == i
    &&& forall|a: int| 0 <= a < i ==> (#[trigger] sorted[a]) < i
    &&& forall|c: int| 0 <= c < i ==> #[trigger] holds(sorted, c)
    &&& forall|a: int, b: int|
        0 <= a < b < i ==> earlier(hashes, #[trigger] sorted[a] as int, #[trigger] sorted[b] as int)
}

/// The places of `hashes` in the order of their hashes.
pub open spec fn hash_order(hashes: Seq<Seq<u8>>) -> Seq<usize> {
    choose|sorted: Seq<usize>| is_hash_order(hashes, hashes.len() as int, sorted)
}

proof fn lemma_hash_order_prefix(
    hashes: Seq<Seq<u8>>,
    n: int,
    a: Seq<usize>,
    b: Seq<usize>,
    upto: int,
)
    requires
        is_hash_order(hashes, n, a),
        is_hash_order(hashes, n, b),
        0 <= upto <= n,
    ensures
        forall|i: int| 0 <= i < upto ==> a[i] == b[i],
    decreases upto,
{
    if upto > 0 {
        lemma_hash_order_prefix(hashes, n, a, b, upto - 1);
        let i = upto - 1;
        let x = a[i];
        let y = b[i];
        assert(holds(b, x as int));
        let j = choose|j: int| 0 <= j < b.len() && b[j] == x as int;
        assert(holds(a, y as int));
        let m = choose|m: int| 0 <= m < a.len() && a[m] == y as int;
        if j < i {
            assert(a[j] == b[j]);
            assert(earlier(hashes, a[j] as int, a[i] as int));
        } else if m < i {
            assert(a[m] == b[m]);
            assert(earlier(hashes, b[m] as int, b[i] as int));
        } else if j > i && m > i {
            assert(earlier(hashes, b[i] as int, b[j] as int));
            assert(earlier(hashes, a[i] as int, a[m] as int));
        }
    }
}

/// Hashes have one order only.
pub proof fn lemma_hash_order_unique(hashes: Seq<Seq<u8>>, a: Seq<usize>)
    requires
        is_hash_order(hashes, hashes.len() as int, a),
    ensures
        a == hash_order(hashes),
{
    lemma_hash_order_prefix(hashes, hashes.len() as int, a, hash_order(hashes), hashes.len() as int);
    assert(a =~= hash_order(hashes));
}

/// The hashes as sequences of bytes.
pub open spec fn views(hashes: Seq<[u8; 64]>) -> Seq<Seq<u8>> {
    hashes.map_values(|h: [u8; 64]| h@)
}

/// The places of `hashes` ordered by hash, the smallest first; places
/// with the same hash keep their order.
#[verifier::rlimit(40)]
pub fn sort_by_hash(hashes: &Vec<[u8; 64]>) -> (sorted: Vec<usize>)
    ensures
        sorted@ == hash_order(views(hashes@)),
        is_hash_order(views(hashes@), hashes@.len() as int, sorted@),
{
    let ghost h = views(hashes@);
    let n = hashes.len();
    let mut sorted: Vec<usize> = Vec::new();
    let mut i: usize = 0;
    while i < n
        invariant
            i <= n,
            n == hashes@.len(),
            h == views(hashes@),
            is_hash_order(h, i as int, sorted@),
        decreases n - i,
    {
        let mut p: usize = 0;
        while p < sorted.len() && !hash_before(&hashes[i], &hashes[sorted[p]])
            invariant
                i < n,
                n == hashes@.len(),
                h == views(hashes@),
                p <= sorted@.len(),
                is_hash_order(h, i as int, sorted@),
                forall|a: int|
                    0 <= a < p ==> digest_rank(h[#[trigger] sorted@[a] as int]) <= digest_rank(
                        h[i as int],
                    ),
            decreases sorted@.len() - p,
        {
            p += 1;
        }
        let ghost before = sorted@;
        sorted.insert(p, i);
        proof {
            let now = sorted@;
            assert(now == before.insert(p as int, i));
            assert forall|a: int| 0 <= a < i + 1 implies (#[trigger] now[a]) < i + 1 by {
                if a < p {
                    assert(now[a] == before[a]);
                } else if a > p {
                    assert(now[a] == before[a - 1]);
                }
            }
            assert forall|c: int| 0 <= c < i + 1 implies #[trigger] holds(now, c) by {
                if c == i {
                    assert(now[p as int] == c);
                } else {
                    assert(holds(before, c));
                    let a = choose|a: int| 0 <= a < before.len() && before[a] == c;
                    if a < p {
                        assert(now[a] == c);
                    } else {
                        assert(now[a + 1] == c);
                    }
                }
            }
            assert forall|a: int, b: int| 0 <= a < b < i + 1 implies earlier(
                h,
                #[trigger] now[a] as int,
                #[trigger] now[b] as int,
            ) by {
                let a0 = if a < p { a } else { a - 1 };
                let b0 = if b < p { b } else { b - 1 };
                if a != p && b != p {
                    assert(now[a] == before[a0] && now[b] == before[b0]);
                    assert(earlier(h, before[a0] as int, before[b0] as int));
                } else if a == p {
                    assert(now[b] == before[b0]);
                    if p < b0 {
                        assert(earlier(h, before[p as int] as int, before[b0] as int));
                    }
                } else {
                    assert(now[a] == before[a0]);
                    assert(before[a0] < i);
                }
            }
        }
        i += 1;
    }
    proof {
        assert(h.len() == n);
        lemma_hash_order_unique(h, sorted@);
    }
    sorted
}

/// The hashes of the tied candidates.
pub open spec fn tie_hashes(votes: Seq<Vote>, cands: Seq<Candidate>, winners: Seq<usize>) -> Seq<
    Seq<u8>,
> {
    Seq::new(winners.len(), |i: int| tie_hash(votes, cands, winners[i] as int))
}

/// Place `i` of the tied candidates wins the tie: it comes before every
/// other place.
pub open spec fn wins_tie(hashes: Seq<Seq<u8>>, i: int) -> bool {
    &&& 0 <= i < hashes.len()
    &&& forall|j: int| 0 <= j < hashes.len() && j != i ==> earlier(hashes, i, j)
}

/// The events that tell what is hashed for the first `upto` of the tied
/// candidates.
pub open spec fn hash_events(
    votes: Seq<Vote>,
    cands: Seq<Candidate>,
    winners: Seq<usize>,
    upto: int,
) -> Seq<EventView>
    decreases upto,
{
    if upto <= 0 {
        Seq::empty()
    } else {
        hash_events(votes, cands, winners, upto - 1).push(
            hash_event(votes, cands, winners[upto - 1] as int),
        )
    }
}

/// The event that tells the tied candidates in the order of their hashes,
/// each by their vote and with their hash, and the total of indirect
/// votes of the first.
pub open spec fn tie_event(votes: Seq<Vote>, cands: Seq<Candidate>, winners: Seq<usize>) -> EventView {
    let hashes = tie_hashes(votes, cands, winners);
    let order = hash_order(hashes);
    EventView::DeterministicTieBreaker {
        votes: cands[winners[order[0] as int] as int].total_indirect_votes,
        tied_candidates: Seq::new(
            winners.len(),
            |i: int| (cands[winners[order[i] as int] as int].vote, hashes[order[i] as int]),
        ),
    }
}

/// The events of the tie breaker: none where at most one candidate is
/// left; else what is hashed for each, and then the order.
pub open spec fn tie_events(votes: Seq<Vote>, cands: Seq<Candidate>, winners: Seq<usize>) -> Seq<
    EventView,
> {
    if winners.len() < 2 {
        Seq::empty()
    } else {
        hash_events(votes, cands, winners, winners.len() as int).push(
            tie_event(votes, cands, winners),
        )
    }
}

/// Picks one of the winners: the only one, or of several the one whose
/// hash comes first. Publishes what was hashed for each of the tied
/// candidates, and the candidates in the order of their hashes.
#[verifier::rlimit(40)]
pub fn tie_breaker(votes: &[Vote], cand: &Vec<Candidate>, winners: &Vec<usize>, is: &mut Introspector) -> (winner:
    Option<usize>)
    requires
        forall|i: int| 0 <= i < winners@.len() ==> (#[trigger] winners@[i]) < cand@.len(),
        forall|c: int| 0 <= c < cand@.len() ==> (#[trigger] cand@[c]).vote < votes@.len(),
    ensures
        winner is None <==> winners@.len() == 0,
        winner matches Some(w) ==> exists|i: int|
            wins_tie(tie_hashes(votes@, cand@, winners@), i) && winners@[i] == w,
        final(is).has_heard(*old(is), tie_events(votes@, cand@, winners@)),
{
    let n = winners.len();
    proof {
        lemma_heard_nothing(*is);
    }
    if n == 0 {
        return None;
    }
    if n == 1 {
        assert(wins_tie(tie_hashes(votes@, cand@, winners@), 0));
        return Some(winners[0]);
    }
    let ghost goal = tie_hashes(votes@, cand@, winners@);
    let mut hashes: Vec<[u8; 64]> = Vec::new();
    let mut i: usize = 0;
    while i < n
        invariant
            i <= n,
            n == winners@.len(),
            hashes@.len() == i,
            goal == tie_hashes(votes@, cand@, winners@),
            forall|j: int| 0 <= j < winners@.len() ==> (#[trigger] winners@[j]) < cand@.len(),
            forall|c: int| 0 <= c < cand@.len() ==> (#[trigger] cand@[c]).vote < votes@.len(),
            forall|j: int| 0 <= j < i ==> (#[trigger] hashes@[j])@ == goal[j],
            is.has_heard(*old(is), hash_events(votes@, cand@, winners@, i as int)),
        decreases n - i,
    {
        let ghost heard = *is;
        let hash = tie_breaker_hash(votes, cand, winners[i], is);
        proof {
            let so_far = hash_events(votes@, cand@, winners@, i as int);
            let event = hash_event(votes@, cand@, winners@[i as int] as int);
            lemma_heard_more(*old(is), heard, *is, so_far, seq![event]);
            assert(so_far + seq![event] =~= so_far.push(event));
        }
        hashes.push(hash);
        i += 1;
    }
    assert(views(hashes@) =~= goal);
    let sorted = sort_by_hash(&hashes);
    let first = sorted[0];
    proof {
        assert forall|j: int| 0 <= j < goal.len() && j != first implies earlier(
            goal,
            first as int,
            j,
        ) by {
            assert(holds(sorted@, j));
            let a = choose|a: int| 0 <= a < sorted@.len() && sorted@[a] == j;
            assert(earlier(goal, sorted@[0] as int, sorted@[a] as int));
        }
        assert(wins_tie(goal, first as int));
        lemma_hash_order_unique(goal, sorted@);
    }
    let ghost heard = *is;
    let ghost expected = tie_event(votes@, cand@, winners@);
    if is.is_subscribed(EventKind::DeterministicTieBreaker) {
        let mut tied_candidates: Vec<(usize, [u8; 64])> = Vec::new();
        let mut j: usize = 0;
        while j < sorted.len()
            invariant
                j <= sorted@.len(),
                n == winners@.len(),
                sorted@.len() == n,
                hashes@.len() == n,
                tied_candidates@.len() == j,
                forall|a: int| 0 <= a < sorted@.len() ==> (#[trigger] sorted@[a]) < n,
                forall|a: int| 0 <= a < winners@.len() ==> (#[trigger] winners@[a]) < cand@.len(),
                forall|a: int|
                    0 <= a < j ==> (#[trigger] tied_candidates@[a]) == (
                        cand@[winners@[sorted@[a] as int] as int].vote,
                        hashes@[sorted@[a] as int],
                    ),
            decreases sorted@.len() - j,
        {
            let place = sorted[j];
            tied_candidates.push((cand[winners[place]].vote, hashes[place]));
            j += 1;
        }
        let event = Event::DeterministicTieBreaker(
            DeterministicTieBreaker {
                votes: cand[winners[first]].total_indirect_votes,
                tied_candidates,
            },
        );
        proof {
            let told = Seq::new(
                tied_candidates@.len(),
                |i: int| (tied_candidates@[i].0, tied_candidates@[i].1@),
            );
            let wanted = Seq::new(
                winners@.len(),
                |i: int|
                    (cand@[winners@[sorted@[i] as int] as int].vote, goal[sorted@[i] as int]),
            );
            assert(told =~= wanted) by {
                assert forall|i: int| 0 <= i < told.len() implies told[i] == wanted[i] by {
                    assert(hashes@[sorted@[i] as int]@ == goal[sorted@[i] as int]);
                }
            }
            assert(event@ == expected);
        }
        is.event(event);
    } else {
        proof {
            lemma_unheard(*is, expected);
        }
    }
    proof {
        let hashed = hash_events(votes@, cand@, winners@, n as int);
        lemma_heard_more(*old(is), heard, *is, hashed, seq![expected]);
        assert(hashed + seq![expected] =~= hashed.push(expected));
    }
    Some(winners[first])
}

} // verus!
