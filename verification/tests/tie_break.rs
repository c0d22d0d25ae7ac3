use blake2::{Blake2b512, Digest};
use electorium::builder::mk_candidates;
use electorium::candidate::Candidate;
use electorium::delegation::compute_delegated_votes;
use electorium::introspector::{Event, EventKind, Introspector};
use electorium::tie_break::{hash_before, sort_by_hash, tie_breaker, tie_breaker_hash};
use electorium::{Vote, VoteCounter};

fn tied_vote(voter_id: &str, vote_for: &str, number_of_votes: u64, willing: bool) -> Vote {
    Vote {
        voter_id: voter_id.to_string(),
        vote_for: vote_for.to_string(),
        number_of_votes,
        willing_candidate: willing,
    }
}

fn tied_table(votes: &[Vote]) -> Vec<Candidate> {
    let mut cands: Vec<Candidate> = Vec::new();
    let mut is = Introspector::new();
    mk_candidates(votes, &mut cands, &mut is);
    compute_delegated_votes(votes, &mut cands, &mut is);
    cands
}

fn hex(bytes: &[u8]) -> String {
    let mut out = String::new();
    for b in bytes {
        out.push_str(&format!("{:02x}", b));
    }
    out
}

fn three_tied() -> Vec<Vote> {
    vec![
        tied_vote("tie/A", "", 1, true),
        tied_vote("tie/B", "", 1, true),
        tied_vote("tie/C", "", 1, true),
    ]
}

const HASH_A: &str = "de821c19df10a1c81c74cea602b4a5c54c0ac1be4f305f468ecec5c9ef18e93e3cb6f219e4890e8b164cbe8457373d61780d5b3c4b6038ff7563b8fbba206e0d";
const HASH_B: &str = "2e6366f6f85983a24754a605f337800caa05f40c5631ebe42e296aee9ac2d63e88e535c181a522c13a5c0c7837becb63642e1453a4d4245f50e9a9457f4837b0";
const HASH_C: &str = "a7c12cfb04d0af64087113aa99e3a1662edc8814dd5f8d708e38686b4f7b0a830b6a8403855a8ec9df6f5a591c0fa3f60025c7b88ddbca620c0cca0733d524d2";

#[test]
fn tie_breaker_hash_is_blake2b_of_the_id_and_the_total() {
    let votes = vec![tied_vote("Alice", "", 5, true), tied_vote("Bob", "", 5, true)];
    let cands = tied_table(&votes);
    let mut is = Introspector::new();
    let alice = tie_breaker_hash(&votes, &cands, 0, &mut is);
    let bob = tie_breaker_hash(&votes, &cands, 1, &mut is);
    assert_eq!(
        hex(&alice),
        "db6555c437dee4f1d21ec02ff8b61e566b6c0528eb18a3fa22bbc766751735f47841556336bb8839ad7f2b466ac18266ba40ec9a95ce3318a3c637a4ed26ab3f"
    );
    assert_eq!(
        hex(&bob),
        "cf5d6abe0f9c8892e5c863b6c5a9870bf646757c2b37954853d30ac24d6106fcded1cb02e5ce31659807ed07bc21d60012036111c84198b18aa1844f1bb85ce1"
    );
}

#[test]
fn tie_breaker_hash_takes_the_total_of_indirect_votes() {
    let votes = vec![tied_vote("A", "", 3, true), tied_vote("v", "A", 0x0102_0304, false)];
    let cands = tied_table(&votes);
    let mut is = Introspector::new();
    is.subscribe(EventKind::DeterministicTieBreakerHash);
    let hash = tie_breaker_hash(&votes, &cands, 0, &mut is);
    let mut preimage = b"A".to_vec();
    preimage.extend_from_slice(&[0x07, 0x03, 0x02, 0x01, 0, 0, 0, 0]);
    let expected: [u8; 64] = Blake2b512::digest(&preimage).into();
    assert_eq!(hash, expected);
    match &is.events()[0] {
        Event::DeterministicTieBreakerHash(h) => {
            assert_eq!(h.candidate, "A");
            assert_eq!(h.total_indirect_votes, 0x0102_0307);
            assert_eq!(h.bytes, preimage);
        }
        _ => panic!("what was hashed is published"),
    }
}

#[test]
fn tie_breaker_hash_takes_the_id_in_utf8() {
    let votes = vec![tied_vote("Zoë", "", 1, true)];
    let cands = tied_table(&votes);
    let mut is = Introspector::new();
    let hash = tie_breaker_hash(&votes, &cands, 0, &mut is);
    let mut preimage = vec![b'Z', b'o', 0xc3, 0xab];
    preimage.extend_from_slice(&1u64.to_le_bytes());
    let expected: [u8; 64] = Blake2b512::digest(&preimage).into();
    assert_eq!(hash, expected);
}

#[test]
fn hash_before_compares_byte_by_byte() {
    let mut a = [0u8; 64];
    let mut b = [0u8; 64];
    assert!(!hash_before(&a, &b));
    b[63] = 1;
    assert!(hash_before(&a, &b));
    assert!(!hash_before(&b, &a));
    a[0] = 1;
    assert!(hash_before(&b, &a));
    assert!(!hash_before(&a, &b));
    b[0] = 2;
    a[1] = 255;
    assert!(hash_before(&a, &b));
}

#[test]
fn tie_breaker_of_nobody_is_nobody_and_of_one_is_that_one() {
    let votes = three_tied();
    let cands = tied_table(&votes);
    let mut is = Introspector::new();
    is.subscribe(EventKind::DeterministicTieBreaker);
    is.subscribe(EventKind::DeterministicTieBreakerHash);
    assert_eq!(tie_breaker(&votes, &cands, &Vec::new(), &mut is), None);
    assert_eq!(tie_breaker(&votes, &cands, &vec![2], &mut is), Some(2));
    assert!(is.events().is_empty());
}

#[test]
fn tie_breaker_picks_the_smallest_hash() {
    let votes = three_tied();
    let cands = tied_table(&votes);
    let mut is = Introspector::new();
    is.subscribe(EventKind::DeterministicTieBreaker);
    is.subscribe(EventKind::DeterministicTieBreakerHash);
    assert_eq!(tie_breaker(&votes, &cands, &vec![0, 1, 2], &mut is), Some(1));
    assert_eq!(is.events().len(), 4);
    let mut hashed: Vec<String> = Vec::new();
    for e in &is.events()[0..3] {
        match e {
            Event::DeterministicTieBreakerHash(h) => hashed.push(h.candidate.clone()),
            _ => panic!("first what was hashed for each"),
        }
    }
    assert_eq!(hashed, vec!["tie/A", "tie/B", "tie/C"]);
    match &is.events()[3] {
        Event::DeterministicTieBreaker(t) => {
            assert_eq!(t.votes, 1);
            let order: Vec<(usize, String)> =
                t.tied_candidates.iter().map(|(v, h)| (*v, hex(h))).collect();
            assert_eq!(
                order,
                vec![
                    (1, HASH_B.to_string()),
                    (2, HASH_C.to_string()),
                    (0, HASH_A.to_string()),
                ]
            );
        }
        _ => panic!("then the tied candidates in order"),
    }
}

#[test]
fn tie_breaker_does_not_depend_on_the_order_of_the_tied() {
    let votes = three_tied();
    let cands = tied_table(&votes);
    let mut is = Introspector::new();
    assert_eq!(tie_breaker(&votes, &cands, &vec![2, 0], &mut is), Some(2));
    assert_eq!(tie_breaker(&votes, &cands, &vec![0, 2], &mut is), Some(2));
    assert_eq!(tie_breaker(&votes, &cands, &vec![2, 1, 0], &mut is), Some(1));
}

#[test]
fn find_winner_breaks_a_tie_by_hash() {
    let votes = three_tied();
    let mut vc = VoteCounter::new(&votes, Introspector::new());
    assert_eq!(vc.find_winner(), Some(1));
}

#[test]
fn find_winner_is_the_same_whoever_listens() {
    let votes = three_tied();
    let mut quiet = VoteCounter::new(&votes, Introspector::new());
    let mut is = Introspector::new();
    is.subscribe(EventKind::Winner);
    is.subscribe(EventKind::BestRing);
    is.subscribe(EventKind::DeterministicTieBreaker);
    let mut loud = VoteCounter::new(&votes, is);
    let mut other = Introspector::new();
    other.subscribe(EventKind::DeterministicTieBreakerHash);
    other.subscribe(EventKind::BestOfRing);
    other.subscribe(EventKind::Winner);
    let mut third = VoteCounter::new(&votes, other);
    let winner = quiet.find_winner();
    assert_eq!(loud.find_winner(), winner);
    assert_eq!(third.find_winner(), winner);
    assert_eq!(quiet.find_winner(), winner);
}

#[test]
fn sort_by_hash_orders_places_and_keeps_equals_in_order() {
    let mut low = [0u8; 64];
    low[0] = 1;
    let mut high = [0u8; 64];
    high[0] = 2;
    let mut mid = [0u8; 64];
    mid[0] = 1;
    mid[63] = 9;
    let hashes = vec![high, low, mid, low];
    assert_eq!(sort_by_hash(&hashes), vec![1, 3, 2, 0]);
    assert!(sort_by_hash(&Vec::new()).is_empty());
}
