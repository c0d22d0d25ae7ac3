use electorium::builder::mk_candidates;
use electorium::candidate::Candidate;
use electorium::delegation::compute_delegated_votes;
use electorium::introspector::{Event, EventKind, Introspector};
use electorium::ranking::order_by_total_indirect;
use electorium::ring::{best_of_ring, compute_ring_members, get_best_candidates};
use electorium::{Vote, VoteCounter};

fn ring_vote(voter_id: &str, vote_for: &str, number_of_votes: u64, willing: bool) -> Vote {
    Vote {
        voter_id: voter_id.to_string(),
        vote_for: vote_for.to_string(),
        number_of_votes,
        willing_candidate: willing,
    }
}

fn counted_table(votes: &[Vote]) -> (Vec<Candidate>, usize, usize) {
    let mut cands: Vec<Candidate> = Vec::new();
    let mut is = Introspector::new();
    let willing = mk_candidates(votes, &mut cands, &mut is);
    compute_delegated_votes(votes, &mut cands, &mut is);
    let best = order_by_total_indirect(&mut cands, willing);
    (cands, willing, best.expect("a willing candidate"))
}

fn classic_ring() -> Vec<Vote> {
    vec![
        ring_vote("Alice", "Bob", 1, true),
        ring_vote("Bob", "Alice", 1, true),
        ring_vote("Charlie", "Alice", 1, true),
        ring_vote("v0", "Bob", 3, false),
        ring_vote("v1", "Charlie", 4, false),
    ]
}

#[test]
fn best_candidates_are_those_with_the_top_score() {
    let votes = classic_ring();
    let (cands, willing, best) = counted_table(&votes);
    let mut is = Introspector::new();
    is.subscribe(EventKind::BestRing);
    let (ring, ring_count) = get_best_candidates(&cands, best, willing, &mut is);
    assert_eq!(ring, vec![true, true, false, false, false]);
    assert_eq!(ring_count, 1);
    assert_eq!(is.events().len(), 1);
    match &is.events()[0] {
        Event::BestRing(r) => {
            assert_eq!(r.best_total_delegated_votes, 10);
            assert_eq!(r.best_rings_members, vec![vec![0, 1]]);
        }
        _ => panic!("the best ring is published"),
    }
}

#[test]
fn ring_members_follow_the_delegations_from_the_first() {
    let votes = vec![
        ring_vote("A", "B", 1, true),
        ring_vote("B", "C", 1, true),
        ring_vote("C", "A", 1, true),
    ];
    let (cands, _, _) = counted_table(&votes);
    let rings = compute_ring_members(&cands, &vec![true, true, true]);
    assert_eq!(rings, vec![vec![0, 1, 2]]);
}

#[test]
fn ring_members_fall_into_as_many_rings_as_are_apart() {
    let votes = vec![
        ring_vote("A", "B", 1, true),
        ring_vote("B", "A", 1, true),
        ring_vote("C", "D", 1, true),
        ring_vote("D", "C", 1, true),
        ring_vote("E", "", 2, true),
    ];
    let (cands, willing, best) = counted_table(&votes);
    let mut is = Introspector::new();
    let (ring, ring_count) = get_best_candidates(&cands, best, willing, &mut is);
    assert_eq!(ring, vec![true, true, true, true, true]);
    assert_eq!(ring_count, 3);
    let rings = compute_ring_members(&cands, &ring);
    assert_eq!(rings, vec![vec![0, 1], vec![2, 3], vec![4]]);
}

#[test]
fn ring_members_gather_a_voter_of_the_first() {
    // B delegates to A, A to nobody: the ring of A takes B from A's voters
    let votes = vec![ring_vote("A", "", 0, true), ring_vote("B", "A", 0, true)];
    let (cands, _, _) = counted_table(&votes);
    let rings = compute_ring_members(&cands, &vec![true, true]);
    assert_eq!(rings, vec![vec![0, 1]]);
}

#[test]
fn ring_members_leave_the_other_voters_of_the_first_once_one_is_taken() {
    // B and C both delegate to A; the ring of A takes C, the last voter,
    // and goes on among the voters of C, so B makes a ring of its own
    let votes = vec![
        ring_vote("A", "", 0, true),
        ring_vote("B", "A", 0, true),
        ring_vote("C", "A", 0, true),
    ];
    let (cands, _, _) = counted_table(&votes);
    let rings = compute_ring_members(&cands, &vec![true, true, true]);
    assert_eq!(rings, vec![vec![0, 2], vec![1]]);
}

#[test]
fn ring_members_of_no_marks_are_no_rings() {
    let votes = classic_ring();
    let (cands, _, _) = counted_table(&votes);
    let rings = compute_ring_members(&cands, &vec![false; 5]);
    assert!(rings.is_empty());
}

#[test]
fn find_winner_does_not_stop_on_a_fork_of_candidates_without_votes() {
    let votes = vec![
        ring_vote("A", "", 0, true),
        ring_vote("B", "A", 0, true),
        ring_vote("C", "A", 0, true),
    ];
    let mut vc = VoteCounter::new(&votes, Introspector::new());
    let winner = vc.find_winner();
    assert!(winner.is_some());
}

#[test]
fn best_of_ring_scores_each_member_without_the_ring() {
    let votes = classic_ring();
    let (cands, willing, best) = counted_table(&votes);
    let mut quiet = Introspector::new();
    let (ring, _) = get_best_candidates(&cands, best, willing, &mut quiet);
    let mut is = Introspector::new();
    is.subscribe(EventKind::BestOfRing);
    let winners = best_of_ring(&votes, &cands, &ring, &mut is);
    assert_eq!(winners, vec![0]);
    match &is.events()[0] {
        Event::BestOfRing(b) => {
            // Alice: her own vote and the 5 of Charlie; Bob: his own and the 3 of v0
            assert_eq!(b.rings_member_scores, vec![(0, 6), (1, 4)]);
            assert_eq!(b.winners, vec![0]);
        }
        _ => panic!("the best of the ring is published"),
    }
}

#[test]
fn best_of_ring_returns_all_who_tie() {
    let votes = vec![
        ring_vote("A", "B", 2, true),
        ring_vote("B", "A", 2, true),
        ring_vote("v0", "A", 3, false),
        ring_vote("v1", "B", 3, false),
    ];
    let (cands, willing, best) = counted_table(&votes);
    let mut is = Introspector::new();
    let (ring, ring_count) = get_best_candidates(&cands, best, willing, &mut is);
    assert_eq!(ring_count, 1);
    assert_eq!(best_of_ring(&votes, &cands, &ring, &mut is), vec![0, 1]);
}

#[test]
fn best_of_ring_counts_the_indirect_votes_of_outside_voters() {
    // D delegates to C and C to A: A's score without the ring has all of C's total
    let votes = vec![
        ring_vote("A", "B", 1, true),
        ring_vote("B", "A", 1, true),
        ring_vote("C", "A", 10, false),
        ring_vote("D", "C", 100, false),
        ring_vote("E", "B", 50, false),
    ];
    let (cands, willing, best) = counted_table(&votes);
    let mut quiet = Introspector::new();
    let (ring, _) = get_best_candidates(&cands, best, willing, &mut quiet);
    let mut is = Introspector::new();
    is.subscribe(EventKind::BestOfRing);
    let winners = best_of_ring(&votes, &cands, &ring, &mut is);
    assert_eq!(winners, vec![0]);
    match &is.events()[0] {
        Event::BestOfRing(b) => assert_eq!(b.rings_member_scores, vec![(0, 111), (1, 51)]),
        _ => panic!("the best of the ring is published"),
    }
}

#[test]
fn best_of_ring_of_an_empty_ring_is_empty() {
    let votes = classic_ring();
    let (cands, _, _) = counted_table(&votes);
    let mut is = Introspector::new();
    assert!(best_of_ring(&votes, &cands, &vec![false; 5], &mut is).is_empty());
}
