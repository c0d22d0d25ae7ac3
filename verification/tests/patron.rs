use electorium::builder::mk_candidates;
use electorium::candidate::Candidate;
use electorium::delegation::compute_delegated_votes;
use electorium::introspector::{Event, EventKind, Introspector, PatronSelectionReason};
use electorium::patron::{
    get_patron, get_potential_patron, get_runner_up, is_valid_patron, mk_patron_selection,
    solve_winner,
};
use electorium::ranking::order_by_total_indirect;
use electorium::ring::get_best_candidates;
use electorium::Vote;

fn patron_vote(voter_id: &str, vote_for: &str, number_of_votes: u64, willing: bool) -> Vote {
    Vote {
        voter_id: voter_id.to_string(),
        vote_for: vote_for.to_string(),
        number_of_votes,
        willing_candidate: willing,
    }
}

fn table_with_ring(votes: &[Vote]) -> (Vec<Candidate>, usize, Vec<bool>) {
    let mut cands: Vec<Candidate> = Vec::new();
    let mut is = Introspector::new();
    let willing = mk_candidates(votes, &mut cands, &mut is);
    compute_delegated_votes(votes, &mut cands, &mut is);
    let best = order_by_total_indirect(&mut cands, willing).expect("a willing candidate");
    let (ring, _) = get_best_candidates(&cands, best, willing, &mut is);
    (cands, willing, ring)
}

fn selections(is: &Introspector) -> Vec<(usize, u64, PatronSelectionReason)> {
    let mut out = Vec::new();
    for e in is.events() {
        match e {
            Event::PatronSelection(p) => {
                out.push((p.potential_patron, p.potential_patron_votes, p.selection))
            }
            _ => panic!("the search publishes patron selections only"),
        }
    }
    out
}

fn watching() -> Introspector {
    let mut is = Introspector::new();
    is.subscribe(EventKind::PatronSelection);
    is
}

fn tennessee() -> Vec<Vote> {
    vec![
        patron_vote("Memphis", "Nashville", 1, true),
        patron_vote("Nashville", "Chattanooga", 1, true),
        patron_vote("Knoxville", "Chattanooga", 1, true),
        patron_vote("Chattanooga", "Knoxville", 1, true),
        patron_vote("v0", "Memphis", 42_000, false),
        patron_vote("v1", "Nashville", 26_000, false),
        patron_vote("v2", "Knoxville", 15_000, false),
        patron_vote("v3", "Chattanooga", 17_000, false),
    ]
}

fn charlie() -> Vec<Vote> {
    vec![
        patron_vote("Alice", "Bob", 1, true),
        patron_vote("Bob", "Alice", 1, true),
        patron_vote("Charlie", "Alice", 1, true),
        patron_vote("v0", "Bob", 1, false),
        patron_vote("v1", "Charlie", 4, false),
    ]
}

#[test]
fn runner_up_is_the_first_after_the_winner_outside_the_ring() {
    let votes = tennessee();
    let (cands, willing, ring) = table_with_ring(&votes);
    assert_eq!(ring[2] && ring[3], true);
    // ranking: Chattanooga, Knoxville, Nashville, Memphis
    assert_eq!(get_runner_up(&cands, 3, &ring, willing), Some(1));
    assert_eq!(get_runner_up(&cands, 2, &ring, willing), Some(1));
    assert_eq!(get_runner_up(&cands, 1, &ring, willing), Some(0));
    assert_eq!(get_runner_up(&cands, 0, &ring, willing), None);
}

#[test]
fn potential_patron_is_the_strongest_voter_outside_the_ring() {
    let votes = tennessee();
    let (cands, _, ring) = table_with_ring(&votes);
    // Chattanooga has Nashville (68002), Knoxville (in the ring) and v3 (17000)
    assert_eq!(get_potential_patron(&cands, &ring, 3), Some(1));
    // Knoxville has Chattanooga (in the ring) and v2
    assert_eq!(get_potential_patron(&cands, &ring, 2), Some(6));
    // Memphis has v0 only, v0 has nobody
    assert_eq!(get_potential_patron(&cands, &ring, 0), Some(4));
    assert_eq!(get_potential_patron(&cands, &ring, 4), None);
}

#[test]
fn potential_patron_needs_votes() {
    let votes = vec![patron_vote("A", "", 3, true), patron_vote("v", "A", 0, false)];
    let (cands, _, ring) = table_with_ring(&votes);
    assert_eq!(get_potential_patron(&cands, &ring, 0), None);
}

#[test]
fn potential_patron_of_several_equals_is_the_last() {
    let votes = vec![
        patron_vote("A", "", 1, true),
        patron_vote("v0", "A", 5, false),
        patron_vote("v1", "A", 5, false),
        patron_vote("v2", "A", 4, false),
    ];
    let (cands, _, ring) = table_with_ring(&votes);
    assert_eq!(get_potential_patron(&cands, &ring, 0), Some(2));
}

#[test]
fn patron_must_hold_more_than_half_of_the_first_winner() {
    let votes = tennessee();
    let (cands, willing, ring) = table_with_ring(&votes);
    let mut is = watching();
    // Nashville holds 68002 of Chattanooga's 100004; Memphis, with 42001, holds
    // more than half of Nashville's but not of Chattanooga's
    assert_eq!(get_patron(&cands, 3, &ring, willing, &mut is), Some(1));
    assert_eq!(
        selections(&is),
        vec![
            (0, 42_001, PatronSelectionReason::NotProvidingMajority(50_002)),
            (1, 68_002, PatronSelectionReason::PatronFound),
        ]
    );
}

#[test]
fn patron_replaces_the_winner_of_the_ring() {
    let votes = charlie();
    let (cands, willing, ring) = table_with_ring(&votes);
    let mut is = watching();
    // Alice has 8, Charlie gave 5 of them
    assert_eq!(get_patron(&cands, 0, &ring, willing, &mut is), Some(2));
    assert_eq!(
        selections(&is),
        vec![
            (4, 4, PatronSelectionReason::NotWillingCandidate),
            (2, 5, PatronSelectionReason::PatronFound),
        ]
    );
}

#[test]
fn patron_must_hold_more_than_exactly_half() {
    let votes = vec![
        patron_vote("A", "", 1, true),
        patron_vote("B", "A", 1, true),
    ];
    let (cands, willing, ring) = table_with_ring(&votes);
    let mut is = watching();
    // A has 2, B has 1: half, not more
    assert_eq!(get_patron(&cands, 0, &ring, willing, &mut is), None);
    assert_eq!(selections(&is), vec![(1, 1, PatronSelectionReason::NotProvidingMajority(1))]);
}

#[test]
fn patron_must_beat_the_runner_up() {
    let votes = vec![
        patron_vote("A", "", 1, true),
        patron_vote("B", "A", 6, true),
        patron_vote("C", "", 6, true),
    ];
    let (cands, willing, ring) = table_with_ring(&votes);
    assert_eq!(ring, vec![true, false, false]);
    let mut is = watching();
    // A has 7, B gave 6 of them, but C, the runner up, has 6 as well
    let found = get_patron(&cands, 0, &ring, willing, &mut is);
    assert_eq!(found, None);
    assert_eq!(
        selections(&is),
        vec![(1, 6, PatronSelectionReason::NotBeatingSecondBest(6, 2))]
    );
}

#[test]
fn valid_patron_is_willing_holds_a_majority_and_beats_the_runner_up() {
    let votes = tennessee();
    let (cands, _, _) = table_with_ring(&votes);
    let mut is = watching();
    assert!(is_valid_patron(&cands, 3, 1, Some(0), &mut is));
    assert!(is_valid_patron(&cands, 3, 1, None, &mut is));
    assert!(is.events().is_empty());
    assert!(!is_valid_patron(&cands, 3, 5, None, &mut is));
    assert!(!is_valid_patron(&cands, 3, 0, None, &mut is));
    assert!(!is_valid_patron(&cands, 1, 0, Some(2), &mut is));
    assert_eq!(
        selections(&is),
        vec![
            (5, 26_000, PatronSelectionReason::NotWillingCandidate),
            (0, 42_001, PatronSelectionReason::NotProvidingMajority(50_002)),
            (0, 42_001, PatronSelectionReason::NotBeatingSecondBest(100_004, 2)),
        ]
    );
}

#[test]
fn patron_selection_tells_the_vote_and_the_score() {
    let votes = tennessee();
    let (cands, _, _) = table_with_ring(&votes);
    let event = mk_patron_selection(&cands, 1, PatronSelectionReason::PatronFound);
    assert_eq!(event.potential_patron, 1);
    assert_eq!(event.potential_patron_votes, 68_002);
    assert_eq!(event.selection, PatronSelectionReason::PatronFound);
}

#[test]
fn solve_winner_lets_a_single_winner_give_way_to_the_patron() {
    let votes = charlie();
    let (cands, willing, ring) = table_with_ring(&votes);
    let mut is = Introspector::new();
    assert_eq!(solve_winner(&cands, vec![0], &ring, willing, &mut is), vec![2]);
}

#[test]
fn solve_winner_keeps_a_winner_without_patron() {
    let votes = vec![
        patron_vote("Alice", "Bob", 1, true),
        patron_vote("Bob", "Alice", 1, true),
        patron_vote("Charlie", "Alice", 1, true),
        patron_vote("v0", "Bob", 3, false),
        patron_vote("v1", "Charlie", 4, false),
    ];
    let (cands, willing, ring) = table_with_ring(&votes);
    let mut is = watching();
    // Alice has 10, Charlie 5: half, not more
    assert_eq!(solve_winner(&cands, vec![0], &ring, willing, &mut is), vec![0]);
    assert_eq!(selections(&is), vec![(2, 5, PatronSelectionReason::NotProvidingMajority(5))]);
}

#[test]
fn solve_winner_leaves_several_winners_as_they_are() {
    let votes = charlie();
    let (cands, willing, ring) = table_with_ring(&votes);
    let mut is = watching();
    assert_eq!(solve_winner(&cands, vec![0, 1], &ring, willing, &mut is), vec![0, 1]);
    assert!(solve_winner(&cands, Vec::new(), &ring, willing, &mut is).is_empty());
    assert!(is.events().is_empty());
}
