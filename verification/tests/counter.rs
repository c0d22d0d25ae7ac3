use electorium::builder::mk_candidates;
use electorium::counter::{ballot_fits, compute_winner, elect};
use electorium::delegation::compute_delegated_votes;
use electorium::ranking::order_by_total_indirect;
use electorium::introspector::{Event, EventKind, Introspector};
use electorium::{Vote, VoteCounter};

fn counted_vote(voter_id: &str, vote_for: &str, number_of_votes: u64, willing: bool) -> Vote {
    Vote {
        voter_id: voter_id.to_string(),
        vote_for: vote_for.to_string(),
        number_of_votes,
        willing_candidate: willing,
    }
}

fn charlie_ballot() -> Vec<Vote> {
    vec![
        counted_vote("Alice", "Bob", 1, true),
        counted_vote("Bob", "Alice", 1, true),
        counted_vote("Charlie", "Alice", 1, true),
        counted_vote("v0", "Bob", 1, false),
        counted_vote("v1", "Charlie", 4, false),
    ]
}

fn everything() -> Introspector {
    let mut is = Introspector::new();
    is.subscribe(EventKind::VoteDelegation);
    is.subscribe(EventKind::VoteDelegationRing);
    is.subscribe(EventKind::InvalidVote);
    is.subscribe(EventKind::BestRing);
    is.subscribe(EventKind::BestOfRing);
    is.subscribe(EventKind::PatronSelection);
    is.subscribe(EventKind::DeterministicTieBreaker);
    is.subscribe(EventKind::DeterministicTieBreakerHash);
    is.subscribe(EventKind::Winner);
    is
}

#[test]
fn compute_winner_names_the_winner() {
    assert_eq!(compute_winner(&charlie_ballot()), "Charlie");
}

#[test]
fn compute_winner_of_nobody_is_the_empty_name() {
    assert_eq!(compute_winner(&[]), "");
    let votes = vec![counted_vote("v", "w", 5, false)];
    assert_eq!(compute_winner(&votes), "");
}

#[test]
fn find_winner_gives_the_place_of_the_winning_vote() {
    let votes = vec![
        counted_vote("v", "B", 5, false),
        counted_vote("A", "", 1, true),
        counted_vote("B", "", 1, true),
    ];
    let mut vc = VoteCounter::new(&votes, Introspector::new());
    assert_eq!(vc.find_winner(), Some(2));
}

#[test]
fn find_winner_publishes_the_winner_last() {
    let votes = charlie_ballot();
    let mut vc = VoteCounter::new(&votes, everything());
    assert_eq!(vc.find_winner(), Some(2));
    let events = vc.introspector().events();
    match events.last() {
        Some(Event::Winner(Some(w))) => {
            assert_eq!(w.candidate, 2);
            assert_eq!(w.votes, 5);
        }
        _ => panic!("the winner is published last"),
    }
    let kinds: Vec<EventKind> = events.iter().map(|e| e.kind()).collect();
    let found: Vec<EventKind> =
        kinds.iter().copied().filter(|k| *k != EventKind::VoteDelegation
            && *k != EventKind::VoteDelegationRing
            && *k != EventKind::InvalidVote).collect();
    assert_eq!(
        found,
        vec![
            EventKind::BestRing,
            EventKind::BestOfRing,
            EventKind::PatronSelection,
            EventKind::PatronSelection,
            EventKind::Winner,
        ]
    );
}

#[test]
fn find_winner_publishes_that_nobody_won() {
    let votes = vec![counted_vote("v", "", 1, false)];
    let mut vc = VoteCounter::new(&votes, everything());
    assert_eq!(vc.find_winner(), None);
    assert!(matches!(vc.introspector().events().last(), Some(Event::Winner(None))));
}

#[test]
fn find_winner_skips_the_patron_where_the_best_fall_into_two_rings() {
    // A and B tie at the top in rings of their own; P gave A nearly all
    let votes = vec![
        counted_vote("A", "", 1, true),
        counted_vote("B", "", 10, true),
        counted_vote("P", "A", 9, true),
    ];
    let mut vc = VoteCounter::new(&votes, everything());
    let winner = vc.find_winner().expect("a winner");
    assert!(winner == 0 || winner == 1);
    for e in vc.introspector().events() {
        assert!(e.kind() != EventKind::PatronSelection);
    }
}

#[test]
fn elect_finds_the_winner_of_a_counted_table() {
    let votes = charlie_ballot();
    let mut cands = Vec::new();
    let mut is = Introspector::new();
    let willing = mk_candidates(&votes, &mut cands, &mut is);
    compute_delegated_votes(&votes, &mut cands, &mut is);
    let best = order_by_total_indirect(&mut cands, willing).expect("a willing candidate");
    assert_eq!(elect(&votes, &cands, willing, best, &mut is), 2);
}

#[test]
fn revoke_vote_takes_back_the_delegation_of_the_winner() {
    let votes = charlie_ballot();
    let mut vc = VoteCounter::new(&votes, Introspector::new());
    assert_eq!(vc.iter(), vec![(8, 1), (8, 0), (5, 2)]);
    vc.revoke_vote(2);
    // Charlie keeps 5; Alice and Bob lose them
    assert_eq!(vc.iter(), vec![(5, 2), (3, 1), (3, 0)]);
}

#[test]
fn revoke_vote_keeps_the_winner_on_top() {
    let votes = charlie_ballot();
    let mut vc = VoteCounter::new(&votes, Introspector::new());
    let winner = vc.find_winner().expect("a winner");
    vc.revoke_vote(winner);
    let rows = vc.iter();
    let at = rows.iter().position(|(_, v)| *v == winner).expect("the winner is ranked");
    for row in &rows[..at] {
        assert!(row.0 >= rows[at].0);
    }
    assert_eq!(rows[at].0, rows[0].0);
}

#[test]
fn revoke_vote_keeps_the_willing_candidates() {
    let votes = charlie_ballot();
    let mut vc = VoteCounter::new(&votes, Introspector::new());
    let mut before: Vec<usize> = vc.iter().iter().map(|(_, v)| *v).collect();
    vc.revoke_vote(0);
    vc.revoke_vote(1);
    let mut after: Vec<usize> = vc.iter().iter().map(|(_, v)| *v).collect();
    before.sort();
    after.sort();
    assert_eq!(before, after);
    assert_eq!(after, vec![0, 1, 2]);
}

#[test]
fn revoke_vote_stays_revoked() {
    let votes = charlie_ballot();
    let mut vc = VoteCounter::new(&votes, Introspector::new());
    vc.revoke_vote(2);
    vc.revoke_vote(0);
    // Alice no longer delegates to Bob, nor Charlie to Alice: Alice has her
    // own vote, Bob's and the one that came to Bob
    assert_eq!(vc.iter(), vec![(5, 2), (3, 0), (2, 1)]);
}

#[test]
fn revoke_vote_of_a_vote_that_is_no_candidate_changes_nothing() {
    let votes = vec![
        counted_vote("A", "", 1, true),
        counted_vote("A", "B", 7, true),
        counted_vote("B", "A", 2, true),
    ];
    let mut vc = VoteCounter::new(&votes, Introspector::new());
    let before = vc.iter();
    vc.revoke_vote(1);
    assert_eq!(vc.iter(), before);
    vc.revoke_vote(99);
    assert_eq!(vc.iter(), before);
}

#[test]
fn revoke_vote_publishes_the_delegations_again() {
    let votes = vec![counted_vote("A", "", 1, true), counted_vote("B", "A", 1, true)];
    let mut is = Introspector::new();
    is.subscribe(EventKind::VoteDelegation);
    let mut vc = VoteCounter::new(&votes, is);
    assert_eq!(vc.introspector().events().len(), 1);
    vc.revoke_vote(0);
    assert_eq!(vc.introspector().events().len(), 2);
    vc.revoke_vote(1);
    assert_eq!(vc.introspector().events().len(), 2);
}

#[test]
fn new_takes_votes_up_to_the_largest_score() {
    let votes = vec![
        counted_vote("A", "", u64::MAX - 5, true),
        counted_vote("B", "A", 5, true),
    ];
    let mut vc = VoteCounter::new(&votes, Introspector::new());
    assert_eq!(vc.iter(), vec![(u64::MAX, 0), (5, 1)]);
    assert_eq!(vc.find_winner(), Some(0));
}

#[test]
fn take_events_hands_out_what_was_recorded() {
    let votes = vec![counted_vote("A", "", 1, true), counted_vote("B", "A", 1, true)];
    let mut vc = VoteCounter::new(&votes, everything());
    let built = vc.take_events();
    // A names nobody; B delegates to A
    assert_eq!(built.len(), 2);
    assert!(vc.introspector().events().is_empty());
    assert_eq!(vc.find_winner(), Some(0));
    let found = vc.take_events();
    assert!(matches!(found.last(), Some(Event::Winner(Some(_)))));
    assert_eq!(vc.iter(), vec![(2, 0), (1, 1)]);
}

#[test]
fn ballot_fits_while_the_votes_fit_a_score() {
    assert!(ballot_fits(&[]));
    let mut votes = vec![
        counted_vote("A", "", u64::MAX - 5, true),
        counted_vote("B", "A", 5, true),
    ];
    assert!(ballot_fits(&votes));
    votes.push(counted_vote("C", "", 0, false));
    assert!(ballot_fits(&votes));
    votes.push(counted_vote("B", "", 1, false));
    assert!(!ballot_fits(&votes));
}
