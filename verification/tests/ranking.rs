use electorium::builder::mk_candidates;
use electorium::candidate::Candidate;
use electorium::delegation::compute_delegated_votes;
use electorium::introspector::Introspector;
use electorium::ranking::order_by_total_indirect;
use electorium::{Vote, VoteCounter};

fn ranked_vote(voter_id: &str, vote_for: &str, number_of_votes: u64, willing: bool) -> Vote {
    Vote {
        voter_id: voter_id.to_string(),
        vote_for: vote_for.to_string(),
        number_of_votes,
        willing_candidate: willing,
    }
}

fn ranked_table(votes: &[Vote]) -> (Vec<Candidate>, Option<usize>) {
    let mut cands: Vec<Candidate> = Vec::new();
    let mut is = Introspector::new();
    let willing = mk_candidates(votes, &mut cands, &mut is);
    compute_delegated_votes(votes, &mut cands, &mut is);
    let best = order_by_total_indirect(&mut cands, willing);
    (cands, best)
}

#[test]
fn ranking_links_the_willing_from_most_to_fewest() {
    let votes = vec![
        ranked_vote("A", "", 3, true),
        ranked_vote("B", "", 9, true),
        ranked_vote("C", "", 1, true),
        ranked_vote("voter", "", 100, false),
    ];
    let (cands, best) = ranked_table(&votes);
    assert_eq!(best, Some(1));
    assert_eq!(cands[1].next_by_total_indirect_votes, Some(0));
    assert_eq!(cands[0].next_by_total_indirect_votes, Some(2));
    assert_eq!(cands[2].next_by_total_indirect_votes, None);
    assert_eq!(cands[3].next_by_total_indirect_votes, None);
}

#[test]
fn ranking_puts_the_later_of_two_equals_first() {
    let votes = vec![
        ranked_vote("A", "", 5, true),
        ranked_vote("B", "", 5, true),
        ranked_vote("C", "", 7, true),
        ranked_vote("D", "", 5, true),
    ];
    let (cands, best) = ranked_table(&votes);
    assert_eq!(best, Some(2));
    assert_eq!(cands[2].next_by_total_indirect_votes, Some(3));
    assert_eq!(cands[3].next_by_total_indirect_votes, Some(1));
    assert_eq!(cands[1].next_by_total_indirect_votes, Some(0));
    assert_eq!(cands[0].next_by_total_indirect_votes, None);
}

#[test]
fn ranking_without_willing_candidates_has_no_best() {
    let votes = vec![ranked_vote("v0", "", 5, false), ranked_vote("v1", "v0", 5, false)];
    let (cands, best) = ranked_table(&votes);
    assert_eq!(best, None);
    assert_eq!(cands[0].next_by_total_indirect_votes, None);
    assert_eq!(cands[1].next_by_total_indirect_votes, None);
}

#[test]
fn ranking_of_one_candidate_is_that_candidate() {
    let votes = vec![ranked_vote("A", "", 0, true)];
    let (cands, best) = ranked_table(&votes);
    assert_eq!(best, Some(0));
    assert_eq!(cands[0].next_by_total_indirect_votes, None);
}

#[test]
fn iter_yields_the_willing_in_descending_order_of_score() {
    let votes = vec![
        ranked_vote("v0", "B", 3, false),
        ranked_vote("A", "B", 1, true),
        ranked_vote("B", "", 1, true),
        ranked_vote("C", "", 2, true),
        ranked_vote("v1", "C", 2, false),
    ];
    let vc = VoteCounter::new(&votes, Introspector::new());
    let rows = vc.iter();
    assert_eq!(rows, vec![(5, 2), (4, 3), (1, 1)]);
    for (_, vote) in &rows {
        assert!(votes[*vote].willing_candidate);
    }
    for pair in rows.windows(2) {
        assert!(pair[0].0 >= pair[1].0);
    }
}

#[test]
fn iter_can_be_asked_again() {
    let votes = vec![ranked_vote("A", "", 1, true), ranked_vote("B", "A", 1, true)];
    let vc = VoteCounter::new(&votes, Introspector::new());
    assert_eq!(vc.iter(), vec![(2, 0), (1, 1)]);
    assert_eq!(vc.iter(), vec![(2, 0), (1, 1)]);
}

#[test]
fn iter_of_a_ballot_without_willing_candidates_is_empty() {
    let votes = vec![ranked_vote("v", "w", 1, false)];
    let vc = VoteCounter::new(&votes, Introspector::new());
    assert!(vc.iter().is_empty());
}
