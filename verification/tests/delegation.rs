use electorium::builder::mk_candidates;
use electorium::candidate::Candidate;
use electorium::delegation::compute_delegated_votes;
use electorium::introspector::{Event, EventKind, Introspector};
use electorium::Vote;

fn delegating(voter_id: &str, vote_for: &str, number_of_votes: u64, willing: bool) -> Vote {
    Vote {
        voter_id: voter_id.to_string(),
        vote_for: vote_for.to_string(),
        number_of_votes,
        willing_candidate: willing,
    }
}

fn delegated_table(votes: &[Vote], is: &mut Introspector) -> Vec<Candidate> {
    let mut cands: Vec<Candidate> = Vec::new();
    let mut quiet = Introspector::new();
    mk_candidates(votes, &mut cands, &mut quiet);
    compute_delegated_votes(votes, &mut cands, is);
    cands
}

fn totals(cands: &[Candidate]) -> Vec<u64> {
    cands.iter().map(|c| c.total_indirect_votes).collect()
}

fn classic() -> Vec<Vote> {
    vec![
        delegating("Alice", "Bob", 1, true),
        delegating("Bob", "Alice", 1, true),
        delegating("Charlie", "Alice", 1, true),
        delegating("v0", "Bob", 3, false),
        delegating("v1", "Charlie", 4, false),
    ]
}

#[test]
fn delegation_credits_everybody_on_the_chain() {
    let votes = classic();
    let cands = delegated_table(&votes, &mut Introspector::new());
    // Charlie: own 1 and 4; Alice and Bob: each other, the 3, and all of Charlie's 5
    assert_eq!(totals(&cands), vec![10, 10, 5, 3, 4]);
}

#[test]
fn delegation_follows_a_chain_to_its_end() {
    let votes = vec![
        delegating("A", "", 1, true),
        delegating("B", "A", 2, true),
        delegating("C", "B", 4, true),
        delegating("D", "C", 8, true),
    ];
    let cands = delegated_table(&votes, &mut Introspector::new());
    assert_eq!(totals(&cands), vec![15, 14, 12, 8]);
}

#[test]
fn delegation_credits_a_ring_member_once_for_each_supporter() {
    let votes = vec![
        delegating("A", "B", 1, true),
        delegating("B", "C", 10, true),
        delegating("C", "A", 100, true),
        delegating("v", "A", 1000, false),
    ];
    let cands = delegated_table(&votes, &mut Introspector::new());
    assert_eq!(totals(&cands), vec![1111, 1111, 1111, 1000]);
}

#[test]
fn self_votes_and_empty_votes_give_nothing_to_others() {
    let votes = vec![
        delegating("A", "A", 5, true),
        delegating("B", "", 7, true),
        delegating("C", "A", 2, true),
    ];
    let cands = delegated_table(&votes, &mut Introspector::new());
    assert_eq!(totals(&cands), vec![7, 7, 2]);
    assert_eq!(cands[0].vote_for, None);
    assert_eq!(cands[1].vote_for, None);
    assert_eq!(cands[0].voted_for_me, Some(2));
    assert_eq!(cands[1].voted_for_me, None);
}

#[test]
fn discarded_votes_do_not_count() {
    let votes = vec![
        delegating("A", "", 1, true),
        delegating("A", "B", 100, true),
        delegating("B", "", 1, true),
    ];
    let cands = delegated_table(&votes, &mut Introspector::new());
    assert_eq!(totals(&cands), vec![1, 1]);
}

#[test]
fn delegation_lists_the_voters_of_each_candidate_last_first() {
    let votes = classic();
    let cands = delegated_table(&votes, &mut Introspector::new());
    // Alice has Bob and Charlie, Bob has Alice and v0, Charlie has v1
    assert_eq!(cands[0].voted_for_me, Some(2));
    assert_eq!(cands[2].voting_for_same, Some(1));
    assert_eq!(cands[1].voting_for_same, None);
    assert_eq!(cands[1].voted_for_me, Some(3));
    assert_eq!(cands[3].voting_for_same, Some(0));
    assert_eq!(cands[0].voting_for_same, None);
    assert_eq!(cands[2].voted_for_me, Some(4));
    assert_eq!(cands[4].voting_for_same, None);
    assert_eq!(cands[3].voted_for_me, None);
    assert_eq!(cands[4].voted_for_me, None);
}

#[test]
fn delegation_publishes_each_step_and_each_ring() {
    let votes = vec![
        delegating("A", "B", 1, true),
        delegating("B", "A", 1, true),
        delegating("v", "A", 1, false),
    ];
    let mut is = Introspector::new();
    is.subscribe(EventKind::VoteDelegation);
    is.subscribe(EventKind::VoteDelegationRing);
    delegated_table(&votes, &mut is);
    let mut steps: Vec<(usize, usize, usize)> = Vec::new();
    let mut rings: Vec<(Vec<usize>, usize)> = Vec::new();
    for e in is.events() {
        match e {
            Event::VoteDelegation(d) => steps.push((d.from, d.to, d.because_of)),
            Event::VoteDelegationRing(r) => rings.push((r.chain.clone(), r.next)),
            _ => panic!("delegation publishes delegations and rings only"),
        }
    }
    assert_eq!(steps, vec![(0, 1, 0), (1, 0, 1), (2, 0, 2), (2, 1, 0)]);
    assert_eq!(rings, vec![(vec![0, 1], 0), (vec![1, 0], 1), (vec![2, 0, 1], 0)]);
}

#[test]
fn delegation_keeps_votes_and_targets() {
    let votes = classic();
    let cands = delegated_table(&votes, &mut Introspector::new());
    let order: Vec<usize> = cands.iter().map(|c| c.vote).collect();
    assert_eq!(order, vec![0, 1, 2, 3, 4]);
    let targets: Vec<Option<usize>> = cands.iter().map(|c| c.vote_for).collect();
    assert_eq!(targets, vec![Some(1), Some(0), Some(0), Some(1), Some(2)]);
}
