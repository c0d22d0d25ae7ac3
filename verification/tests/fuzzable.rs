use electorium::fuzzable::{
    audit_winner, ids_are_named, mk_id, mk_votes, name_index, parse_vote, Fuzz, VOTE_WIDTH,
};
use electorium::introspector::Introspector;
use electorium::{Vote, VoteCounter};

fn table_of_names() -> Vec<String> {
    let mut names = Vec::new();
    for i in 0..256 {
        names.push(format!("name{}", i));
    }
    names[0] = String::new();
    names
}

#[test]
fn vote_width_is_four_bytes() {
    assert_eq!(VOTE_WIDTH, 4);
}

#[test]
fn mk_id_looks_the_name_up() {
    let names = table_of_names();
    assert_eq!(mk_id(0, &names), "");
    assert_eq!(mk_id(7, &names), "name7");
    assert_eq!(mk_id(255, &names), "name255");
}

#[test]
fn parse_vote_reads_flags_ids_and_votes() {
    let names = table_of_names();
    let vote = parse_vote(&[1, 2, 3, 4], &names);
    assert_eq!(vote.voter_id, "name2");
    assert_eq!(vote.vote_for, "name3");
    assert_eq!(vote.number_of_votes, 4);
    assert!(vote.willing_candidate);
    let vote = parse_vote(&[0xfe, 255, 0, 255], &names);
    assert_eq!(vote.voter_id, "name255");
    assert_eq!(vote.vote_for, "");
    assert_eq!(vote.number_of_votes, 255);
    assert!(!vote.willing_candidate);
    assert!(parse_vote(&[0xff, 1, 1, 0], &names).willing_candidate);
}

#[test]
fn mk_votes_reads_one_vote_from_each_full_record() {
    let names = table_of_names();
    let votes = mk_votes(&[1, 1, 2, 3, 0, 2, 1, 9, 1, 3], &names);
    assert_eq!(votes.len(), 2);
    assert_eq!(votes[0].voter_id, "name1");
    assert_eq!(votes[0].vote_for, "name2");
    assert_eq!(votes[0].number_of_votes, 3);
    assert!(votes[0].willing_candidate);
    assert_eq!(votes[1].voter_id, "name2");
    assert_eq!(votes[1].vote_for, "name1");
    assert_eq!(votes[1].number_of_votes, 9);
    assert!(!votes[1].willing_candidate);
    assert!(mk_votes(&[1, 2, 3], &names).is_empty());
    assert!(mk_votes(&[], &names).is_empty());
}

#[test]
fn name_index_is_the_first_place_of_the_name() {
    let mut names = table_of_names();
    names[9] = "name4".to_string();
    assert_eq!(name_index(&names, &"name4".to_string()), Some(4));
    assert_eq!(name_index(&names, &"name9".to_string()), None);
    assert_eq!(name_index(&names, &"".to_string()), Some(0));
}

#[test]
fn fuzz_keeps_what_it_was_made_with() {
    let fuzz = Fuzz::new(true, table_of_names());
    assert!(fuzz.verbose());
    assert_eq!(fuzz.names().len(), 256);
    assert!(!Fuzz::new(false, Vec::new()).verbose());
}

#[test]
fn run_returns_the_place_of_the_winners_name() {
    let fuzz = Fuzz::new(false, table_of_names());
    // name1 -> name2, name2 -> name1, name3 -> name1, a voter with 1 for name2, one with 4 for name3
    let data = [
        1, 1, 2, 1, //
        1, 2, 1, 1, //
        1, 3, 1, 1, //
        0, 10, 2, 1, //
        0, 11, 3, 4, //
        7, 7, // an unfinished record
    ];
    match fuzz.run(&data) {
        Ok(i) => assert_eq!(i, 3),
        Err(_) => panic!("the winner has the best score"),
    }
}

#[test]
fn run_without_willing_candidates_returns_minus_one() {
    let fuzz = Fuzz::new(false, table_of_names());
    match fuzz.run(&[0, 1, 2, 5, 0, 2, 1, 5]) {
        Ok(i) => assert_eq!(i, -1),
        Err(_) => panic!("nobody wins"),
    }
    match fuzz.run(&[]) {
        Ok(i) => assert_eq!(i, -1),
        Err(_) => panic!("nobody wins"),
    }
}

#[test]
fn run_returns_the_first_place_of_a_name_that_stands_twice() {
    let mut names = table_of_names();
    names[200] = "name5".to_string();
    let fuzz = Fuzz::new(false, names);
    match fuzz.run(&[1, 200, 0, 1]) {
        Ok(i) => assert_eq!(i, 5),
        Err(_) => panic!("the only candidate wins"),
    }
}

#[test]
fn audit_winner_revokes_the_winners_delegation() {
    let votes = vec![
        Vote { voter_id: "A".into(), vote_for: "B".into(), number_of_votes: 1, willing_candidate: true },
        Vote { voter_id: "B".into(), vote_for: "".into(), number_of_votes: 0, willing_candidate: true },
        Vote { voter_id: "v".into(), vote_for: "A".into(), number_of_votes: 3, willing_candidate: false },
    ];
    let mut vc = VoteCounter::new(&votes, Introspector::new());
    assert_eq!(vc.iter(), vec![(4, 1), (4, 0)]);
    match audit_winner(&mut vc) {
        Ok(w) => assert_eq!(w, Some(0)),
        Err(_) => panic!("the winner has the best score"),
    }
    assert_eq!(vc.iter(), vec![(4, 0), (0, 1)]);
}

#[test]
fn audit_winner_of_nobody_is_nobody() {
    let votes: Vec<Vote> = Vec::new();
    let mut vc = VoteCounter::new(&votes, Introspector::new());
    match audit_winner(&mut vc) {
        Ok(w) => assert_eq!(w, None),
        Err(_) => panic!("nobody wins"),
    }
}

#[test]
fn ids_are_named_where_the_table_is_long_enough() {
    let names = table_of_names();
    assert!(ids_are_named(&[0, 255, 255, 0, 9, 9], &names));
    let short: Vec<String> = names[..10].to_vec();
    assert!(ids_are_named(&[0, 9, 0, 200], &short));
    assert!(!ids_are_named(&[0, 10, 0, 1], &short));
    assert!(!ids_are_named(&[0, 1, 2, 1, 0, 3, 10, 1], &short));
    // what follows the last full record does not count
    assert!(ids_are_named(&[0, 1, 2, 1, 0, 30, 40], &short));
    assert!(ids_are_named(&[], &Vec::new()));
}
