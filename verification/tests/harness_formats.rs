use electorium::afl_stream;
use electorium::vote_bin::{self, VoteBin};

#[test]
fn wide_ids_up_to_0x8000_are_candidates() {
    assert_eq!(afl_stream::mk_id(0x1234), ("cand/1234".to_string(), true));
    assert_eq!(afl_stream::mk_id(5), ("cand/0005".to_string(), true));
    assert_eq!(afl_stream::mk_id(0), ("cand/0000".to_string(), true));
    assert_eq!(afl_stream::mk_id(0x8000), ("cand/8000".to_string(), true));
    assert_eq!(afl_stream::mk_id(0x8001), ("voter/8001".to_string(), false));
    assert_eq!(afl_stream::mk_id(0xabcd), ("voter/abcd".to_string(), false));
    assert_eq!(afl_stream::mk_id(0xffff), ("voter/ffff".to_string(), false));
}

#[test]
fn parse_u16_reads_the_low_byte_first() {
    assert_eq!(afl_stream::parse_u16(&[0x34, 0x12]), 0x1234);
    assert_eq!(afl_stream::parse_u16(&[0xff, 0x00]), 0x00ff);
    assert_eq!(afl_stream::parse_u16(&[0x00, 0xff]), 0xff00);
    assert_eq!(afl_stream::parse_u16(&[0, 0]), 0);
}

#[test]
fn wide_record_holds_voter_votes_and_target() {
    let vote = afl_stream::parse_vote(&[0x01, 0x00, 0x10, 0x27, 0x02, 0x90]);
    assert_eq!(vote.voter_id, "cand/0001");
    assert!(vote.willing_candidate);
    assert_eq!(vote.number_of_votes, 10_000);
    assert_eq!(vote.vote_for, "voter/9002");
}

#[test]
fn wide_stream_leaves_an_unfinished_record_out() {
    assert_eq!(afl_stream::VOTE_WIDTH, 6);
    let data = [1, 0, 1, 0, 2, 0, 2, 0, 3, 0, 1, 0, 9, 9, 9, 9, 9];
    let votes = afl_stream::mk_votes(&data);
    assert_eq!(votes.len(), 2);
    assert_eq!(votes[0].voter_id, "cand/0001");
    assert_eq!(votes[0].vote_for, "cand/0002");
    assert_eq!(votes[0].number_of_votes, 1);
    assert_eq!(votes[1].voter_id, "cand/0002");
    assert_eq!(votes[1].vote_for, "cand/0001");
    assert_eq!(votes[1].number_of_votes, 3);
    assert!(afl_stream::mk_votes(&[1, 2, 3, 4, 5]).is_empty());
}

#[test]
fn narrow_ids_up_to_0x80_are_candidates() {
    assert_eq!(vote_bin::mk_id(0x0a), ("cand/0a".to_string(), true));
    assert_eq!(vote_bin::mk_id(0x80), ("cand/80".to_string(), true));
    assert_eq!(vote_bin::mk_id(0x81), ("voter/81".to_string(), false));
    assert_eq!(vote_bin::mk_id(0xff), ("voter/ff".to_string(), false));
}

#[test]
fn narrow_votes_are_read_in_their_order() {
    let data = vec![
        VoteBin { voter_id: 1, vote_for: 2, votes: 500 },
        VoteBin { voter_id: 0x90, vote_for: 1, votes: 65_535 },
    ];
    let votes = vote_bin::mk_votes(&data);
    assert_eq!(votes.len(), 2);
    assert_eq!(votes[0].voter_id, "cand/01");
    assert_eq!(votes[0].vote_for, "cand/02");
    assert_eq!(votes[0].number_of_votes, 500);
    assert!(votes[0].willing_candidate);
    assert_eq!(votes[1].voter_id, "voter/90");
    assert_eq!(votes[1].vote_for, "cand/01");
    assert_eq!(votes[1].number_of_votes, 65_535);
    assert!(!votes[1].willing_candidate);
    let single = vote_bin::parse_vote(&VoteBin { voter_id: 0x80, vote_for: 0x80, votes: 0 });
    assert_eq!(single.voter_id, "cand/80");
    assert_eq!(single.vote_for, "cand/80");
}
