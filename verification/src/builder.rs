use vstd::prelude::*;
use crate::types::Vote;
use crate::candidate::{Candidate, vote_order};
use crate::introspector::{
    Event,
    EventKind,
    EventView,
    Introspector,
    InvalidVote,
    InvalidVoteCause,
    lemma_heard_more,
    lemma_heard_nothing,
    lemma_unheard,
};

verus! {

/// Vote `j` takes the place of vote `i`: both are by the same voter, and `j`
/// is the willing one of the two or, where they are alike in that, the
/// earlier.
pub open spec fn outranks(votes: Seq<Vote>, j: int, i: int) -> bool {
    &&& votes[j].voter_id@ == votes[i].voter_id@
    &&& (votes[j].willing_candidate && !votes[i].willing_candidate) || (votes[j].willing_candidate
        == votes[i].willing_candidate && j < i)
}

/// Vote `i` becomes a candidate: no other vote by the same voter takes its
/// place.
pub open spec fn is_accepted(votes: Seq<Vote>, i: int) -> bool {
    &&& 0 <= i < votes.len()
    &&& forall|j: int| 0 <= j < votes.len() ==> !outranks(votes, j, i)
}

/// The accepted votes among the first `upto` whose willingness is `willing`,
/// in ballot order.
pub open spec fn accepted_in_pass(votes: Seq<Vote>, willing: bool, upto: int) -> Seq<int>
    decreases upto,
{
    if upto <= 0 {
        Seq::empty()
    } else {
        let rest = accepted_in_pass(votes, willing, upto - 1);
        if votes[upto - 1].willing_candidate == willing && is_accepted(votes, upto - 1) {
            rest.push(upto - 1)
        } else {
            rest
        }
    }
}

/// The votes that make up the candidate table, in table order: the willing
/// ones first, then the others.
pub open spec fn accepted_order(votes: Seq<Vote>) -> Seq<int> {
    accepted_in_pass(votes, true, votes.len() as int) + accepted_in_pass(
        votes,
        false,
        votes.len() as int,
    )
}

/// What a pass has accepted: exactly the accepted votes of its kind.
pub proof fn lemma_pass_members(votes: Seq<Vote>, willing: bool, upto: int)
    requires
        0 <= upto <= votes.len(),
    ensures
        forall|j: int| #[trigger]
            accepted_in_pass(votes, willing, upto).contains(j) <==> (0 <= j < upto
                && votes[j].willing_candidate == willing && is_accepted(votes, j)),
        accepted_in_pass(votes, willing, upto).len() <= upto,
    decreases upto,
{
    if upto > 0 {
        lemma_pass_members(votes, willing, upto - 1);
        let rest = accepted_in_pass(votes, willing, upto - 1);
        let now = accepted_in_pass(votes, willing, upto);
        assert forall|j: int| #[trigger] now.contains(j) <==> (0 <= j < upto
            && votes[j].willing_candidate == willing && is_accepted(votes, j)) by {
            if now.contains(j) {
                let k = choose|k: int| 0 <= k < now.len() && now[k] == j;
                if k < rest.len() {
                    assert(rest[k] == j);
                    assert(rest.contains(j));
                }
            }
            if 0 <= j < upto && votes[j].willing_candidate == willing && is_accepted(votes, j) {
                if j == upto - 1 {
                    assert(now[now.len() - 1] == j);
                } else {
                    assert(rest.contains(j));
                    let k = choose|k: int| 0 <= k < rest.len() && rest[k] == j;
                    assert(now[k] == j);
                }
            }
        }
    }
}

/// Among the votes up to `m` by the voter of `m` that are as willing as `m`,
/// the earliest.
proof fn lemma_earliest(votes: Seq<Vote>, m: int) -> (j: int)
    requires
        0 <= m < votes.len(),
    ensures
        0 <= j <= m,
        votes[j].voter_id@ == votes[m].voter_id@,
        votes[j].willing_candidate == votes[m].willing_candidate,
        forall|e: int|
            0 <= e < j ==> !(votes[e].voter_id@ == votes[m].voter_id@ && votes[e].willing_candidate
                == votes[m].willing_candidate),
    decreases m,
{
    if exists|e: int|
        0 <= e < m && votes[e].voter_id@ == votes[m].voter_id@ && votes[e].willing_candidate
            == votes[m].willing_candidate {
        let e = choose|e: int|
            0 <= e < m && votes[e].voter_id@ == votes[m].voter_id@ && votes[e].willing_candidate
                == votes[m].willing_candidate;
        lemma_earliest(votes, e)
    } else {
        m
    }
}

/// Every voter of the ballot has exactly one accepted vote: for each vote
/// there is an accepted one by the same voter, which is the vote itself or
/// takes its place.
pub proof fn lemma_accepted_exists(votes: Seq<Vote>, i: int) -> (j: int)
    requires
        0 <= i < votes.len(),
    ensures
        is_accepted(votes, j),
        votes[j].voter_id@ == votes[i].voter_id@,
        j == i || outranks(votes, j, i),
{
    if exists|m: int|
        0 <= m < votes.len() && votes[m].voter_id@ == votes[i].voter_id@
            && votes[m].willing_candidate {
        let m = choose|m: int|
            0 <= m < votes.len() && votes[m].voter_id@ == votes[i].voter_id@
                && votes[m].willing_candidate;
        let j = lemma_earliest(votes, m);
        assert forall|e: int| 0 <= e < votes.len() implies !outranks(votes, e, j) by {}
        j
    } else {
        let j = lemma_earliest(votes, i);
        assert forall|e: int| 0 <= e < votes.len() implies !outranks(votes, e, j) by {}
        j
    }
}

/// No two accepted votes are by the same voter.
pub proof fn lemma_accepted_distinct(votes: Seq<Vote>, i: int, j: int)
    requires
        is_accepted(votes, i),
        is_accepted(votes, j),
        i != j,
    ensures
        votes[i].voter_id@ != votes[j].voter_id@,
{
    if votes[i].voter_id@ == votes[j].voter_id@ {
        assert(outranks(votes, i, j) || outranks(votes, j, i));
    }
}


/// The vote of candidate `c` names candidate `k`: it names somebody, not its
/// own voter, and `k` is that voter's candidate.
pub open spec fn names(votes: Seq<Vote>, cands: Seq<Candidate>, c: int, k: int) -> bool {
    let v = votes[cands[c].vote as int];
    &&& !v.abstains()
    &&& !v.votes_for_self()
    &&& votes[cands[k].vote as int].voter_id@ == v.vote_for@
}

/// Candidate `c` delegates to the candidate that their vote names, and to
/// nobody where it names none.
pub open spec fn resolved(votes: Seq<Vote>, cands: Seq<Candidate>, c: int) -> bool {
    match cands[c].vote_for {
        Some(k) => k < cands.len() && names(votes, cands, c, k as int),
        None => forall|k: int| 0 <= k < cands.len() ==> !names(votes, cands, c, k),
    }
}

/// Candidate `c` is as the builder leaves a candidate, but for whom they
/// delegate to: they hold their own votes and are in no list.
pub open spec fn fresh(votes: Seq<Vote>, cands: Seq<Candidate>, c: int) -> bool {
    &&& cands[c].vote < votes.len()
    &&& cands[c].is_willing_candidate == votes[cands[c].vote as int].willing_candidate
    &&& cands[c].total_indirect_votes == votes[cands[c].vote as int].number_of_votes
    &&& cands[c].voting_for_same is None
    &&& cands[c].voted_for_me is None
    &&& cands[c].next_by_total_indirect_votes is None
}

/// The events of a pass over the first `upto` votes: one for each vote of
/// its kind that was discarded.
pub open spec fn discarded_in_pass(votes: Seq<Vote>, willing: bool, upto: int) -> Seq<EventView>
    decreases upto,
{
    if upto <= 0 {
        Seq::empty()
    } else {
        let rest = discarded_in_pass(votes, willing, upto - 1);
        if votes[upto - 1].willing_candidate == willing && !is_accepted(votes, upto - 1) {
            rest.push(
                EventView::InvalidVote {
                    cause: InvalidVoteCause::Duplicate,
                    vote: (upto - 1) as usize,
                },
            )
        } else {
            rest
        }
    }
}

/// Why the vote of candidate `c` delegates nothing, if it does not.
pub open spec fn undelegated_cause(votes: Seq<Vote>, order: Seq<int>, c: int) -> Option<
    InvalidVoteCause,
> {
    let v = votes[order[c]];
    if v.abstains() {
        Some(InvalidVoteCause::NoVote)
    } else if v.votes_for_self() {
        Some(InvalidVoteCause::SelfVote)
    } else if forall|k: int| 0 <= k < order.len() ==> votes[order[k]].voter_id@ != v.vote_for@ {
        Some(InvalidVoteCause::UnrecognizedVote)
    } else {
        None
    }
}

/// The events of resolving the first `upto` candidates: one for each whose
/// vote delegates nothing.
pub open spec fn undelegated_events(votes: Seq<Vote>, order: Seq<int>, upto: int) -> Seq<
    EventView,
>
    decreases upto,
{
    if upto <= 0 {
        Seq::empty()
    } else {
        let rest = undelegated_events(votes, order, upto - 1);
        match undelegated_cause(votes, order, upto - 1) {
            Some(cause) => rest.push(
                EventView::InvalidVote { cause, vote: order[upto - 1] as usize },
            ),
            None => rest,
        }
    }
}

/// Every event that building the table of `votes` publishes, in order.
pub open spec fn builder_events(votes: Seq<Vote>) -> Seq<EventView> {
    discarded_in_pass(votes, true, votes.len() as int) + discarded_in_pass(
        votes,
        false,
        votes.len() as int,
    ) + undelegated_events(votes, accepted_order(votes), accepted_order(votes).len() as int)
}

/// Publishes that a vote is discarded or delegates nothing, if anybody
/// listens.
fn publish_invalid(is: &mut Introspector, cause: InvalidVoteCause, vote: usize)
    ensures
        final(is).has_heard(*old(is), seq![EventView::InvalidVote { cause, vote }]),
{
    if is.is_subscribed(EventKind::InvalidVote) {
        is.event(Event::InvalidVote(InvalidVote { cause, vote }));
    } else {
        proof {
            lemma_unheard(*is, EventView::InvalidVote { cause, vote });
        }
    }
}

/// The first candidate of the voter called `name`, if there is one.
pub fn find_candidate(votes: &[Vote], cands: &Vec<Candidate>, name: &String) -> (found: Option<
    usize,
>)
    requires
        forall|c: int| 0 <= c < cands@.len() ==> (#[trigger] cands@[c]).vote < votes@.len(),
    ensures
        match found {
            Some(k) => k < cands@.len() && votes@[cands@[k as int].vote as int].voter_id@ == name@
                && forall|j: int|
                0 <= j < k ==> votes@[(#[trigger] cands@[j]).vote as int].voter_id@ != name@,
            None => forall|k: int|
                0 <= k < cands@.len() ==> votes@[(#[trigger] cands@[k]).vote as int].voter_id@
                    != name@,
        },
{
    let mut k: usize = 0;
    while k < cands.len()
        invariant
            k <= cands@.len(),
            forall|c: int| 0 <= c < cands@.len() ==> (#[trigger] cands@[c]).vote < votes@.len(),
            forall|j: int|
                0 <= j < k ==> votes@[(#[trigger] cands@[j]).vote as int].voter_id@ != name@,
        decreases cands@.len() - k,
    {
        if votes[cands[k].vote].voter_id == *name {
            return Some(k);
        }
        k += 1;
    }
    None
}


/// One pass of the builder: takes up the accepted votes whose willingness is
/// `willing`, in ballot order, and publishes the discarded ones.
#[verifier::rlimit(40)]
fn admit_pass(
    votes: &[Vote],
    cands: &mut Vec<Candidate>,
    is: &mut Introspector,
    willing: bool,
) -> (count: usize)
    requires
        vote_order(old(cands)@) == (if willing {
            Seq::<int>::empty()
        } else {
            accepted_in_pass(votes@, true, votes@.len() as int)
        }),
        forall|c: int|
            0 <= c < old(cands)@.len() ==> fresh(votes@, old(cands)@, c) && (#[trigger] old(cands)@[c]).vote_for is None,
    ensures
        vote_order(final(cands)@) == vote_order(old(cands)@) + accepted_in_pass(
            votes@,
            willing,
            votes@.len() as int,
        ),
        forall|c: int|
            0 <= c < final(cands)@.len() ==> fresh(votes@, final(cands)@, c) && (#[trigger] final(cands)@[c]).vote_for is None,
        count == accepted_in_pass(votes@, willing, votes@.len() as int).len(),
        final(is).has_heard(*old(is), discarded_in_pass(votes@, willing, votes@.len() as int)),
{
    let ghost before = vote_order(cands@);
    proof {
        lemma_heard_nothing(*is);
    }
    let mut count: usize = 0;
    let mut i: usize = 0;
    while i < votes.len()
        invariant
            i <= votes@.len(),
            before == (if willing {
                Seq::<int>::empty()
            } else {
                accepted_in_pass(votes@, true, votes@.len() as int)
            }),
            vote_order(cands@) == before + accepted_in_pass(votes@, willing, i as int),
            forall|c: int|
                0 <= c < cands@.len() ==> fresh(votes@, cands@, c) && (#[trigger] cands@[c]).vote_for
                    is None,
            count == accepted_in_pass(votes@, willing, i as int).len(),
            count <= i,
            is.has_heard(*old(is), discarded_in_pass(votes@, willing, i as int)),
        decreases votes@.len() - i,
    {
        let v = &votes[i];
        if v.willing_candidate == willing {
            let ghost table = vote_order(cands@);
            proof {
                lemma_pass_members(votes@, willing, i as int);
                lemma_pass_members(votes@, true, votes@.len() as int);
            }
            match find_candidate(votes, cands, &v.voter_id) {
                Some(k) => {
                    proof {
                        let j = cands@[k as int].vote as int;
                        assert(table[k as int] == j);
                        if k < before.len() {
                            assert(before[k as int] == j);
                            assert(before.contains(j));
                        } else {
                            let pass = accepted_in_pass(votes@, willing, i as int);
                            assert(table.len() == cands@.len());
                            assert(table.len() == before.len() + pass.len());
                            assert(pass[k - before.len()] == j);
                            assert(pass.contains(j));
                        }
                        assert(outranks(votes@, j, i as int));
                        assert(!is_accepted(votes@, i as int));
                    }
                    let ghost heard = *is;
                    publish_invalid(is, InvalidVoteCause::Duplicate, i);
                    proof {
                        let so_far = discarded_in_pass(votes@, willing, i as int);
                        let event = EventView::InvalidVote {
                            cause: InvalidVoteCause::Duplicate,
                            vote: i,
                        };
                        lemma_heard_more(*old(is), heard, *is, so_far, seq![event]);
                        assert(so_far + seq![event] =~= so_far.push(event));
                    }
                },
                None => {
                    proof {
                        if !is_accepted(votes@, i as int) {
                            let j = lemma_accepted_exists(votes@, i as int);
                            let pass = accepted_in_pass(votes@, willing, i as int);
                            assert(before.contains(j) || pass.contains(j));
                            assert(table.len() == cands@.len());
                            assert(table.len() == before.len() + pass.len());
                            if before.contains(j) {
                                let k = choose|k: int| 0 <= k < before.len() && before[k] == j;
                                assert(table[k] == j);
                                assert(cands@[k].vote == j);
                            } else {
                                let k = choose|k: int| 0 <= k < pass.len() && pass[k] == j;
                                assert(table[before.len() + k] == j);
                                assert(cands@[before.len() + k].vote == j);
                            }
                            assert(false);
                        }
                    }
                    let ghost prior = cands@;
                    cands.push(
                        Candidate {
                            vote: i,
                            vote_for: None,
                            voting_for_same: None,
                            // Everyone implicitly votes for themselves
                            total_indirect_votes: v.number_of_votes,
                            voted_for_me: None,
                            is_willing_candidate: v.willing_candidate,
                            next_by_total_indirect_votes: None,
                        },
                    );
                    count += 1;
                    proof {
                        assert(is_accepted(votes@, i as int));
                        assert(cands@ == prior.push(cands@[prior.len() as int]));
                        assert(vote_order(cands@) =~= vote_order(prior).push(i as int));
                        assert(accepted_in_pass(votes@, willing, i as int + 1)
                            == accepted_in_pass(votes@, willing, i as int).push(i as int));
                        assert(vote_order(cands@) =~= before + accepted_in_pass(
                            votes@,
                            willing,
                            i as int + 1,
                        ));
                        assert forall|c: int| 0 <= c < cands@.len() implies fresh(votes@, cands@, c)
                            && (#[trigger] cands@[c]).vote_for is None by {
                            if c < prior.len() {
                                assert(cands@[c] == prior[c]);
                                assert(fresh(votes@, prior, c));
                            }
                        }
                    }
                },
            }
        }
        i += 1;
    }
    count
}

/// The table is what the builder makes of `votes`, before anything is
/// delegated: the accepted votes in their order, each candidate holding their
/// own votes and delegating to the candidate that their vote names.
pub open spec fn table_built(votes: Seq<Vote>, cands: Seq<Candidate>) -> bool {
    &&& vote_order(cands) == accepted_order(votes)
    &&& forall|c: int|
        0 <= c < cands.len() ==> fresh(votes, cands, c) && #[trigger] resolved(votes, cands, c)
}

/// Makes the candidate table of `votes`: first the willing candidates, then
/// the other voters, each in ballot order. A vote whose voter already has a
/// candidate is discarded. Then each candidate is pointed at the candidate
/// whom their vote names, if it names one other than themselves. Returns the
/// number of willing candidates. Publishes an `InvalidVote` for each vote
/// that is discarded or delegates nothing.
#[verifier::rlimit(40)]
pub fn mk_candidates(votes: &[Vote], cands: &mut Vec<Candidate>, is: &mut Introspector) -> (total_willing:
    usize)
    requires
        old(cands)@.len() == 0,
    ensures
        table_built(votes@, final(cands)@),
        total_willing == accepted_in_pass(votes@, true, votes@.len() as int).len(),
        final(is).has_heard(*old(is), builder_events(votes@)),
{
    assert(vote_order(cands@) =~= Seq::<int>::empty());
    // Pile up all of the willing candidates at the beginning: the ranking
    // relies on this.
    let total_willing = admit_pass(votes, cands, is, true);
    assert(vote_order(cands@) =~= accepted_in_pass(votes@, true, votes@.len() as int));
    let ghost first = *is;
    admit_pass(votes, cands, is, false);
    let ghost order = accepted_order(votes@);
    let ghost mid = *is;
    let ghost admitted = discarded_in_pass(votes@, true, votes@.len() as int) + discarded_in_pass(
        votes@,
        false,
        votes@.len() as int,
    );
    proof {
        lemma_heard_more(
            *old(is),
            first,
            mid,
            discarded_in_pass(votes@, true, votes@.len() as int),
            discarded_in_pass(votes@, false, votes@.len() as int),
        );
        lemma_heard_nothing(mid);
    }
    assert(vote_order(cands@) == order);
    let mut c: usize = 0;
    while c < cands.len()
        invariant
            c <= cands@.len(),
            order == accepted_order(votes@),
            vote_order(cands@) == order,
            forall|d: int| 0 <= d < cands@.len() ==> fresh(votes@, cands@, d),
            forall|d: int| 0 <= d < c ==> #[trigger] resolved(votes@, cands@, d),
            forall|d: int| c <= d < cands@.len() ==> (#[trigger] cands@[d]).vote_for is None,
            is.has_heard(mid, undelegated_events(votes@, order, c as int)),
        decreases cands@.len() - c,
    {
        let ghost prior = cands@;
        assert forall|d: int| 0 <= d < cands@.len() implies (#[trigger] cands@[d]).vote
            < votes@.len() by {
            assert(fresh(votes@, cands@, d));
        }
        let vote_idx = cands[c].vote;
        let vote = &votes[vote_idx];
        let mut cause: Option<InvalidVoteCause> = None;
        assert(order[c as int] == vote_idx);
        assert(forall|k: int| 0 <= k < order.len() ==> order[k] == (#[trigger] cands@[k]).vote);
        if vote.vote_for.as_str().is_empty() {
            // They didn't vote
            cause = Some(InvalidVoteCause::NoVote);
        } else if vote.vote_for == vote.voter_id {
            // Voted for themselves
            cause = Some(InvalidVoteCause::SelfVote);
        } else {
            match find_candidate(votes, cands, &vote.vote_for) {
                Some(idx) => {
                    cands[c].vote_for = Some(idx);
                },
                None => {
                    // Voted for someone that is unrecognized
                    cause = Some(InvalidVoteCause::UnrecognizedVote);
                },
            }
        }
        proof {
            assert(vote_order(cands@) =~= order);
            assert forall|d: int| 0 <= d < cands@.len() implies fresh(votes@, cands@, d) by {
                assert(fresh(votes@, prior, d));
            }
            assert(cands@.len() == prior.len());
            assert forall|k: int| 0 <= k < cands@.len() implies (#[trigger] cands@[k]).vote
                == prior[k].vote by {}
            assert forall|d: int| 0 <= d < c + 1 implies #[trigger] resolved(votes@, cands@, d) by {
                assert forall|k: int| 0 <= k < cands@.len() implies names(votes@, cands@, d, k)
                    == names(votes@, prior, d, k) by {
                    assert(cands@[k].vote == prior[k].vote);
                    assert(cands@[d].vote == prior[d].vote);
                }
                if d < c {
                    assert(resolved(votes@, prior, d));
                    assert(cands@[d] == prior[d]);
                    match cands@[d].vote_for {
                        Some(k) => {
                            assert(names(votes@, prior, d, k as int));
                            assert(names(votes@, cands@, d, k as int));
                        },
                        None => {
                            assert forall|k: int| 0 <= k < cands@.len() implies !names(
                                votes@,
                                cands@,
                                d,
                                k,
                            ) by {
                                assert(!names(votes@, prior, d, k));
                            }
                        },
                    }
                } else {
                    assert(prior[d].vote_for is None);
                    match cands@[d].vote_for {
                        Some(k) => {
                            assert(prior[k as int].vote == cands@[k as int].vote);
                            assert(names(votes@, cands@, d, k as int));
                        },
                        None => {
                            assert forall|k: int| 0 <= k < cands@.len() implies !names(
                                votes@,
                                cands@,
                                d,
                                k,
                            ) by {
                                assert(prior[k].vote == cands@[k].vote);
                            }
                        },
                    }
                }
            }
            assert(cause == undelegated_cause(votes@, order, c as int));
        }
        if let Some(cause) = cause {
            let ghost heard = *is;
            publish_invalid(is, cause, vote_idx);
            proof {
                let so_far = undelegated_events(votes@, order, c as int);
                let event = EventView::InvalidVote { cause, vote: vote_idx };
                lemma_heard_more(mid, heard, *is, so_far, seq![event]);
                assert(so_far + seq![event] =~= so_far.push(event));
            }
        }
        c += 1;
    }
    proof {
        lemma_heard_more(
            *old(is),
            mid,
            *is,
            admitted,
            undelegated_events(votes@, order, order.len() as int),
        );
    }
    total_willing
}

} // verus!
