use vstd::prelude::*;
use crate::candidate::{Candidate, link, targets};
use crate::delegation::{
    in_lists_linked,
    last_voter_before,
    lemma_distinct_bounded,
    lemma_last_voter,
    previous_with_same_target,
};
use crate::introspector::{
    Event,
    EventKind,
    EventView,
    Introspector,
    PatronSelection,
    PatronSelectionReason,
    lemma_heard_more,
    lemma_heard_nothing,
    lemma_unheard,
};
use crate::ranking::{rank_threaded, ranking};

verus! {

/// The first candidate outside the ring from place `from` of the ranking
/// on.
pub open spec fn next_outside(order: Seq<int>, ring: Seq<bool>, from: int) -> Option<int>
    decreases order.len() - from,
{
    if from < 0 || from >= order.len() {
        None
    } else if !ring[order[from]] {
        Some(order[from])
    } else {
        next_outside(order, ring, from + 1)
    }
}

/// The place of `c` in the ranking.
pub open spec fn rank_of(order: Seq<int>, c: int) -> int {
    choose|i: int| 0 <= i < order.len() && order[i] == c
}

/// The runner up of `w`: the first candidate after `w` in the ranking who
/// is outside the ring.
pub open spec fn runner_up(order: Seq<int>, ring: Seq<bool>, w: int) -> Option<int> {
    if order.contains(w) {
        next_outside(order, ring, rank_of(order, w) + 1)
    } else {
        None
    }
}

/// Gets the first candidate after `tenative_winner` in the ranking who is
/// not part of the excluded ring.
pub fn get_runner_up(
    cand: &Vec<Candidate>,
    tenative_winner: usize,
    exclude_ring: &Vec<bool>,
    total_willing_candidates: usize,
) -> (found: Option<usize>)
    requires
        rank_threaded(cand@, total_willing_candidates as int),
        exclude_ring@.len() == cand@.len(),
        tenative_winner < total_willing_candidates,
    ensures
        link(found) == runner_up(
            ranking(cand@, total_willing_candidates as int),
            exclude_ring@,
            tenative_winner as int,
        ),
        found matches Some(r) ==> r < total_willing_candidates && !exclude_ring@[r as int],
{
    let ghost k = total_willing_candidates as int;
    let ghost order = ranking(cand@, k);
    let ghost start = rank_of(order, tenative_winner as int);
    proof {
        assert(order.contains(tenative_winner as int));
    }
    let mut ru_id = cand[tenative_winner].next_by_total_indirect_votes;
    let ghost mut pos: int = start + 1;
    loop
        invariant
            rank_threaded(cand@, k),
            order == ranking(cand@, k),
            exclude_ring@.len() == cand@.len(),
            0 <= pos <= k,
            link(ru_id) == (if pos < k {
                Some(order[pos])
            } else {
                None
            }),
            next_outside(order, exclude_ring@, pos) == next_outside(
                order,
                exclude_ring@,
                start + 1,
            ),
        ensures
            link(ru_id) == next_outside(order, exclude_ring@, start + 1),
            ru_id matches Some(r) ==> r < k && !exclude_ring@[r as int],
        decreases k - pos,
    {
        match ru_id {
            None => {
                break ;
            },
            Some(id) => {
                assert(0 <= order[pos] < k);
                if !exclude_ring[id] {
                    break ;
                }
                ru_id = cand[id].next_by_total_indirect_votes;
                proof {
                    pos = pos + 1;
                }
            },
        }
    }
    ru_id
}

/// `p` is the potential patron of `w`: of those outside the ring who
/// delegate to `w`, the one with the most indirect votes, and these are
/// more than none; of several with as many, the last in the table.
pub open spec fn is_potential_patron(cands: Seq<Candidate>, ring: Seq<bool>, w: int, p: int) -> bool {
    &&& 0 <= p < cands.len()
    &&& targets(cands)[p] == Some(w)
    &&& !ring[p]
    &&& cands[p].total_indirect_votes > 0
    &&& forall|v: int|
        0 <= v < cands.len() && #[trigger] targets(cands)[v] == Some(w) && !ring[v]
            ==> cands[v].total_indirect_votes < cands[p].total_indirect_votes || (
        cands[v].total_indirect_votes == cands[p].total_indirect_votes && v <= p)
}

/// The potential patron of `w`, if there is one.
pub open spec fn potential_patron(cands: Seq<Candidate>, ring: Seq<bool>, w: int) -> Option<int> {
    if exists|p: int| is_potential_patron(cands, ring, w, p) {
        Some(choose|p: int| is_potential_patron(cands, ring, w, p))
    } else {
        None
    }
}

/// The best of the voters from `limit` on, as far as the search has come.
spec fn best_so_far(
    cands: Seq<Candidate>,
    ring: Seq<bool>,
    w: int,
    limit: int,
    best_cand: Option<usize>,
    best_score: u64,
) -> bool {
    &&& match best_cand {
        Some(b) => {
            &&& limit <= b < cands.len()
            &&& targets(cands)[b as int] == Some(w)
            &&& !ring[b as int]
            &&& best_score == cands[b as int].total_indirect_votes
            &&& best_score > 0
        },
        None => best_score == 0,
    }
    &&& forall|v: int|
        limit <= v < cands.len() && #[trigger] targets(cands)[v] == Some(w) && !ring[v]
            ==> cands[v].total_indirect_votes < best_score || (cands[v].total_indirect_votes
            == best_score && (best_cand is None || v <= best_cand->0))
}

/// Gets the potential patron of `current`.
#[verifier::rlimit(40)]
pub fn get_potential_patron(cand: &Vec<Candidate>, exclude_ring: &Vec<bool>, current: usize) -> (found:
    Option<usize>)
    requires
        current < cand@.len(),
        exclude_ring@.len() == cand@.len(),
        in_lists_linked(cand@),
    ensures
        link(found) == potential_patron(cand@, exclude_ring@, current as int),
        found matches Some(p) ==> is_potential_patron(
            cand@,
            exclude_ring@,
            current as int,
            p as int,
        ),
{
    let ghost t = targets(cand@);
    let ghost n = cand@.len() as int;
    let ghost w = current as int;
    let mut maybe_next_pp_id = cand[current].voted_for_me;
    let mut best_score: u64 = 0;
    let mut best_cand: Option<usize> = None;
    let ghost mut limit: int = n;
    while maybe_next_pp_id.is_some()
        invariant
            n == cand@.len(),
            exclude_ring@.len() == n,
            t == targets(cand@),
            w == current,
            current < n,
            in_lists_linked(cand@),
            0 <= limit <= n,
            link(maybe_next_pp_id) == last_voter_before(t, w, limit),
            best_so_far(cand@, exclude_ring@, w, limit, best_cand, best_score),
        decreases limit,
    {
        let next_pp_id = maybe_next_pp_id.unwrap();
        proof {
            lemma_last_voter(t, w, limit);
            assert(t[next_pp_id as int] == link(cand@[next_pp_id as int].vote_for));
            assert(link(cand@[next_pp_id as int].voting_for_same) == previous_with_same_target(
                t,
                next_pp_id as int,
            ));
        }
        let ghost old_cand = best_cand;
        let ghost old_score = best_score;
        maybe_next_pp_id = cand[next_pp_id].voting_for_same;
        // We must exclude loop candidates early in the process
        if !exclude_ring[next_pp_id] && cand[next_pp_id].total_indirect_votes > best_score {
            best_score = cand[next_pp_id].total_indirect_votes;
            best_cand = Some(next_pp_id);
        }
        proof {
            assert forall|v: int|
                next_pp_id <= v < n && #[trigger] t[v] == Some(w)
                    && !exclude_ring@[v] implies cand@[v].total_indirect_votes < best_score || (
            cand@[v].total_indirect_votes == best_score && (best_cand is None || v
                <= best_cand->0)) by {
                if v >= limit {
                    assert(cand@[v].total_indirect_votes < old_score || (
                    cand@[v].total_indirect_votes == old_score && (old_cand is None || v
                        <= old_cand->0)));
                } else {
                    assert(v == next_pp_id);
                }
            }
            limit = next_pp_id as int;
        }
    }
    proof {
        lemma_last_voter(t, w, limit);
        match best_cand {
            Some(b) => {
                assert(is_potential_patron(cand@, exclude_ring@, w, b as int));
                let p = choose|p: int| is_potential_patron(cand@, exclude_ring@, w, p);
                assert(t[p] == Some(w));
                assert(t[b as int] == Some(w));
                assert(p == b);
            },
            None => {
                assert forall|p: int| !is_potential_patron(cand@, exclude_ring@, w, p) by {
                    if is_potential_patron(cand@, exclude_ring@, w, p) {
                        assert(t[p] == Some(w));
                    }
                }
            },
        }
    }
    best_cand
}


/// `p` is a valid patron for the tentative winner `w` against the runner
/// up `ru`: a willing candidate with more than half of the indirect votes
/// of `w`, and with more than the runner up if there is one.
pub open spec fn valid_patron(cands: Seq<Candidate>, w: int, p: int, ru: Option<int>) -> bool {
    &&& cands[p].is_willing_candidate
    &&& cands[p].total_indirect_votes > cands[w].total_indirect_votes / 2
    &&& (ru matches Some(r) ==> cands[p].total_indirect_votes > cands[r].total_indirect_votes)
}

/// The search for the patron of the tentative winner `first`, as it stands
/// at `w`, with the runner up `ru` and the patron `found` so far. The
/// potential patron of `w` is looked at; where they are the runner up, the
/// runner up after them takes that place. If they are a valid patron for
/// `first` they are the patron, and the search goes on from them; if not,
/// or if there is none, the search ends. `fuel` bounds the promotions that
/// may follow: a table never takes as many as it has candidates.
#[verifier::opaque]
pub open spec fn patron_search(
    cands: Seq<Candidate>,
    order: Seq<int>,
    ring: Seq<bool>,
    first: int,
    w: int,
    ru: Option<int>,
    found: Option<int>,
    fuel: nat,
) -> Option<int>
    decreases fuel,
{
    if fuel == 0 {
        found
    } else {
        match potential_patron(cands, ring, w) {
            None => found,
            Some(p) => {
                let ru = if ru == Some(p) {
                    runner_up(order, ring, p)
                } else {
                    ru
                };
                if valid_patron(cands, first, p, ru) {
                    patron_search(cands, order, ring, first, p, ru, Some(p), (fuel - 1) as nat)
                } else {
                    found
                }
            },
        }
    }
}

/// The patron of the tentative winner `w`, if they have one: the
/// candidate who is responsible for a majority of their votes and is not
/// part of the ring, or in turn the patron of that one.
pub open spec fn patron_of(cands: Seq<Candidate>, k: int, ring: Seq<bool>, w: int) -> Option<int> {
    let order = ranking(cands, k);
    patron_search(cands, order, ring, w, w, runner_up(order, ring, w), None, cands.len())
}

/// One step of the search, where `w` has the potential patron `p`.
pub proof fn lemma_search_step(
    cands: Seq<Candidate>,
    order: Seq<int>,
    ring: Seq<bool>,
    first: int,
    w: int,
    ru: Option<int>,
    found: Option<int>,
    fuel: nat,
    p: int,
)
    requires
        fuel > 0,
        potential_patron(cands, ring, w) == Some(p),
    ensures
        patron_search(cands, order, ring, first, w, ru, found, fuel) == ({
            let next_ru = if ru == Some(p) {
                runner_up(order, ring, p)
            } else {
                ru
            };
            if valid_patron(cands, first, p, next_ru) {
                patron_search(cands, order, ring, first, p, next_ru, Some(p), (fuel - 1) as nat)
            } else {
                found
            }
        }),
{
    reveal(patron_search);
}

/// The search ends where `w` has no potential patron.
pub proof fn lemma_search_ends(
    cands: Seq<Candidate>,
    order: Seq<int>,
    ring: Seq<bool>,
    first: int,
    w: int,
    ru: Option<int>,
    found: Option<int>,
    fuel: nat,
)
    requires
        potential_patron(cands, ring, w) is None,
    ensures
        patron_search(cands, order, ring, first, w, ru, found, fuel) == found,
{
    reveal(patron_search);
}

/// The event that tells what was decided of the potential patron `p`.
pub fn mk_patron_selection(cand: &Vec<Candidate>, p: usize, selection: PatronSelectionReason) -> (event:
    PatronSelection)
    requires
        p < cand@.len(),
    ensures
        event.potential_patron == cand@[p as int].vote,
        event.potential_patron_votes == cand@[p as int].total_indirect_votes,
        event.selection == selection,
{
    PatronSelection {
        potential_patron: cand[p].vote,
        potential_patron_votes: cand[p].total_indirect_votes,
        selection,
    }
}

/// Why `p` is no valid patron for the tentative winner `w` against the
/// runner up `ru`, if they are not.
pub open spec fn rejection(cands: Seq<Candidate>, w: int, p: int, ru: Option<int>) -> Option<
    PatronSelectionReason,
> {
    if !cands[p].is_willing_candidate {
        Some(PatronSelectionReason::NotWillingCandidate)
    } else if cands[p].total_indirect_votes <= cands[w].total_indirect_votes / 2 {
        Some(PatronSelectionReason::NotProvidingMajority(cands[w].total_indirect_votes / 2))
    } else {
        match ru {
            Some(r) => if cands[p].total_indirect_votes <= cands[r].total_indirect_votes {
                Some(
                    PatronSelectionReason::NotBeatingSecondBest(
                        cands[r].total_indirect_votes,
                        cands[r].vote,
                    ),
                )
            } else {
                None
            },
            None => None,
        }
    }
}

/// The event that tells what was decided of the potential patron `p`.
pub open spec fn selection_event(
    cands: Seq<Candidate>,
    p: int,
    selection: PatronSelectionReason,
) -> EventView {
    EventView::PatronSelection {
        potential_patron: cands[p].vote,
        potential_patron_votes: cands[p].total_indirect_votes,
        selection,
    }
}

/// The events of turning `p` down, if they are turned down.
pub open spec fn rejection_events(cands: Seq<Candidate>, w: int, p: int, ru: Option<int>) -> Seq<
    EventView,
> {
    match rejection(cands, w, p, ru) {
        Some(reason) => seq![selection_event(cands, p, reason)],
        None => Seq::empty(),
    }
}

/// The event that tells the patron, if one was found.
pub open spec fn found_events(cands: Seq<Candidate>, found: Option<int>) -> Seq<EventView> {
    match found {
        Some(p) => seq![selection_event(cands, p, PatronSelectionReason::PatronFound)],
        None => Seq::empty(),
    }
}

/// The events of the search for the patron, as `patron_search` goes: why
/// the last potential patron was turned down, if one was, and then the
/// patron, if one was found.
#[verifier::opaque]
pub open spec fn search_events(
    cands: Seq<Candidate>,
    order: Seq<int>,
    ring: Seq<bool>,
    first: int,
    w: int,
    ru: Option<int>,
    found: Option<int>,
    fuel: nat,
) -> Seq<EventView>
    decreases fuel,
{
    if fuel == 0 {
        found_events(cands, found)
    } else {
        match potential_patron(cands, ring, w) {
            None => found_events(cands, found),
            Some(p) => {
                let ru = if ru == Some(p) {
                    runner_up(order, ring, p)
                } else {
                    ru
                };
                if valid_patron(cands, first, p, ru) {
                    search_events(cands, order, ring, first, p, ru, Some(p), (fuel - 1) as nat)
                } else {
                    rejection_events(cands, first, p, ru) + found_events(cands, found)
                }
            },
        }
    }
}

/// The events of the search for the patron of the tentative winner `w`.
pub open spec fn patron_events(cands: Seq<Candidate>, k: int, ring: Seq<bool>, w: int) -> Seq<
    EventView,
> {
    let order = ranking(cands, k);
    search_events(cands, order, ring, w, w, runner_up(order, ring, w), None, cands.len())
}

/// One step of the events of the search, where `w` has the potential
/// patron `p`.
pub proof fn lemma_search_events_step(
    cands: Seq<Candidate>,
    order: Seq<int>,
    ring: Seq<bool>,
    first: int,
    w: int,
    ru: Option<int>,
    found: Option<int>,
    fuel: nat,
    p: int,
)
    requires
        fuel > 0,
        potential_patron(cands, ring, w) == Some(p),
    ensures
        search_events(cands, order, ring, first, w, ru, found, fuel) == ({
            let next_ru = if ru == Some(p) {
                runner_up(order, ring, p)
            } else {
                ru
            };
            if valid_patron(cands, first, p, next_ru) {
                search_events(cands, order, ring, first, p, next_ru, Some(p), (fuel - 1) as nat)
            } else {
                rejection_events(cands, first, p, next_ru) + found_events(cands, found)
            }
        }),
{
    reveal(search_events);
}

/// The events of a search that ends where `w` has no potential patron.
pub proof fn lemma_search_events_end(
    cands: Seq<Candidate>,
    order: Seq<int>,
    ring: Seq<bool>,
    first: int,
    w: int,
    ru: Option<int>,
    found: Option<int>,
    fuel: nat,
)
    requires
        potential_patron(cands, ring, w) is None,
    ensures
        search_events(cands, order, ring, first, w, ru, found, fuel) == found_events(cands, found),
{
    reveal(search_events);
}

fn publish_selection(cand: &Vec<Candidate>, p: usize, selection: PatronSelectionReason, is: &mut Introspector)
    requires
        p < cand@.len(),
    ensures
        final(is).has_heard(*old(is), seq![selection_event(cand@, p as int, selection)]),
{
    if is.is_subscribed(EventKind::PatronSelection) {
        let event = Event::PatronSelection(mk_patron_selection(cand, p, selection));
        assert(event@ == selection_event(cand@, p as int, selection));
        is.event(event);
    } else {
        proof {
            lemma_unheard(*is, selection_event(cand@, p as int, selection));
        }
    }
}

/// Returns true if the potential patron is a valid patron for the
/// tentative winner `winner`.
/// Does not check that they are outside the ring, but does all other
/// checks, and publishes why a patron is turned down.
pub fn is_valid_patron(
    cand: &Vec<Candidate>,
    winner: usize,
    patron: usize,
    runner_up: Option<usize>,
    is: &mut Introspector,
) -> (valid: bool)
    requires
        winner < cand@.len(),
        patron < cand@.len(),
        runner_up matches Some(r) ==> r < cand@.len(),
    ensures
        valid == valid_patron(cand@, winner as int, patron as int, link(runner_up)),
        final(is).has_heard(
            *old(is),
            rejection_events(cand@, winner as int, patron as int, link(runner_up)),
        ),
{
    let mark_to_beat = cand[winner].total_indirect_votes / 2;
    proof {
        lemma_heard_nothing(*is);
    }
    if !cand[patron].is_willing_candidate {
        publish_selection(cand, patron, PatronSelectionReason::NotWillingCandidate, is);
        false
    } else if cand[patron].total_indirect_votes <= mark_to_beat {
        publish_selection(
            cand,
            patron,
            PatronSelectionReason::NotProvidingMajority(mark_to_beat),
            is,
        );
        false
    } else {
        match runner_up {
            Some(ru) => {
                if cand[patron].total_indirect_votes <= cand[ru].total_indirect_votes {
                    publish_selection(
                        cand,
                        patron,
                        PatronSelectionReason::NotBeatingSecondBest(
                            cand[ru].total_indirect_votes,
                            cand[ru].vote,
                        ),
                        is,
                    );
                    false
                } else {
                    true
                }
            },
            None => true,
        }
    }
}

/// The candidates passed by the search: it started at a member of the
/// ring, each later one is outside the ring and delegates to the one
/// before, and nobody was passed twice.
#[verifier::opaque]
spec fn is_promotion_chain(cands: Seq<Candidate>, ring: Seq<bool>, chain: Seq<usize>) -> bool {
    &&& chain.len() >= 1
    &&& ring[chain[0] as int]
    &&& forall|i: int| 0 <= i < chain.len() ==> (#[trigger] chain[i]) < cands.len()
    &&& forall|i: int| 1 <= i < chain.len() ==> !ring[#[trigger] chain[i] as int]
    &&& forall|i: int|
        1 <= i < chain.len() ==> targets(cands)[#[trigger] chain[i] as int] == Some(
            chain[i - 1] as int,
        )
    &&& chain.no_duplicates()
}

proof fn lemma_chain_grows(cands: Seq<Candidate>, ring: Seq<bool>, chain: Seq<usize>, p: usize)
    requires
        is_promotion_chain(cands, ring, chain),
        is_potential_patron(cands, ring, chain[chain.len() - 1] as int, p as int),
    ensures
        is_promotion_chain(cands, ring, chain.push(p)),
        chain.len() + 1 <= cands.len(),
        p < cands.len(),
{
    reveal(is_promotion_chain);
    let next = chain.push(p);
    let last = chain.len() - 1;
    assert forall|i: int| 1 <= i < next.len() implies targets(cands)[#[trigger] next[i] as int]
        == Some(next[i - 1] as int) by {
        if i < chain.len() {
            assert(next[i] == chain[i]);
        }
    }
    assert forall|i: int| 1 <= i < next.len() implies !ring[#[trigger] next[i] as int] by {
        if i < chain.len() {
            assert(next[i] == chain[i]);
        }
    }
    assert forall|a: int, b: int| 0 <= a < next.len() && 0 <= b < next.len() && a != b implies next[a]
        != next[b] by {
        if a < chain.len() && b < chain.len() {
            assert(chain[a] != chain[b]);
        } else {
            let i = if a < chain.len() { a } else { b };
            // chain[i] is not p: the ring member is not, and of the others
            // each delegates to the one before, p to the last
            if chain[i] == p {
                if i == 0 {
                    assert(false);
                } else {
                    assert(targets(cands)[chain[i] as int] == Some(chain[i - 1] as int));
                    assert(chain[i - 1] == chain[last]);
                    assert(false);
                }
            }
        }
    }
    assert forall|i: int| 0 <= i < next.len() implies (#[trigger] next[i]) < cands.len() by {
        if i < chain.len() {
            assert(next[i] == chain[i]);
        }
    }
    lemma_distinct_bounded(next, cands.len() as int);
}

proof fn lemma_chain_starts(cands: Seq<Candidate>, ring: Seq<bool>, w: usize)
    requires
        w < cands.len(),
        ring[w as int],
    ensures
        is_promotion_chain(cands, ring, seq![w]),
{
    reveal(is_promotion_chain);
}

/// The "patron" is the candidate who is responsible for a majority of the
/// tentative winner's votes, yet is NOT part of the ring of the winner.
/// If the tentative winner has a patron then this function will identify
/// it, and in turn the patron of the patron.
///
/// It is impossible to have more than one patron because being a patron
/// implies supplying more than half of the votes to the candidate one
/// voted for.
#[verifier::rlimit(40)]
pub fn get_patron(
    cand: &Vec<Candidate>,
    tenative_winner: usize,
    exclude_ring: &Vec<bool>,
    total_willing_candidates: usize,
    is: &mut Introspector,
) -> (found: Option<usize>)
    requires
        rank_threaded(cand@, total_willing_candidates as int),
        in_lists_linked(cand@),
        exclude_ring@.len() == cand@.len(),
        tenative_winner < total_willing_candidates,
        exclude_ring@[tenative_winner as int],
    ensures
        link(found) == patron_of(
            cand@,
            total_willing_candidates as int,
            exclude_ring@,
            tenative_winner as int,
        ),
        found matches Some(p) ==> p < cand@.len(),
        final(is).has_heard(
            *old(is),
            patron_events(
                cand@,
                total_willing_candidates as int,
                exclude_ring@,
                tenative_winner as int,
            ),
        ),
{
    let ghost k = total_willing_candidates as int;
    let ghost order = ranking(cand@, k);
    let ghost n = cand@.len();
    let ghost goal = patron_of(cand@, k, exclude_ring@, tenative_winner as int);
    let ghost told = patron_events(cand@, k, exclude_ring@, tenative_winner as int);
    let ghost mut said: Seq<EventView> = Seq::empty();
    proof {
        lemma_heard_nothing(*is);
    }
    let mut runner_up = get_runner_up(cand, tenative_winner, exclude_ring, total_willing_candidates);
    let mut current = tenative_winner;
    let mut patron: Option<usize> = None;
    let ghost mut chain: Seq<usize> = seq![tenative_winner];
    proof {
        lemma_chain_starts(cand@, exclude_ring@, tenative_winner);
    }
    // Get the potential patron of the best candidate of the ring
    let mut candidate_patron = match get_potential_patron(cand, exclude_ring, current) {
        None => {
            proof {
                lemma_search_ends(
                    cand@,
                    order,
                    exclude_ring@,
                    tenative_winner as int,
                    current as int,
                    link(runner_up),
                    None,
                    n,
                );
                lemma_search_events_end(
                    cand@,
                    order,
                    exclude_ring@,
                    tenative_winner as int,
                    current as int,
                    link(runner_up),
                    None,
                    n,
                );
            }
            return None;
        },
        Some(pp) => pp,
    };
    // Enter the loop to search backwards for the best patron
    loop
        invariant_except_break
            is_potential_patron(cand@, exclude_ring@, current as int, candidate_patron as int),
            potential_patron(cand@, exclude_ring@, current as int) == Some(candidate_patron as int),
            patron_search(
                cand@,
                order,
                exclude_ring@,
                tenative_winner as int,
                current as int,
                link(runner_up),
                link(patron),
                (n - chain.len() + 1) as nat,
            ) == goal,
            search_events(
                cand@,
                order,
                exclude_ring@,
                tenative_winner as int,
                current as int,
                link(runner_up),
                link(patron),
                (n - chain.len() + 1) as nat,
            ) == told,
            said == Seq::<EventView>::empty(),
        invariant
            is.has_heard(*old(is), said),
            rank_threaded(cand@, k),
            order == ranking(cand@, k),
            n == cand@.len(),
            k == total_willing_candidates,
            in_lists_linked(cand@),
            exclude_ring@.len() == n,
            is_promotion_chain(cand@, exclude_ring@, chain),
            1 <= chain.len() <= n,
            current == chain[chain.len() - 1],
            current < n,
            tenative_winner < n,
            runner_up matches Some(r) ==> r < k,
            patron matches Some(p) ==> p < n,
        ensures
            link(patron) == goal,
            patron matches Some(p) ==> p < n,
            is.has_heard(*old(is), said),
            said + found_events(cand@, link(patron)) == told,
        decreases n - chain.len(),
    {
        proof {
            lemma_search_step(
                cand@,
                order,
                exclude_ring@,
                tenative_winner as int,
                current as int,
                link(runner_up),
                link(patron),
                (n - chain.len() + 1) as nat,
                candidate_patron as int,
            );
            lemma_search_events_step(
                cand@,
                order,
                exclude_ring@,
                tenative_winner as int,
                current as int,
                link(runner_up),
                link(patron),
                (n - chain.len() + 1) as nat,
                candidate_patron as int,
            );
        }
        // If the runner up IS the potential patron, take the next runner
        // up, otherwise we might end up comparing the patron to himself.
        let is_runner_up = match runner_up {
            Some(ru) => ru == candidate_patron,
            None => false,
        };
        if is_runner_up {
            runner_up =
            get_runner_up(cand, candidate_patron, exclude_ring, total_willing_candidates);
        }
        // If they're not valid, break out and keep what we've got
        let ghost heard = *is;
        let ghost turned_down = rejection_events(
            cand@,
            tenative_winner as int,
            candidate_patron as int,
            link(runner_up),
        );
        if !is_valid_patron(cand, tenative_winner, candidate_patron, runner_up, is) {
            proof {
                lemma_heard_more(*old(is), heard, *is, said, turned_down);
                assert(said + turned_down =~= turned_down);
                said = turned_down;
            }
            break ;
        }
        proof {
            lemma_heard_more(*old(is), heard, *is, said, turned_down);
            assert(said + turned_down =~= said);
        }
        // The current candidate IS a patron, store them and see if a
        // node who voted for them is a patron.
        proof {
            lemma_chain_grows(cand@, exclude_ring@, chain, candidate_patron);
            chain = chain.push(candidate_patron);
        }
        patron = Some(candidate_patron);
        current = candidate_patron;
        candidate_patron =
        match get_potential_patron(cand, exclude_ring, current) {
            None => {
                proof {
                    lemma_search_ends(
                        cand@,
                        order,
                        exclude_ring@,
                        tenative_winner as int,
                        current as int,
                        link(runner_up),
                        link(patron),
                        (n - chain.len() + 1) as nat,
                    );
                    lemma_search_events_end(
                        cand@,
                        order,
                        exclude_ring@,
                        tenative_winner as int,
                        current as int,
                        link(runner_up),
                        link(patron),
                        (n - chain.len() + 1) as nat,
                    );
                    assert(said + found_events(cand@, link(patron)) =~= found_events(
                        cand@,
                        link(patron),
                    ));
                }
                break ;
            },
            Some(pp) => pp,
        };
    }
    let ghost heard = *is;
    if let Some(p) = patron {
        publish_selection(cand, p, PatronSelectionReason::PatronFound, is);
        proof {
            lemma_heard_more(*old(is), heard, *is, said, found_events(cand@, link(patron)));
        }
    } else {
        proof {
            assert(said + Seq::<EventView>::empty() =~= said);
        }
    }
    patron
}

/// What becomes of the tentative winners: a single one gives way to their
/// patron if they have one, several stay as they are.
pub open spec fn solved(cands: Seq<Candidate>, k: int, ring: Seq<bool>, tenative: Seq<usize>) -> Seq<
    usize,
> {
    if tenative.len() != 1 {
        tenative
    } else {
        match patron_of(cands, k, ring, tenative[0] as int) {
            Some(p) => seq![p as usize],
            None => seq![tenative[0]],
        }
    }
}

/// The events of `solved`: those of the search for the patron of a single
/// tentative winner.
pub open spec fn solving_events(
    cands: Seq<Candidate>,
    k: int,
    ring: Seq<bool>,
    tenative: Seq<usize>,
) -> Seq<EventView> {
    if tenative.len() != 1 {
        Seq::empty()
    } else {
        patron_events(cands, k, ring, tenative[0] as int)
    }
}

/// The tentative winner becomes THE winner, unless they got more than half
/// of their votes from one candidate (their "patron"), and that candidate
/// alone has enough votes to beat the runner up.
///
/// In case of a tie (multiple tentative winners), their patrons are not
/// considered, because no one of the patrons can possibly win by revoking
/// their vote for their tentative winner.
pub fn solve_winner(
    cand: &Vec<Candidate>,
    tenative_winner: Vec<usize>,
    best_ring: &Vec<bool>,
    total_willing_candidates: usize,
    is: &mut Introspector,
) -> (winners: Vec<usize>)
    requires
        rank_threaded(cand@, total_willing_candidates as int),
        in_lists_linked(cand@),
        best_ring@.len() == cand@.len(),
        forall|i: int|
            0 <= i < tenative_winner@.len() ==> (#[trigger] tenative_winner@[i])
                < total_willing_candidates && best_ring@[tenative_winner@[i] as int],
    ensures
        winners@ == solved(
            cand@,
            total_willing_candidates as int,
            best_ring@,
            tenative_winner@,
        ),
        forall|i: int| 0 <= i < winners@.len() ==> (#[trigger] winners@[i]) < cand@.len(),
        final(is).has_heard(
            *old(is),
            solving_events(
                cand@,
                total_willing_candidates as int,
                best_ring@,
                tenative_winner@,
            ),
        ),
{
    if tenative_winner.len() != 1 {
        proof {
            lemma_heard_nothing(*is);
        }
        return tenative_winner;
    }
    let winner = tenative_winner[0];
    let promoted = match get_patron(cand, winner, best_ring, total_willing_candidates, is) {
        Some(p) => p,
        None => winner,
    };
    let mut winners: Vec<usize> = Vec::new();
    winners.push(promoted);
    proof {
        assert(winners@ =~= seq![promoted]);
    }
    winners
}

} // verus!
