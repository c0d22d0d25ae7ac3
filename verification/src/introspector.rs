use vstd::prelude::*;

verus! {

/// The kinds of event that the counter can publish. A subscriber asks for
/// events by kind.
#[derive(Clone, Copy, Debug, PartialEq, Eq, Structural)]
pub enum EventKind {
    VoteDelegation,
    VoteDelegationRing,
    InvalidVote,
    BestRing,
    BestOfRing,
    PatronSelection,
    DeterministicTieBreaker,
    DeterministicTieBreakerHash,
    Winner,
}

/// Votes are possibly delegated from one voter to a candidate. Every vote is
/// named by its position in the ballot.
#[derive(Debug)]
pub struct VoteDelegation {
    pub from: usize,
    pub to: usize,
    pub because_of: usize,
}

/// A delegation walk came back to a voter that it had already passed.
#[derive(Debug)]
pub struct VoteDelegationRing {
    pub chain: Vec<usize>,
    pub next: usize,
}

/// Why a vote was discarded or delegates nothing.
#[derive(Clone, Copy, Debug, PartialEq, Eq, Structural)]
pub enum InvalidVoteCause {
    NoVote,
    SelfVote,
    UnrecognizedVote,
    Duplicate,
}

/// A vote that delegates nothing, or that was discarded.
#[derive(Debug)]
pub struct InvalidVote {
    pub cause: InvalidVoteCause,
    pub vote: usize,
}

/// The candidates that share the best score, split into their rings.
#[derive(Debug)]
pub struct BestRing {
    pub best_total_delegated_votes: u64,
    pub best_rings_members: Vec<Vec<usize>>,
}

/// The score of every member of the best ring with the ring left out, and
/// those who have the highest.
#[derive(Debug)]
pub struct BestOfRing {
    pub rings_member_scores: Vec<(usize, u128)>,
    pub winners: Vec<usize>,
}

/// What was decided of a potential patron.
#[derive(Clone, Copy, Debug, PartialEq, Eq, Structural)]
pub enum PatronSelectionReason {
    /// The candidate is part of the best ring, they have already been
    /// eliminated by best-of-ring selection.
    LoopCandidate,
    /// The "candidate" is just a voter, not a real candidate
    NotWillingCandidate,
    /// The potential patron is not providing a majority of the votes to the
    /// candidate; holds the mark that they would have to exceed.
    NotProvidingMajority(u64),
    /// The potential patron would not have enough votes to beat the runner
    /// up; holds the score and the vote of the runner up.
    NotBeatingSecondBest(u64, usize),
    /// The patron was selected
    PatronFound,
}

/// A potential patron was looked at.
#[derive(Debug)]
pub struct PatronSelection {
    /// The potential patron whom we are considering
    pub potential_patron: usize,
    /// The total number of delegated votes of the potential patron
    pub potential_patron_votes: u64,
    /// Whether the potential patron IS the patron, or if not, why not.
    pub selection: PatronSelectionReason,
}

/// Several candidates were left, and their hashes decided.
#[derive(Debug)]
pub struct DeterministicTieBreaker {
    /// The number of total delegated votes which the final winner received.
    pub votes: u64,
    /// The tied candidates with the hash of each, ordered by the hash, so
    /// the first one is the final winner.
    pub tied_candidates: Vec<(usize, [u8; 64])>,
}

/// A candidate was hashed for the tie breaker.
#[derive(Debug)]
pub struct DeterministicTieBreakerHash {
    /// The candidate's ID
    pub candidate: String,
    /// The bytes which are hashed for the candidate
    pub bytes: Vec<u8>,
    /// Total number of possible indirect votes
    pub total_indirect_votes: u64,
}

/// The election has a winner.
#[derive(Debug)]
pub struct Winner {
    /// The candidate who finally won
    pub candidate: usize,
    /// The number of votes which they received
    pub votes: u64,
}

/// What an event says, its lists taken as sequences.
pub enum EventView {
    VoteDelegation { from: usize, to: usize, because_of: usize },
    VoteDelegationRing { chain: Seq<usize>, next: usize },
    InvalidVote { cause: InvalidVoteCause, vote: usize },
    BestRing { best_total_delegated_votes: u64, best_rings_members: Seq<Seq<usize>> },
    BestOfRing { rings_member_scores: Seq<(usize, u128)>, winners: Seq<usize> },
    PatronSelection {
        potential_patron: usize,
        potential_patron_votes: u64,
        selection: PatronSelectionReason,
    },
    DeterministicTieBreaker { votes: u64, tied_candidates: Seq<(usize, Seq<u8>)> },
    DeterministicTieBreakerHash { candidate: Seq<char>, bytes: Seq<u8>, total_indirect_votes: u64 },
    Winner(Option<(usize, u64)>),
}

impl EventView {
    /// The kind under which this is published.
    pub open spec fn kind(self) -> EventKind {
        match self {
            EventView::VoteDelegation { .. } => EventKind::VoteDelegation,
            EventView::VoteDelegationRing { .. } => EventKind::VoteDelegationRing,
            EventView::InvalidVote { .. } => EventKind::InvalidVote,
            EventView::BestRing { .. } => EventKind::BestRing,
            EventView::BestOfRing { .. } => EventKind::BestOfRing,
            EventView::PatronSelection { .. } => EventKind::PatronSelection,
            EventView::DeterministicTieBreaker { .. } => EventKind::DeterministicTieBreaker,
            EventView::DeterministicTieBreakerHash { .. } => EventKind::DeterministicTieBreakerHash,
            EventView::Winner(_) => EventKind::Winner,
        }
    }
}

/// Everything that the counter can publish.
#[derive(Debug)]
pub enum Event {
    VoteDelegation(VoteDelegation),
    VoteDelegationRing(VoteDelegationRing),
    InvalidVote(InvalidVote),
    BestRing(BestRing),
    BestOfRing(BestOfRing),
    PatronSelection(PatronSelection),
    DeterministicTieBreaker(DeterministicTieBreaker),
    DeterministicTieBreakerHash(DeterministicTieBreakerHash),
    Winner(Option<Winner>),
}

impl View for Event {
    type V = EventView;

    open spec fn view(&self) -> EventView {
        match *self {
            Event::VoteDelegation(e) => EventView::VoteDelegation {
                from: e.from,
                to: e.to,
                because_of: e.because_of,
            },
            Event::VoteDelegationRing(e) => EventView::VoteDelegationRing {
                chain: e.chain@,
                next: e.next,
            },
            Event::InvalidVote(e) => EventView::InvalidVote { cause: e.cause, vote: e.vote },
            Event::BestRing(e) => EventView::BestRing {
                best_total_delegated_votes: e.best_total_delegated_votes,
                best_rings_members: Seq::new(
                    e.best_rings_members@.len(),
                    |i: int| e.best_rings_members@[i]@,
                ),
            },
            Event::BestOfRing(e) => EventView::BestOfRing {
                rings_member_scores: e.rings_member_scores@,
                winners: e.winners@,
            },
            Event::PatronSelection(e) => EventView::PatronSelection {
                potential_patron: e.potential_patron,
                potential_patron_votes: e.potential_patron_votes,
                selection: e.selection,
            },
            Event::DeterministicTieBreaker(e) => EventView::DeterministicTieBreaker {
                votes: e.votes,
                tied_candidates: Seq::new(
                    e.tied_candidates@.len(),
                    |i: int| (e.tied_candidates@[i].0, e.tied_candidates@[i].1@),
                ),
            },
            Event::DeterministicTieBreakerHash(e) => EventView::DeterministicTieBreakerHash {
                candidate: e.candidate@,
                bytes: e.bytes@,
                total_indirect_votes: e.total_indirect_votes,
            },
            Event::Winner(e) => EventView::Winner(
                match e {
                    Some(w) => Some((w.candidate, w.votes)),
                    None => None,
                },
            ),
        }
    }
}

impl Event {
    /// The kind under which this event is published.
    pub open spec fn kind_of(self) -> EventKind {
        match self {
            Event::VoteDelegation(_) => EventKind::VoteDelegation,
            Event::VoteDelegationRing(_) => EventKind::VoteDelegationRing,
            Event::InvalidVote(_) => EventKind::InvalidVote,
            Event::BestRing(_) => EventKind::BestRing,
            Event::BestOfRing(_) => EventKind::BestOfRing,
            Event::PatronSelection(_) => EventKind::PatronSelection,
            Event::DeterministicTieBreaker(_) => EventKind::DeterministicTieBreaker,
            Event::DeterministicTieBreakerHash(_) => EventKind::DeterministicTieBreakerHash,
            Event::Winner(_) => EventKind::Winner,
        }
    }

    /// The kind under which this event is published.
    pub fn kind(&self) -> (k: EventKind)
        ensures
            k == self.kind_of(),
    {
        match self {
            Event::VoteDelegation(_) => EventKind::VoteDelegation,
            Event::VoteDelegationRing(_) => EventKind::VoteDelegationRing,
            Event::InvalidVote(_) => EventKind::InvalidVote,
            Event::BestRing(_) => EventKind::BestRing,
            Event::BestOfRing(_) => EventKind::BestOfRing,
            Event::PatronSelection(_) => EventKind::PatronSelection,
            Event::DeterministicTieBreaker(_) => EventKind::DeterministicTieBreaker,
            Event::DeterministicTieBreakerHash(_) => EventKind::DeterministicTieBreakerHash,
            Event::Winner(_) => EventKind::Winner,
        }
    }
}

/// Collects the events of the kinds that were subscribed to, in the order
/// in which they were published. Events of other kinds are dropped, and a
/// publisher can ask first whether anybody listens.
pub struct Introspector {
    kinds: Vec<EventKind>,
    log: Vec<Event>,
}

impl Introspector {
    /// The kinds that somebody subscribed to.
    pub closed spec fn subscriptions(&self) -> Set<EventKind> {
        self.kinds@.to_set()
    }

    /// The events recorded so far, oldest first.
    pub closed spec fn recorded(&self) -> Seq<Event> {
        self.log@
    }

    /// What `recorded` is after `e` was published to a sink with the
    /// subscriptions `subs` that had recorded `log`.
    pub open spec fn publish(subs: Set<EventKind>, log: Seq<Event>, e: Event) -> Seq<Event> {
        if subs.contains(e.kind_of()) {
            log.push(e)
        } else {
            log
        }
    }

    /// What the events recorded so far say, oldest first.
    pub open spec fn heard(&self) -> Seq<EventView> {
        self.recorded().map_values(|e: Event| e@)
    }

    /// Those of `events` that a sink with the subscriptions `subs` records.
    pub open spec fn filtered(subs: Set<EventKind>, events: Seq<EventView>) -> Seq<EventView>
        decreases events.len(),
    {
        if events.len() == 0 {
            Seq::empty()
        } else {
            let rest = Self::filtered(subs, events.drop_last());
            if subs.contains(events.last().kind()) {
                rest.push(events.last())
            } else {
                rest
            }
        }
    }

    /// Since `before`, `events` were published to this sink and nothing
    /// else: its subscriptions are the same, and it has recorded those of
    /// `events` that were subscribed to, in their order, after what it had
    /// recorded.
    pub open spec fn has_heard(&self, before: Introspector, events: Seq<EventView>) -> bool {
        &&& self.subscriptions() == before.subscriptions()
        &&& self.heard() == before.heard() + Self::filtered(before.subscriptions(), events)
    }

    /// A sink without subscriptions.
    pub fn new() -> (is: Introspector)
        ensures
            is.subscriptions() == Set::<EventKind>::empty(),
            is.recorded() == Seq::<Event>::empty(),
    {
        let is = Introspector { kinds: Vec::new(), log: Vec::new() };
        assert(is.kinds@.to_set() =~= Set::<EventKind>::empty());
        is
    }

    /// From now on events of `kind` are recorded.
    pub fn subscribe(&mut self, kind: EventKind)
        ensures
            final(self).subscriptions() == old(self).subscriptions().insert(kind),
            final(self).recorded() == old(self).recorded(),
    {
        self.kinds.push(kind);
        assert(self.kinds@.to_set() =~= old(self).kinds@.to_set().insert(kind)) by {
            assert forall|k: EventKind| self.kinds@.contains(k) <==> old(self).kinds@.contains(k)
                || k == kind by {
                if old(self).kinds@.contains(k) {
                    let i = choose|i: int| 0 <= i < old(self).kinds@.len() && old(self).kinds@[i] == k;
                    assert(self.kinds@[i] == k);
                }
                if k == kind {
                    assert(self.kinds@[self.kinds@.len() - 1] == k);
                }
            }
        }
    }

    /// Does anybody listen to events of `kind`? A publisher asks before it
    /// builds an event, so that nothing is built that nobody wants.
    pub fn is_subscribed(&self, kind: EventKind) -> (b: bool)
        ensures
            b == self.subscriptions().contains(kind),
    {
        let mut i: usize = 0;
        while i < self.kinds.len()
            invariant
                i <= self.kinds.len(),
                forall|j: int| 0 <= j < i ==> self.kinds@[j] != kind,
            decreases self.kinds.len() - i,
        {
            if self.kinds[i] == kind {
                return true;
            }
            i += 1;
        }
        false
    }

    /// Publishes `e`: it is recorded if its kind was subscribed to.
    pub fn event(&mut self, e: Event)
        ensures
            final(self).subscriptions() == old(self).subscriptions(),
            final(self).recorded() == Self::publish(
                old(self).subscriptions(),
                old(self).recorded(),
                e,
            ),
            final(self).has_heard(*old(self), seq![e@]),
    {
        proof {
            lemma_filtered_one(self.subscriptions(), e@);
            assert(e@.kind() == e.kind_of());
        }
        if self.is_subscribed(e.kind()) {
            self.log.push(e);
            assert(self.heard() =~= old(self).heard() + seq![e@]);
        } else {
            assert(self.heard() =~= old(self).heard() + Seq::<EventView>::empty());
        }
    }

    /// The events recorded so far, oldest first.
    pub fn events(&self) -> (log: &Vec<Event>)
        ensures
            log@ == self.recorded(),
    {
        &self.log
    }

    /// Hands out the recorded events and starts a new record.
    pub fn take_events(&mut self) -> (log: Vec<Event>)
        ensures
            log@ == old(self).recorded(),
            final(self).recorded() == Seq::<Event>::empty(),
            final(self).subscriptions() == old(self).subscriptions(),
    {
        let mut log: Vec<Event> = Vec::new();
        std::mem::swap(&mut self.log, &mut log);
        log
    }
}


impl Default for Introspector {
    /// A sink without subscriptions.
    fn default() -> (is: Introspector)
        ensures
            is.subscriptions() == Set::<EventKind>::empty(),
            is.recorded() == Seq::<Event>::empty(),
    {
        Introspector::new()
    }
}

/// What a sink records of one event.
pub proof fn lemma_filtered_one(subs: Set<EventKind>, event: EventView)
    ensures
        Introspector::filtered(subs, seq![event]) == (if subs.contains(event.kind()) {
            seq![event]
        } else {
            Seq::empty()
        }),
{
    assert(seq![event].drop_last() =~= Seq::<EventView>::empty());
    assert(Introspector::filtered(subs, Seq::<EventView>::empty()) == Seq::<EventView>::empty());
    assert(seq![event].last() == event);
    assert(Seq::<EventView>::empty().push(event) =~= seq![event]);
}

/// A sink records of two runs of events what it records of each.
pub proof fn lemma_filtered_concat(subs: Set<EventKind>, a: Seq<EventView>, b: Seq<EventView>)
    ensures
        Introspector::filtered(subs, a + b) == Introspector::filtered(subs, a)
            + Introspector::filtered(subs, b),
    decreases b.len(),
{
    if b.len() == 0 {
        assert(a + b =~= a);
        assert(Introspector::filtered(subs, a) + Seq::<EventView>::empty()
            =~= Introspector::filtered(subs, a));
    } else {
        lemma_filtered_concat(subs, a, b.drop_last());
        assert((a + b).drop_last() =~= a + b.drop_last());
        assert((a + b).last() == b.last());
        let fa = Introspector::filtered(subs, a);
        let fb = Introspector::filtered(subs, b.drop_last());
        assert((fa + fb).push(b.last()) =~= fa + fb.push(b.last()));
    }
}

/// A sink that has heard two runs of events has heard the one after the
/// other.
pub proof fn lemma_heard_more(
    first: Introspector,
    second: Introspector,
    third: Introspector,
    early: Seq<EventView>,
    late: Seq<EventView>,
)
    requires
        second.has_heard(first, early),
        third.has_heard(second, late),
    ensures
        third.has_heard(first, early + late),
{
    let subs = first.subscriptions();
    lemma_filtered_concat(subs, early, late);
    assert(first.heard() + (Introspector::filtered(subs, early) + Introspector::filtered(
        subs,
        late,
    )) =~= first.heard() + Introspector::filtered(subs, early) + Introspector::filtered(
        subs,
        late,
    ));
}

/// A sink to which nothing was published has heard nothing more.
pub proof fn lemma_heard_nothing(is: Introspector)
    ensures
        is.has_heard(is, Seq::empty()),
{
    assert(is.heard() + Seq::<EventView>::empty() =~= is.heard());
}

/// An event that nobody listens to is as good as published.
pub proof fn lemma_unheard(sink: Introspector, event: EventView)
    requires
        !sink.subscriptions().contains(event.kind()),
    ensures
        sink.has_heard(sink, seq![event]),
{
    lemma_filtered_one(sink.subscriptions(), event);
    assert(sink.heard() + Seq::<EventView>::empty() =~= sink.heard());
}

} // verus!
