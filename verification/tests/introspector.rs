use electorium::introspector::{
    Event, EventKind, Introspector, InvalidVote, InvalidVoteCause, VoteDelegation, Winner,
};

#[test]
fn introspector_starts_without_subscriptions() {
    let is = Introspector::new();
    assert!(!is.is_subscribed(EventKind::Winner));
    assert!(!is.is_subscribed(EventKind::InvalidVote));
    assert!(is.events().is_empty());
}

#[test]
fn introspector_records_what_was_subscribed_to() {
    let mut is = Introspector::new();
    is.subscribe(EventKind::Winner);
    assert!(is.is_subscribed(EventKind::Winner));
    assert!(!is.is_subscribed(EventKind::VoteDelegation));
    is.event(Event::VoteDelegation(VoteDelegation { from: 0, to: 1, because_of: 0 }));
    assert!(is.events().is_empty());
    is.event(Event::Winner(Some(Winner { candidate: 3, votes: 9 })));
    is.event(Event::Winner(None));
    assert_eq!(is.events().len(), 2);
    match &is.events()[0] {
        Event::Winner(Some(w)) => {
            assert_eq!(w.candidate, 3);
            assert_eq!(w.votes, 9);
        }
        _ => panic!("the first event is the winner"),
    }
    assert!(matches!(is.events()[1], Event::Winner(None)));
}

#[test]
fn introspector_subscribing_twice_records_once() {
    let mut is = Introspector::new();
    is.subscribe(EventKind::InvalidVote);
    is.subscribe(EventKind::InvalidVote);
    is.event(Event::InvalidVote(InvalidVote { cause: InvalidVoteCause::NoVote, vote: 2 }));
    assert_eq!(is.events().len(), 1);
}

#[test]
fn introspector_take_events_starts_a_new_record() {
    let mut is = Introspector::new();
    is.subscribe(EventKind::InvalidVote);
    is.event(Event::InvalidVote(InvalidVote { cause: InvalidVoteCause::SelfVote, vote: 1 }));
    let taken = is.take_events();
    assert_eq!(taken.len(), 1);
    assert!(is.events().is_empty());
    assert!(is.is_subscribed(EventKind::InvalidVote));
    is.event(Event::InvalidVote(InvalidVote { cause: InvalidVoteCause::Duplicate, vote: 4 }));
    assert_eq!(is.events().len(), 1);
}

#[test]
fn event_kind_names_the_kind_of_each_event() {
    let e = Event::InvalidVote(InvalidVote { cause: InvalidVoteCause::UnrecognizedVote, vote: 0 });
    assert_eq!(e.kind(), EventKind::InvalidVote);
    assert_eq!(Event::Winner(None).kind(), EventKind::Winner);
    let d = Event::VoteDelegation(VoteDelegation { from: 0, to: 1, because_of: 0 });
    assert_eq!(d.kind(), EventKind::VoteDelegation);
}

#[test]
fn introspector_by_default_listens_to_nothing() {
    let mut is = Introspector::default();
    assert!(!is.is_subscribed(EventKind::BestRing));
    is.event(Event::Winner(None));
    assert!(is.events().is_empty());
}
