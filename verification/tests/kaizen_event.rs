use event_ledgers::error::LedgerError;
use event_ledgers::kaizen_event::{Airdrop, KaizenEvent};
use event_ledgers::principal::{Authorization, Principal};

fn organizer() -> Principal {
    Principal::account(0, 1)
}

fn guest(n: u128) -> Principal {
    Principal::account(4, n)
}

#[test]
fn event_before_init() {
    let mut event = KaizenEvent::new();
    assert_eq!(event.info(), Err(LedgerError::NotInitialized));
    assert!(!event.has_joined(guest(1)));
    assert_eq!(
        event.set_token(&Authorization::of(organizer()), organizer(), Principal::contract(1, 1)),
        Err(LedgerError::NotInitialized)
    );
}

#[test]
fn event_is_initialized_once_by_its_organizer() {
    let mut event = KaizenEvent::new();
    assert_eq!(
        event.init(&Authorization::none(), organizer(), String::from("Kaizen"), None),
        Err(LedgerError::Unauthorized)
    );
    assert_eq!(event.info(), Err(LedgerError::NotInitialized));
    assert_eq!(
        event.init(&Authorization::of(organizer()), organizer(), String::from("Kaizen"), None),
        Ok(())
    );
    assert_eq!(event.info(), Ok((String::from("Kaizen"), organizer(), None, 0)));
    assert_eq!(
        event.init(&Authorization::of(guest(1)), guest(1), String::from("Other"), None),
        Err(LedgerError::AlreadyInitialized)
    );
    assert_eq!(event.info(), Ok((String::from("Kaizen"), organizer(), None, 0)));
}

#[test]
fn joining_is_counted_once_for_each_attendee() {
    let mut event = KaizenEvent::new();
    event
        .init(&Authorization::of(organizer()), organizer(), String::from("Kaizen"), None)
        .unwrap();
    assert_eq!(event.join(&Authorization::of(guest(1)), guest(1)), Ok(None));
    assert_eq!(event.join(&Authorization::of(guest(2)), guest(2)), Ok(None));
    assert!(event.has_joined(guest(1)));
    assert!(event.has_joined(guest(2)));
    assert!(!event.has_joined(guest(3)));
    assert_eq!(
        event.join(&Authorization::of(guest(1)), guest(1)),
        Err(LedgerError::AlreadyJoined)
    );
    assert_eq!(
        event.join(&Authorization::of(guest(1)), guest(3)),
        Err(LedgerError::Unauthorized)
    );
    assert_eq!(event.info().unwrap().3, 2);
}

#[test]
fn joining_with_a_token_set_owes_one_unit() {
    let token = Principal::contract(9, 9);
    let mut event = KaizenEvent::new();
    event
        .init(&Authorization::of(organizer()), organizer(), String::from("Kaizen"), Some(token))
        .unwrap();
    assert_eq!(event.info(), Ok((String::from("Kaizen"), organizer(), Some(token), 0)));
    assert_eq!(
        event.join(&Authorization::of(guest(1)), guest(1)),
        Ok(Some(Airdrop { token, to: guest(1), amount: 1 }))
    );
}

#[test]
fn only_the_organizer_sets_the_token() {
    let token = Principal::contract(9, 9);
    let other = Principal::contract(9, 10);
    let mut event = KaizenEvent::new();
    event
        .init(&Authorization::of(organizer()), organizer(), String::from("Kaizen"), None)
        .unwrap();
    assert_eq!(
        event.set_token(&Authorization::of(guest(1)), guest(1), token),
        Err(LedgerError::Unauthorized)
    );
    assert_eq!(
        event.set_token(&Authorization::of(guest(1)), organizer(), token),
        Err(LedgerError::Unauthorized)
    );
    assert_eq!(event.info().unwrap().2, None);
    assert_eq!(event.set_token(&Authorization::of(organizer()), organizer(), token), Ok(()));
    assert_eq!(event.info().unwrap().2, Some(token));
    assert_eq!(event.set_token(&Authorization::of(organizer()), organizer(), other), Ok(()));
    assert_eq!(
        event.join(&Authorization::of(guest(1)), guest(1)),
        Ok(Some(Airdrop { token: other, to: guest(1), amount: 1 }))
    );
}

#[test]
fn joins_before_init_are_not_counted_after_it() {
    let mut event = KaizenEvent::new();
    assert_eq!(event.join(&Authorization::of(guest(1)), guest(1)), Ok(None));
    event
        .init(&Authorization::of(organizer()), organizer(), String::from("Kaizen"), None)
        .unwrap();
    assert!(event.has_joined(guest(1)));
    assert_eq!(event.info().unwrap().3, 0);
    assert_eq!(event.join(&Authorization::of(guest(2)), guest(2)), Ok(None));
    assert_eq!(event.info().unwrap().3, 1);
}
