use event_ledgers::error::LedgerError;
use event_ledgers::event_manager::{Event, EventManager};
use event_ledgers::principal::{Authorization, Principal};

fn organizer() -> Principal {
    Principal::account(0, 100)
}

fn attendee(n: u128) -> Principal {
    Principal::account(1, n)
}

fn create(ledger: &mut EventManager, max_attendees: u32) -> u64 {
    ledger
        .create_event(
            &Authorization::of(organizer()),
            organizer(),
            String::from("Rust meetup"),
            String::from("Monthly meetup"),
            1_700_000_000,
            String::from("Lisbon"),
            250,
            max_attendees,
            40,
        )
        .unwrap()
}

#[test]
fn created_event_is_recorded_as_given() {
    let mut ledger = EventManager::new();
    assert_eq!(ledger.get_event_count(), 0);
    let id = create(&mut ledger, 3);
    assert_eq!(id, 1);
    assert_eq!(ledger.get_event_count(), 1);
    assert_eq!(
        ledger.get_event(1),
        Ok(Event {
            id: 1,
            title: String::from("Rust meetup"),
            description: String::from("Monthly meetup"),
            organizer: organizer(),
            date: 1_700_000_000,
            location: String::from("Lisbon"),
            price: 250,
            max_attendees: 3,
            current_attendees: 0,
            is_active: true,
            nft_contract: None,
            token_reward_amount: 40,
        })
    );
    assert_eq!(ledger.get_event_attendees(1), Vec::<Principal>::new());
    assert_eq!(create(&mut ledger, 3), 2);
    assert_eq!(ledger.get_event_count(), 2);
}

#[test]
fn create_event_needs_the_organizer() {
    let mut ledger = EventManager::new();
    let r = ledger.create_event(
        &Authorization::of(attendee(1)),
        organizer(),
        String::from("t"),
        String::from("d"),
        1,
        String::from("l"),
        0,
        1,
        0,
    );
    assert_eq!(r, Err(LedgerError::Unauthorized));
    assert_eq!(ledger.get_event_count(), 0);
    assert_eq!(ledger.get_event(1), Err(LedgerError::NotFound));
}

#[test]
fn init_writes_the_counter_once() {
    let mut ledger = EventManager::new();
    assert_eq!(ledger.init(), Ok(()));
    assert_eq!(ledger.get_event_count(), 0);
    assert_eq!(ledger.init(), Err(LedgerError::AlreadyInitialized));
    assert_eq!(create(&mut ledger, 1), 1);

    let mut used = EventManager::new();
    assert_eq!(create(&mut used, 1), 1);
    assert_eq!(used.init(), Err(LedgerError::AlreadyInitialized));
    assert_eq!(used.get_event_count(), 1);
}

#[test]
fn ticket_ids_of_event_seven() {
    let mut ledger = EventManager::new();
    for _ in 0..7 {
        create(&mut ledger, 10);
    }
    let first = attendee(1);
    let second = attendee(2);
    assert_eq!(ledger.purchase_ticket(&Authorization::of(first), first, 7, 100), Ok(70001));
    assert_eq!(ledger.purchase_ticket(&Authorization::of(second), second, 7, 101), Ok(70002));
    assert_eq!(ledger.purchase_ticket(&Authorization::of(first), first, 3, 102), Ok(30001));
    assert_eq!(ledger.get_user_tickets(first), vec![70001, 30001]);
    assert_eq!(ledger.get_user_tickets(second), vec![70002]);
    assert_eq!(ledger.get_event_attendees(7), vec![first, second]);
    assert_eq!(ledger.get_event_attendees(3), vec![first]);
    assert_eq!(ledger.get_event(7).unwrap().current_attendees, 2);
    assert!(ledger.has_ticket(first, 7));
    assert!(ledger.has_ticket(first, 3));
    assert!(!ledger.has_ticket(second, 3));
}

#[test]
fn full_event_sells_no_ticket() {
    let mut ledger = EventManager::new();
    create(&mut ledger, 1);
    let first = attendee(1);
    let second = attendee(2);
    assert_eq!(ledger.purchase_ticket(&Authorization::of(first), first, 1, 5), Ok(10001));
    assert_eq!(ledger.get_event(1).unwrap().current_attendees, 1);
    assert_eq!(
        ledger.purchase_ticket(&Authorization::of(second), second, 1, 6),
        Err(LedgerError::CapacityExceeded)
    );
    assert_eq!(ledger.get_event(1).unwrap().current_attendees, 1);
    assert!(!ledger.has_ticket(second, 1));
    assert_eq!(ledger.get_event_attendees(1), vec![first]);
    assert_eq!(ledger.get_user_tickets(second), Vec::<u64>::new());
}

#[test]
fn event_without_places_sells_no_ticket() {
    let mut ledger = EventManager::new();
    create(&mut ledger, 0);
    let first = attendee(1);
    assert_eq!(
        ledger.purchase_ticket(&Authorization::of(first), first, 1, 5),
        Err(LedgerError::CapacityExceeded)
    );
}

#[test]
fn one_ticket_for_each_attendee() {
    let mut ledger = EventManager::new();
    create(&mut ledger, 5);
    let first = attendee(1);
    assert_eq!(ledger.purchase_ticket(&Authorization::of(first), first, 1, 5), Ok(10001));
    assert_eq!(
        ledger.purchase_ticket(&Authorization::of(first), first, 1, 6),
        Err(LedgerError::DuplicateTicket)
    );
    assert_eq!(ledger.get_event(1).unwrap().current_attendees, 1);
    assert_eq!(ledger.get_user_tickets(first), vec![10001]);
    assert_eq!(ledger.get_event_attendees(1), vec![first]);
}

#[test]
fn successes_never_exceed_the_places() {
    let mut ledger = EventManager::new();
    create(&mut ledger, 3);
    let mut sold = 0;
    for round in 0..2 {
        for n in 0..5u128 {
            let who = attendee(n);
            if ledger.purchase_ticket(&Authorization::of(who), who, 1, round).is_ok() {
                sold += 1;
            }
        }
    }
    assert_eq!(sold, 3);
    assert_eq!(ledger.get_event(1).unwrap().current_attendees, 3);
    assert_eq!(ledger.get_event_attendees(1), vec![attendee(0), attendee(1), attendee(2)]);
}

#[test]
fn purchase_needs_the_attendee() {
    let mut ledger = EventManager::new();
    create(&mut ledger, 5);
    let first = attendee(1);
    assert_eq!(
        ledger.purchase_ticket(&Authorization::none(), first, 1, 5),
        Err(LedgerError::Unauthorized)
    );
    assert_eq!(
        ledger.purchase_ticket(&Authorization::of(organizer()), first, 1, 5),
        Err(LedgerError::Unauthorized)
    );
    assert!(!ledger.has_ticket(first, 1));
}

#[test]
fn purchase_for_an_unknown_event() {
    let mut ledger = EventManager::new();
    create(&mut ledger, 5);
    let first = attendee(1);
    assert_eq!(
        ledger.purchase_ticket(&Authorization::of(first), first, 2, 5),
        Err(LedgerError::NotFound)
    );
    assert_eq!(
        ledger.purchase_ticket(&Authorization::of(first), first, 0, 5),
        Err(LedgerError::NotFound)
    );
}

#[test]
fn closed_event_sells_no_ticket() {
    let mut ledger = EventManager::new();
    create(&mut ledger, 5);
    let auth = Authorization::of(organizer());
    assert_eq!(ledger.update_event_status(&auth, organizer(), 1, false), Ok(()));
    assert!(!ledger.get_event(1).unwrap().is_active);
    let first = attendee(1);
    assert_eq!(
        ledger.purchase_ticket(&Authorization::of(first), first, 1, 5),
        Err(LedgerError::InvalidState)
    );
    assert_eq!(ledger.update_event_status(&auth, organizer(), 1, true), Ok(()));
    assert_eq!(ledger.purchase_ticket(&Authorization::of(first), first, 1, 5), Ok(10001));
}

#[test]
fn refusals_come_in_order() {
    // a closed and full event on which the attendee has a ticket
    let mut ledger = EventManager::new();
    create(&mut ledger, 1);
    let first = attendee(1);
    assert_eq!(ledger.purchase_ticket(&Authorization::of(first), first, 1, 5), Ok(10001));
    assert_eq!(
        ledger.purchase_ticket(&Authorization::of(first), first, 1, 5),
        Err(LedgerError::CapacityExceeded)
    );
    let auth = Authorization::of(organizer());
    assert_eq!(ledger.update_event_status(&auth, organizer(), 1, false), Ok(()));
    assert_eq!(
        ledger.purchase_ticket(&Authorization::of(first), first, 1, 5),
        Err(LedgerError::InvalidState)
    );
    assert_eq!(
        ledger.purchase_ticket(&Authorization::none(), first, 9, 5),
        Err(LedgerError::Unauthorized)
    );
}

#[test]
fn only_the_organizer_edits_an_event() {
    let mut ledger = EventManager::new();
    create(&mut ledger, 5);
    let stranger = attendee(9);
    assert_eq!(
        ledger.update_event_status(&Authorization::of(stranger), stranger, 1, false),
        Err(LedgerError::Unauthorized)
    );
    assert_eq!(
        ledger.update_event_status(&Authorization::of(stranger), organizer(), 1, false),
        Err(LedgerError::Unauthorized)
    );
    assert_eq!(
        ledger.update_event_status(&Authorization::of(organizer()), organizer(), 2, false),
        Err(LedgerError::NotFound)
    );
    assert!(ledger.get_event(1).unwrap().is_active);
    assert_eq!(
        ledger.set_event_nft_contract(&Authorization::of(stranger), stranger, 1, stranger),
        Err(LedgerError::Unauthorized)
    );
    assert_eq!(
        ledger.set_event_nft_contract(&Authorization::of(organizer()), organizer(), 2, stranger),
        Err(LedgerError::NotFound)
    );
    assert_eq!(ledger.get_event(1).unwrap().nft_contract, None);
}

#[test]
fn nft_contract_is_kept_as_given() {
    let mut ledger = EventManager::new();
    create(&mut ledger, 5);
    let first = attendee(1);
    assert_eq!(ledger.purchase_ticket(&Authorization::of(first), first, 1, 5), Ok(10001));
    let contract = Principal::contract(5, 5);
    assert_eq!(
        ledger.set_event_nft_contract(&Authorization::of(organizer()), organizer(), 1, contract),
        Ok(())
    );
    let event = ledger.get_event(1).unwrap();
    assert_eq!(event.nft_contract, Some(contract));
    assert_eq!(event.current_attendees, 1);
    assert_eq!(event.max_attendees, 5);
    assert!(event.is_active);
    assert_eq!(event.title, "Rust meetup");
}

#[test]
fn reads_of_an_empty_ledger() {
    let ledger = EventManager::new();
    assert_eq!(ledger.get_event_count(), 0);
    assert_eq!(ledger.get_event(1), Err(LedgerError::NotFound));
    assert_eq!(ledger.get_user_tickets(attendee(1)), Vec::<u64>::new());
    assert_eq!(ledger.get_event_attendees(1), Vec::<Principal>::new());
    assert!(!ledger.has_ticket(attendee(1), 1));
}
