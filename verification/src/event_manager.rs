//! Events and the tickets sold for them.
//!
//! An event has a fixed number of places. A ticket is sold to an attendee
//! once for an event, while the event is active and has a place left. The
//! attendees of an event and the tickets of a principal are also kept as
//! lists, in the order of purchase, and agree with the ticket records.

use vstd::prelude::*;
use crate::error::LedgerError;
use crate::identity::IdCounter;
use crate::principal::{Authorization, Principal};
use crate::relation::RelationIndex;
use crate::table::{EventParty, Table};

verus! {

/// An event, as it is recorded.
#[derive(Debug, PartialEq, Eq)]
pub struct Event {
    pub id: u64,
    pub title: String,
    pub description: String,
    pub organizer: Principal,
    pub date: u64,
    pub location: String,
    pub price: i128,
    pub max_attendees: u32,
    pub current_attendees: u32,
    pub is_active: bool,
    pub nft_contract: Option<Principal>,
    pub token_reward_amount: i128,
}

impl Clone for Event {
    fn clone(&self) -> (r: Self)
        ensures
            r == *self,
    {
        Event {
            id: self.id,
            title: self.title.clone(),
            description: self.description.clone(),
            organizer: self.organizer,
            date: self.date,
            location: self.location.clone(),
            price: self.price,
            max_attendees: self.max_attendees,
            current_attendees: self.current_attendees,
            is_active: self.is_active,
            nft_contract: self.nft_contract,
            token_reward_amount: self.token_reward_amount,
        }
    }
}

/// What the organizer says of an event when creating it.
pub struct EventDetails {
    pub title: String,
    pub description: String,
    pub organizer: Principal,
    pub date: u64,
    pub location: String,
    pub price: i128,
    pub max_attendees: u32,
    pub token_reward_amount: i128,
}

/// The ticket of one attendee for one event.
#[derive(Clone, Copy, Debug, PartialEq, Eq, Structural)]
pub struct Ticket {
    pub event_id: u64,
    pub attendee: Principal,
    pub purchase_timestamp: u64,
    pub ticket_id: u64,
}

/// The distance between the ticket ids of two events that follow each
/// other.
pub const TICKET_ID_STRIDE: u64 = 10000;

/// The ticket id of the attendee that is number `ordinal` of the event,
/// counted from 0.
pub open spec fn ticket_id_of(event_id: u64, ordinal: int) -> int {
    event_id * TICKET_ID_STRIDE + ordinal + 1
}

/// The id of a ticket tells event and place: among the first 10000
/// attendees of each event no two tickets, of one event or of two, have the
/// same id.
pub proof fn lemma_ticket_ids_differ(event_a: u64, ordinal_a: int, event_b: u64, ordinal_b: int)
    requires
        0 <= ordinal_a < TICKET_ID_STRIDE,
        0 <= ordinal_b < TICKET_ID_STRIDE,
        ticket_id_of(event_a, ordinal_a) == ticket_id_of(event_b, ordinal_b),
    ensures
        event_a == event_b,
        ordinal_a == ordinal_b,
{
}

/// The event ledger as a mathematical value.
pub struct EventsState {
    /// The event counter as it is kept.
    pub counter: Option<u64>,
    /// The events, by id.
    pub events: Map<u64, Event>,
    /// The tickets, by event and attendee.
    pub tickets: Map<EventParty, Ticket>,
    /// The attendee lists that are kept, by event.
    pub attendees: Map<u64, Seq<Principal>>,
    /// The ticket-id lists that are kept, by principal.
    pub user_tickets: Map<Principal, Seq<u64>>,
}

impl EventsState {
    /// The ledger before anything was written.
    pub open spec fn blank() -> EventsState {
        EventsState {
            counter: None,
            events: Map::empty(),
            tickets: Map::empty(),
            attendees: Map::empty(),
            user_tickets: Map::empty(),
        }
    }

    /// The number of events created so far, which is the id of the last.
    pub open spec fn event_count(self) -> u64 {
        match self.counter {
            Some(n) => n,
            None => 0,
        }
    }

    /// The attendees of the event, in the order of purchase.
    pub open spec fn attendees_of(self, event_id: u64) -> Seq<Principal> {
        if self.attendees.contains_key(event_id) {
            self.attendees[event_id]
        } else {
            Seq::empty()
        }
    }

    /// The ticket ids of `user`, in the order of purchase.
    pub open spec fn tickets_of(self, user: Principal) -> Seq<u64> {
        if self.user_tickets.contains_key(user) {
            self.user_tickets[user]
        } else {
            Seq::empty()
        }
    }

    /// Whether `user` holds a ticket for the event.
    pub open spec fn has_ticket(self, user: Principal, event_id: u64) -> bool {
        self.tickets.contains_key(EventParty { event_id, party: user })
    }

    /// Whether `user` holds a ticket with the id `ticket_id`.
    pub open spec fn holds_ticket_id(self, user: Principal, ticket_id: u64) -> bool {
        exists|id: u64| #[trigger]
            self.has_ticket(user, id) && self.tickets[EventParty {
                event_id: id,
                party: user,
            }].ticket_id == ticket_id
    }

    /// The events are those whose ids the counter has issued. An event is
    /// recorded under its id, is never over-booked, and has as many
    /// attendees as its record says, none of them twice. Only events have
    /// attendees.
    pub open spec fn events_wf(self) -> bool {
        &&& forall|id: u64| #[trigger]
            self.events.contains_key(id) <==> 1 <= id <= self.event_count()
        &&& forall|id: u64| #[trigger]
            self.events.contains_key(id) ==> {
                &&& self.events[id].id == id
                &&& self.events[id].current_attendees <= self.events[id].max_attendees
                &&& self.attendees_of(id).len() == self.events[id].current_attendees
                &&& self.attendees_of(id).no_duplicates()
            }
        &&& forall|id: u64|
            !self.events.contains_key(id) ==> #[trigger] self.attendees_of(id).len() == 0
    }

    /// The attendees of an event are the holders of its tickets. A ticket
    /// names its event and attendee, and its id tells the event and the
    /// attendee's place in it.
    pub open spec fn tickets_wf(self) -> bool {
        &&& forall|k: EventParty| #[trigger]
            self.tickets.contains_key(k) <==> self.attendees_of(k.event_id).contains(k.party)
        &&& forall|k: EventParty| #[trigger]
            self.tickets.contains_key(k) ==> self.tickets[k].event_id == k.event_id
                && self.tickets[k].attendee == k.party
        &&& forall|id: u64, i: int|
            0 <= i < self.attendees_of(id).len() ==> (#[trigger] self.tickets[EventParty {
                event_id: id,
                party: self.attendees_of(id)[i],
            }]).ticket_id == ticket_id_of(id, i)
    }

    /// The list of a principal holds the ids of its tickets, and no other.
    pub open spec fn lists_wf(self) -> bool {
        &&& forall|k: EventParty| #[trigger]
            self.tickets.contains_key(k) ==> self.tickets_of(k.party).contains(
                self.tickets[k].ticket_id,
            )
        &&& forall|user: Principal, i: int|
            0 <= i < self.tickets_of(user).len() ==> self.holds_ticket_id(
                user,
                #[trigger] self.tickets_of(user)[i],
            )
    }

    /// What holds of the ledger at all times.
    pub open spec fn wf(self) -> bool {
        &&& self.events_wf()
        &&& self.tickets_wf()
        &&& self.lists_wf()
    }

    /// Why writing the counter is refused: it was written before.
    pub open spec fn init_refusal(self) -> Option<LedgerError> {
        if self.counter is Some {
            Some(LedgerError::AlreadyInitialized)
        } else {
            None
        }
    }

    /// The ledger with the counter written, no event counted.
    pub open spec fn init(self) -> EventsState {
        EventsState { counter: Some(0), ..self }
    }

    /// Why creating an event is refused: the organizer has not authorized it,
    /// or the ids are used up.
    pub open spec fn create_refusal(self, auth: Authorization, organizer: Principal) -> Option<
        LedgerError,
    > {
        if !auth.permits(organizer) {
            Some(LedgerError::Unauthorized)
        } else if self.event_count() == u64::MAX {
            Some(LedgerError::Overflow)
        } else {
            None
        }
    }

    /// The record of a new event with the given id: active, without
    /// attendees and without a collectible contract.
    pub open spec fn new_event(id: u64, details: EventDetails) -> Event {
        Event {
            id,
            title: details.title,
            description: details.description,
            organizer: details.organizer,
            date: details.date,
            location: details.location,
            price: details.price,
            max_attendees: details.max_attendees,
            current_attendees: 0,
            is_active: true,
            nft_contract: None,
            token_reward_amount: details.token_reward_amount,
        }
    }

    /// The ledger with a new event recorded under the next id, and with the
    /// empty attendee list for it.
    pub open spec fn create_event(self, details: EventDetails) -> EventsState {
        let id = (self.event_count() + 1) as u64;
        EventsState {
            counter: Some(id),
            events: self.events.insert(id, Self::new_event(id, details)),
            attendees: self.attendees.insert(id, Seq::empty()),
            ..self
        }
    }

    /// Why a purchase is refused, the first that applies: the attendee has not
    /// authorized it; the event is unknown; it is not active; it is full; the
    /// attendee holds a ticket for it; the ticket id is out of range.
    pub open spec fn purchase_refusal(
        self,
        auth: Authorization,
        attendee: Principal,
        event_id: u64,
    ) -> Option<LedgerError> {
        if !auth.permits(attendee) {
            Some(LedgerError::Unauthorized)
        } else if !self.events.contains_key(event_id) {
            Some(LedgerError::NotFound)
        } else if !self.events[event_id].is_active {
            Some(LedgerError::InvalidState)
        } else if self.events[event_id].current_attendees >= self.events[event_id].max_attendees {
            Some(LedgerError::CapacityExceeded)
        } else if self.has_ticket(attendee, event_id) {
            Some(LedgerError::DuplicateTicket)
        } else if ticket_id_of(event_id, self.events[event_id].current_attendees as int)
            > u64::MAX {
            Some(LedgerError::Overflow)
        } else {
            None
        }
    }

    /// The id of the ticket that the next attendee of the event gets.
    pub open spec fn next_ticket_id(self, event_id: u64) -> int {
        ticket_id_of(event_id, self.events[event_id].current_attendees as int)
    }

    /// The ledger after `attendee` bought a ticket for the event at the time
    /// `now`: the event counts one attendee more, the ticket is recorded, and
    /// attendee and ticket id stand last in their lists.
    pub open spec fn purchase_ticket(self, attendee: Principal, event_id: u64, now: u64) -> EventsState {
        let ticket_id = self.next_ticket_id(event_id) as u64;
        EventsState {
            events: self.events.insert(
                event_id,
                Event {
                    current_attendees: (self.events[event_id].current_attendees + 1) as u32,
                    ..self.events[event_id]
                },
            ),
            tickets: self.tickets.insert(
                EventParty { event_id, party: attendee },
                Ticket { event_id, attendee, purchase_timestamp: now, ticket_id },
            ),
            attendees: self.attendees.insert(event_id, self.attendees_of(event_id).push(attendee)),
            user_tickets: self.user_tickets.insert(
                attendee,
                self.tickets_of(attendee).push(ticket_id),
            ),
            ..self
        }
    }

    /// Why a call that only the organizer of the event may make is refused.
    pub open spec fn organizer_refusal(
        self,
        auth: Authorization,
        organizer: Principal,
        event_id: u64,
    ) -> Option<LedgerError> {
        if !auth.permits(organizer) {
            Some(LedgerError::Unauthorized)
        } else if !self.events.contains_key(event_id) {
            Some(LedgerError::NotFound)
        } else if self.events[event_id].organizer != organizer {
            Some(LedgerError::Unauthorized)
        } else {
            None
        }
    }

    /// The ledger with the event opened or closed.
    pub open spec fn update_event_status(self, event_id: u64, is_active: bool) -> EventsState {
        EventsState {
            events: self.events.insert(event_id, Event { is_active, ..self.events[event_id] }),
            ..self
        }
    }

    /// The ledger with the collectible contract noted on the event.
    pub open spec fn set_event_nft_contract(self, event_id: u64, nft_contract: Principal) -> EventsState {
        EventsState {
            events: self.events.insert(
                event_id,
                Event { nft_contract: Some(nft_contract), ..self.events[event_id] },
            ),
            ..self
        }
    }
}

/// A ledger that keeps every ticket keeps every principal's hold on its
/// ticket ids.
proof fn lemma_holds_ticket_id_kept(
    before: EventsState,
    after: EventsState,
    user: Principal,
    ticket_id: u64,
)
    requires
        before.holds_ticket_id(user, ticket_id),
        forall|k: EventParty| #[trigger]
            before.tickets.contains_key(k) ==> after.tickets.contains_key(k) && after.tickets[k]
                == before.tickets[k],
    ensures
        after.holds_ticket_id(user, ticket_id),
{
    let id = choose|id: u64| #[trigger]
        before.has_ticket(user, id) && before.tickets[EventParty {
            event_id: id,
            party: user,
        }].ticket_id == ticket_id;
    assert(before.tickets.contains_key(EventParty { event_id: id, party: user }));
    assert(after.has_ticket(user, id));
}

/// Writing the counter for the first time keeps the ledger in order.
pub proof fn lemma_init_keeps_wf(s: EventsState)
    requires
        s.wf(),
        s.init_refusal() is None,
    ensures
        s.init().wf(),
{
    let t = s.init();
    assert forall|id: u64| t.attendees_of(id) == s.attendees_of(id) by {}
    assert forall|user: Principal| t.tickets_of(user) == s.tickets_of(user) by {}
    assert forall|user: Principal, i: int| 0 <= i < t.tickets_of(user).len() implies t.holds_ticket_id(
        user,
        #[trigger] t.tickets_of(user)[i],
    ) by {
        lemma_holds_ticket_id_kept(s, t, user, s.tickets_of(user)[i]);
    }
}

/// Recording a new event keeps the ledger in order.
pub proof fn lemma_create_keeps_wf(s: EventsState, details: EventDetails)
    requires
        s.wf(),
        s.event_count() < u64::MAX,
    ensures
        s.create_event(details).wf(),
{
    let t = s.create_event(details);
    let new_id = (s.event_count() + 1) as u64;
    assert(s.attendees_of(new_id).len() == 0);
    assert forall|id: u64| id != new_id implies t.attendees_of(id) == s.attendees_of(id) by {}
    assert(t.attendees_of(new_id) == Seq::<Principal>::empty());
    assert forall|user: Principal| t.tickets_of(user) == s.tickets_of(user) by {}
    assert forall|user: Principal, i: int| 0 <= i < t.tickets_of(user).len() implies t.holds_ticket_id(
        user,
        #[trigger] t.tickets_of(user)[i],
    ) by {
        lemma_holds_ticket_id_kept(s, t, user, s.tickets_of(user)[i]);
    }
    assert forall|k: EventParty| #[trigger]
        t.tickets.contains_key(k) <==> t.attendees_of(k.event_id).contains(k.party) by {
        if k.event_id == new_id {
            assert(!s.attendees_of(new_id).contains(k.party));
        }
    }
    assert forall|id: u64, i: int| 0 <= i < t.attendees_of(id).len() implies (#[trigger] t.tickets[EventParty {
        event_id: id,
        party: t.attendees_of(id)[i],
    }]).ticket_id == ticket_id_of(id, i) by {
        assert(id != new_id);
        assert(s.attendees_of(id)[i] == t.attendees_of(id)[i]);
    }
}

/// Selling a ticket keeps the ledger in order.
pub proof fn lemma_purchase_keeps_wf(s: EventsState, attendee: Principal, event_id: u64, now: u64)
    requires
        s.wf(),
        s.events.contains_key(event_id),
        s.events[event_id].current_attendees < s.events[event_id].max_attendees,
        !s.has_ticket(attendee, event_id),
        s.next_ticket_id(event_id) <= u64::MAX,
    ensures
        s.purchase_ticket(attendee, event_id, now).wf(),
{
    let t = s.purchase_ticket(attendee, event_id, now);
    let key = EventParty { event_id, party: attendee };
    let ticket_id = s.next_ticket_id(event_id) as u64;
    let others = s.attendees_of(event_id);
    let place = others.len() as int;
    assert(!others.contains(attendee)) by {
        assert(!s.tickets.contains_key(key));
    }
    assert forall|id: u64| id != event_id implies t.attendees_of(id) == s.attendees_of(id) by {}
    assert(t.attendees_of(event_id) == others.push(attendee));
    assert forall|user: Principal| user != attendee implies t.tickets_of(user) == s.tickets_of(
        user,
    ) by {}
    assert(t.tickets_of(attendee) == s.tickets_of(attendee).push(ticket_id));
    assert(others.push(attendee).no_duplicates());
    assert forall|k: EventParty| #[trigger]
        t.tickets.contains_key(k) <==> t.attendees_of(k.event_id).contains(k.party) by {
        if k.event_id == event_id {
            if k.party == attendee {
                assert(others.push(attendee)[place] == attendee);
            } else {
                if s.tickets.contains_key(k) {
                    let i = choose|i: int| 0 <= i < others.len() && others[i] == k.party;
                    assert(others.push(attendee)[i] == k.party);
                }
                if others.push(attendee).contains(k.party) {
                    let i = choose|i: int|
                        0 <= i < others.push(attendee).len() && others.push(attendee)[i]
                            == k.party;
                    assert(others[i] == k.party);
                }
            }
        }
    }
    assert forall|id: u64, i: int| 0 <= i < t.attendees_of(id).len() implies (#[trigger] t.tickets[EventParty {
        event_id: id,
        party: t.attendees_of(id)[i],
    }]).ticket_id == ticket_id_of(id, i) by {
        if id == event_id {
            if i < place {
                assert(others[i] == t.attendees_of(id)[i]);
                assert(others.contains(others[i]));
            }
        } else {
            assert(s.attendees_of(id)[i] == t.attendees_of(id)[i]);
        }
    }
    assert forall|k: EventParty| #[trigger] t.tickets.contains_key(k) implies t.tickets_of(
        k.party,
    ).contains(t.tickets[k].ticket_id) by {
        if k == key {
            assert(t.tickets_of(attendee)[s.tickets_of(attendee).len() as int] == ticket_id);
        } else {
            let held = s.tickets_of(k.party);
            let i = choose|i: int| 0 <= i < held.len() && held[i] == s.tickets[k].ticket_id;
            assert(t.tickets_of(k.party)[i] == s.tickets[k].ticket_id);
        }
    }
    assert forall|user: Principal, i: int| 0 <= i < t.tickets_of(user).len() implies t.holds_ticket_id(
        user,
        #[trigger] t.tickets_of(user)[i],
    ) by {
        if user == attendee && i == s.tickets_of(attendee).len() {
            assert(t.has_ticket(attendee, event_id));
        } else {
            assert(t.tickets_of(user)[i] == s.tickets_of(user)[i]);
            lemma_holds_ticket_id_kept(s, t, user, s.tickets_of(user)[i]);
        }
    }
}

/// Rewriting what an event says of itself, but for its id and its
/// attendance, keeps the ledger in order.
pub proof fn lemma_edit_keeps_wf(s: EventsState, event_id: u64, event: Event)
    requires
        s.wf(),
        s.events.contains_key(event_id),
        event.id == event_id,
        event.current_attendees == s.events[event_id].current_attendees,
        event.max_attendees == s.events[event_id].max_attendees,
    ensures
        (EventsState { events: s.events.insert(event_id, event), ..s }).wf(),
{
    let t = EventsState { events: s.events.insert(event_id, event), ..s };
    assert forall|id: u64| t.attendees_of(id) == s.attendees_of(id) by {}
    assert forall|user: Principal| t.tickets_of(user) == s.tickets_of(user) by {}
    assert forall|user: Principal, i: int| 0 <= i < t.tickets_of(user).len() implies t.holds_ticket_id(
        user,
        #[trigger] t.tickets_of(user)[i],
    ) by {
        lemma_holds_ticket_id_kept(s, t, user, s.tickets_of(user)[i]);
    }
}

/// The ledger before anything was written is in order.
pub proof fn lemma_blank_is_wf()
    ensures
        EventsState::blank().wf(),
{
    let s = EventsState::blank();
    assert forall|id: u64| s.attendees_of(id) == Seq::<Principal>::empty() by {}
    assert forall|user: Principal| s.tickets_of(user) == Seq::<u64>::empty() by {}
}

/// The event ledger.
pub struct EventManager {
    counter: IdCounter,
    events: Table<u64, Event>,
    tickets: Table<EventParty, Ticket>,
    attendees: RelationIndex<u64, Principal>,
    user_tickets: RelationIndex<Principal, u64>,
}

impl EventManager {
    /// The ledger as a mathematical value.
    pub closed spec fn view(&self) -> EventsState {
        EventsState {
            counter: self.counter@,
            events: self.events@,
            tickets: self.tickets@,
            attendees: self.attendees@,
            user_tickets: self.user_tickets@,
        }
    }

    /// The ledger before anything was written.
    pub fn new() -> (r: Self)
        ensures
            r@ == EventsState::blank(),
            r@.wf(),
    {
        proof {
            lemma_blank_is_wf();
        }
        EventManager {
            counter: IdCounter::new(),
            events: Table::new(),
            tickets: Table::new(),
            attendees: RelationIndex::new(),
            user_tickets: RelationIndex::new(),
        }
    }

    /// Puts back the event counter as it was persisted.
    pub fn restore_event_count(&mut self, counter: Option<u64>)
        ensures
            final(self)@ == (EventsState { counter, ..old(self)@ }),
    {
        self.counter = IdCounter::restore(counter);
    }

    /// Puts back a persisted event record, under the id it names.
    pub fn restore_event(&mut self, event: Event)
        ensures
            final(self)@ == (EventsState {
                events: old(self)@.events.insert(event.id, event),
                ..old(self)@
            }),
    {
        self.events.insert(event.id, event);
    }

    /// Puts back a persisted ticket record, under the event and attendee it
    /// names.
    pub fn restore_ticket(&mut self, ticket: Ticket)
        ensures
            final(self)@ == (EventsState {
                tickets: old(self)@.tickets.insert(
                    EventParty { event_id: ticket.event_id, party: ticket.attendee },
                    ticket,
                ),
                ..old(self)@
            }),
    {
        self.tickets.insert(
            EventParty { event_id: ticket.event_id, party: ticket.attendee },
            ticket,
        );
    }

    /// Puts back the persisted attendee list of an event.
    pub fn restore_event_attendees(&mut self, event_id: u64, attendees: Vec<Principal>)
        ensures
            final(self)@ == (EventsState {
                attendees: old(self)@.attendees.insert(event_id, attendees@),
                ..old(self)@
            }),
    {
        self.attendees.put(event_id, attendees);
    }

    /// Puts back the persisted ticket-id list of a principal.
    pub fn restore_user_tickets(&mut self, user: Principal, ticket_ids: Vec<u64>)
        ensures
            final(self)@ == (EventsState {
                user_tickets: old(self)@.user_tickets.insert(user, ticket_ids@),
                ..old(self)@
            }),
    {
        self.user_tickets.put(user, ticket_ids);
    }

    /// Writes the event counter for the first time, with no event counted.
    pub fn init(&mut self) -> (r: Result<(), LedgerError>)
        ensures
            old(self)@.wf() ==> final(self)@.wf(),
            match old(self)@.init_refusal() {
                Some(e) => r == Err::<(), LedgerError>(e) && *final(self) == *old(self),
                None => r == Ok::<(), LedgerError>(()) && final(self)@ == old(self)@.init(),
            },
    {
        proof {
            if self@.wf() && self@.init_refusal() is None {
                lemma_init_keeps_wf(self@);
            }
        }
        self.counter.start()
    }

    /// Records a new event of `organizer` under the next id, and returns the
    /// id. The event starts active, with no attendee.
    pub fn create_event(
        &mut self,
        auth: &Authorization,
        organizer: Principal,
        title: String,
        description: String,
        date: u64,
        location: String,
        price: i128,
        max_attendees: u32,
        token_reward_amount: i128,
    ) -> (r: Result<u64, LedgerError>)
        ensures
            old(self)@.wf() ==> final(self)@.wf(),
            match old(self)@.create_refusal(*auth, organizer) {
                Some(e) => r == Err::<u64, LedgerError>(e) && *final(self) == *old(self),
                None => r == Ok::<u64, LedgerError>((old(self)@.event_count() + 1) as u64)
                    && final(self)@ == old(self)@.create_event(
                    EventDetails {
                        title,
                        description,
                        organizer,
                        date,
                        location,
                        price,
                        max_attendees,
                        token_reward_amount,
                    },
                ),
            },
    {
        if !auth.authorized(&organizer) {
            return Err(LedgerError::Unauthorized);
        }
        let id = match self.counter.next_id() {
            Ok(id) => id,
            Err(e) => {
                return Err(e);
            },
        };
        let event = Event {
            id,
            title,
            description,
            organizer,
            date,
            location,
            price,
            max_attendees,
            current_attendees: 0,
            is_active: true,
            nft_contract: None,
            token_reward_amount,
        };
        self.events.insert(id, event);
        self.attendees.clear(id);
        proof {
            if old(self)@.wf() {
                lemma_create_keeps_wf(
                    old(self)@,
                    EventDetails {
                        title,
                        description,
                        organizer,
                        date,
                        location,
                        price,
                        max_attendees,
                        token_reward_amount,
                    },
                );
            }
        }
        Ok(id)
    }
    /// Sells `attendee` a ticket for the event and returns the ticket's id.
    pub fn purchase_ticket(
        &mut self,
        auth: &Authorization,
        attendee: Principal,
        event_id: u64,
        now: u64,
    ) -> (r: Result<u64, LedgerError>)
        ensures
            old(self)@.wf() ==> final(self)@.wf(),
            match old(self)@.purchase_refusal(*auth, attendee, event_id) {
                Some(e) => r == Err::<u64, LedgerError>(e) && *final(self) == *old(self),
                None => r == Ok::<u64, LedgerError>(old(self)@.next_ticket_id(event_id) as u64)
                    && final(self)@ == old(self)@.purchase_ticket(attendee, event_id, now),
            },
    {
        if !auth.authorized(&attendee) {
            return Err(LedgerError::Unauthorized);
        }
        let mut event = match self.events.get(&event_id) {
            Some(e) => e.clone(),
            None => {
                return Err(LedgerError::NotFound);
            },
        };
        if !event.is_active {
            return Err(LedgerError::InvalidState);
        }
        if event.current_attendees >= event.max_attendees {
            return Err(LedgerError::CapacityExceeded);
        }
        let key = EventParty { event_id, party: attendee };
        if self.tickets.contains_key(&key) {
            return Err(LedgerError::DuplicateTicket);
        }
        let ordinal: u64 = event.current_attendees as u64;
        let base = match event_id.checked_mul(TICKET_ID_STRIDE) {
            Some(b) => b,
            None => {
                return Err(LedgerError::Overflow);
            },
        };
        let ticket_id = match base.checked_add(ordinal + 1) {
            Some(t) => t,
            None => {
                return Err(LedgerError::Overflow);
            },
        };
        let ticket = Ticket { event_id, attendee, purchase_timestamp: now, ticket_id };
        event.current_attendees = event.current_attendees + 1;
        self.events.insert(event_id, event);
        self.tickets.insert(key, ticket);
        self.attendees.append(event_id, attendee);
        self.user_tickets.append(attendee, ticket_id);
        proof {
            if old(self)@.wf() {
                lemma_purchase_keeps_wf(old(self)@, attendee, event_id, now);
            }
        }
        Ok(ticket_id)
    }

    /// Checks that `organizer` has authorized the call and organizes the
    /// event, and hands out a copy of the event's record.
    fn organized_event(&self, auth: &Authorization, organizer: Principal, event_id: u64) -> (r:
        Result<Event, LedgerError>)
        ensures
            r == match self@.organizer_refusal(*auth, organizer, event_id) {
                Some(e) => Err::<Event, LedgerError>(e),
                None => Ok::<Event, LedgerError>(self@.events[event_id]),
            },
    {
        if !auth.authorized(&organizer) {
            return Err(LedgerError::Unauthorized);
        }
        match self.events.get(&event_id) {
            None => Err(LedgerError::NotFound),
            Some(e) => if e.organizer == organizer {
                Ok(e.clone())
            } else {
                Err(LedgerError::Unauthorized)
            },
        }
    }

    /// Opens or closes the sale of tickets for an event.
    pub fn update_event_status(
        &mut self,
        auth: &Authorization,
        organizer: Principal,
        event_id: u64,
        is_active: bool,
    ) -> (r: Result<(), LedgerError>)
        ensures
            old(self)@.wf() ==> final(self)@.wf(),
            match old(self)@.organizer_refusal(*auth, organizer, event_id) {
                Some(e) => r == Err::<(), LedgerError>(e) && *final(self) == *old(self),
                None => r == Ok::<(), LedgerError>(()) && final(self)@ == old(self)@.update_event_status(event_id, is_active),
            },
    {
        let mut event = match self.organized_event(auth, organizer, event_id) {
            Ok(e) => e,
            Err(e) => {
                return Err(e);
            },
        };
        event.is_active = is_active;
        proof {
            if self@.wf() {
                lemma_edit_keeps_wf(self@, event_id, event);
            }
        }
        self.events.insert(event_id, event);
        Ok(())
    }

    /// Notes the contract that mints the collectibles of an event. The
    /// reference is kept as given.
    pub fn set_event_nft_contract(
        &mut self,
        auth: &Authorization,
        organizer: Principal,
        event_id: u64,
        nft_contract: Principal,
    ) -> (r: Result<(), LedgerError>)
        ensures
            old(self)@.wf() ==> final(self)@.wf(),
            match old(self)@.organizer_refusal(*auth, organizer, event_id) {
                Some(e) => r == Err::<(), LedgerError>(e) && *final(self) == *old(self),
                None => r == Ok::<(), LedgerError>(()) && final(self)@ == old(self)@.set_event_nft_contract(event_id, nft_contract),
            },
    {
        let mut event = match self.organized_event(auth, organizer, event_id) {
            Ok(e) => e,
            Err(e) => {
                return Err(e);
            },
        };
        event.nft_contract = Some(nft_contract);
        proof {
            if self@.wf() {
                lemma_edit_keeps_wf(self@, event_id, event);
            }
        }
        self.events.insert(event_id, event);
        Ok(())
    }

    /// The record of an event.
    pub fn get_event(&self, event_id: u64) -> (r: Result<Event, LedgerError>)
        ensures
            r == if self@.events.contains_key(event_id) {
                Ok::<Event, LedgerError>(self@.events[event_id])
            } else {
                Err::<Event, LedgerError>(LedgerError::NotFound)
            },
    {
        match self.events.get(&event_id) {
            Some(e) => Ok(e.clone()),
            None => Err(LedgerError::NotFound),
        }
    }

    /// The ticket of `user` for an event, if it holds one.
    pub fn get_ticket(&self, user: Principal, event_id: u64) -> (r: Option<Ticket>)
        ensures
            r == if self@.has_ticket(user, event_id) {
                Some(self@.tickets[EventParty { event_id, party: user }])
            } else {
                None
            },
    {
        match self.tickets.get(&EventParty { event_id, party: user }) {
            Some(t) => Some(*t),
            None => None,
        }
    }

    /// The ids of the tickets of `user`, in the order of purchase.
    pub fn get_user_tickets(&self, user: Principal) -> (r: Vec<u64>)
        ensures
            r@ == self@.tickets_of(user),
    {
        self.user_tickets.list(&user)
    }

    /// The attendees of an event, in the order of purchase.
    pub fn get_event_attendees(&self, event_id: u64) -> (r: Vec<Principal>)
        ensures
            r@ == self@.attendees_of(event_id),
    {
        self.attendees.list(&event_id)
    }

    /// The number of events created so far.
    pub fn get_event_count(&self) -> (r: u64)
        ensures
            r == self@.event_count(),
    {
        self.counter.current()
    }

    /// Tells whether `user` holds a ticket for the event.
    pub fn has_ticket(&self, user: Principal, event_id: u64) -> (r: bool)
        ensures
            r == self@.has_ticket(user, event_id),
    {
        self.tickets.contains_key(&EventParty { event_id, party: user })
    }
}

} // verus!
