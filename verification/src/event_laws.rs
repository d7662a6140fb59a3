//! What holds of the event ledger whatever calls are made, in whatever
//! order.

use vstd::prelude::*;
use crate::error::LedgerError;
use crate::event_manager::{
    lemma_blank_is_wf, lemma_create_keeps_wf, lemma_edit_keeps_wf, lemma_init_keeps_wf,
    lemma_purchase_keeps_wf, Event, EventDetails, EventsState,
};
use crate::principal::{Authorization, Principal};

verus! {

/// A call to the event ledger.
pub enum EventCall {
    Init,
    Create { auth: Authorization, details: EventDetails },
    Purchase { auth: Authorization, attendee: Principal, event_id: u64, now: u64 },
    SetStatus { auth: Authorization, organizer: Principal, event_id: u64, is_active: bool },
    SetNftContract {
        auth: Authorization,
        organizer: Principal,
        event_id: u64,
        nft_contract: Principal,
    },
}

impl EventsState {
    /// Why the call is refused, if it is.
    pub open spec fn refusal(self, call: EventCall) -> Option<LedgerError> {
        match call {
            EventCall::Init => self.init_refusal(),
            EventCall::Create { auth, details } => self.create_refusal(auth, details.organizer),
            EventCall::Purchase { auth, attendee, event_id, now } => self.purchase_refusal(
                auth,
                attendee,
                event_id,
            ),
            EventCall::SetStatus { auth, organizer, event_id, is_active } => self.organizer_refusal(
                auth,
                organizer,
                event_id,
            ),
            EventCall::SetNftContract {
                auth,
                organizer,
                event_id,
                nft_contract,
            } => self.organizer_refusal(auth, organizer, event_id),
        }
    }

    /// The ledger after the call: as before if the call is refused.
    pub open spec fn apply(self, call: EventCall) -> EventsState {
        if self.refusal(call) is Some {
            self
        } else {
            match call {
                EventCall::Init => self.init(),
                EventCall::Create { auth, details } => self.create_event(details),
                EventCall::Purchase { auth, attendee, event_id, now } => self.purchase_ticket(
                    attendee,
                    event_id,
                    now,
                ),
                EventCall::SetStatus {
                    auth,
                    organizer,
                    event_id,
                    is_active,
                } => self.update_event_status(event_id, is_active),
                EventCall::SetNftContract {
                    auth,
                    organizer,
                    event_id,
                    nft_contract,
                } => self.set_event_nft_contract(event_id, nft_contract),
            }
        }
    }

    /// The ledger after the calls were made in turn.
    pub open spec fn run(self, calls: Seq<EventCall>) -> EventsState
        decreases calls.len(),
    {
        if calls.len() == 0 {
            self
        } else {
            self.run(calls.drop_last()).apply(calls.last())
        }
    }

    /// Whether the call sells a ticket for the event.
    pub open spec fn sells(self, call: EventCall, event_id: u64) -> bool {
        self.refusal(call) is None && call is Purchase && call->Purchase_event_id == event_id
    }

    /// Those to whom the calls, made in turn, sell a ticket for the event,
    /// in the order of purchase.
    pub open spec fn buyers(self, calls: Seq<EventCall>, event_id: u64) -> Seq<Principal>
        decreases calls.len(),
    {
        if calls.len() == 0 {
            Seq::empty()
        } else if self.run(calls.drop_last()).sells(calls.last(), event_id) {
            self.buyers(calls.drop_last(), event_id).push(calls.last()->attendee)
        } else {
            self.buyers(calls.drop_last(), event_id)
        }
    }
}

/// Every call leaves the ledger in order. It takes no event and no ticket
/// away, leaves the number of places of every event as it was, and gives an
/// event a new attendee exactly when it sells a ticket for it.
pub proof fn lemma_apply(s: EventsState, call: EventCall, event_id: u64)
    requires
        s.wf(),
    ensures
        s.apply(call).wf(),
        s.events.contains_key(event_id) ==> s.apply(call).events.contains_key(event_id)
            && s.apply(call).events[event_id].max_attendees == s.events[event_id].max_attendees,
        forall|user: Principal|
            s.has_ticket(user, event_id) ==> #[trigger] s.apply(call).has_ticket(user, event_id),
        s.apply(call).attendees_of(event_id) == if s.sells(call, event_id) {
            s.attendees_of(event_id).push(call->attendee)
        } else {
            s.attendees_of(event_id)
        },
{
    if s.refusal(call) is None {
        match call {
            EventCall::Init => {
                lemma_init_keeps_wf(s);
            },
            EventCall::Create { auth, details } => {
                lemma_create_keeps_wf(s, details);
                let id = (s.event_count() + 1) as u64;
                assert(s.attendees_of(id).len() == 0);
                assert(s.apply(call).attendees_of(id) =~= s.attendees_of(id));
            },
            EventCall::Purchase { auth, attendee, event_id, now } => {
                lemma_purchase_keeps_wf(s, attendee, event_id, now);
            },
            EventCall::SetStatus { auth, organizer, event_id, is_active } => {
                lemma_edit_keeps_wf(
                    s,
                    event_id,
                    Event { is_active, ..s.events[event_id] },
                );
            },
            EventCall::SetNftContract { auth, organizer, event_id, nft_contract } => {
                lemma_edit_keeps_wf(
                    s,
                    event_id,
                    Event { nft_contract: Some(nft_contract), ..s.events[event_id] },
                );
            },
        }
    }
}

/// Whatever calls are made, in whatever order, the ledger stays in order,
/// and every event and every ticket stays.
pub proof fn lemma_run(s: EventsState, calls: Seq<EventCall>, event_id: u64)
    requires
        s.wf(),
    ensures
        s.run(calls).wf(),
        s.events.contains_key(event_id) ==> s.run(calls).events.contains_key(event_id)
            && s.run(calls).events[event_id].max_attendees == s.events[event_id].max_attendees,
        forall|user: Principal|
            s.has_ticket(user, event_id) ==> #[trigger] s.run(calls).has_ticket(user, event_id),
        s.run(calls).attendees_of(event_id) == s.attendees_of(event_id) + s.buyers(
            calls,
            event_id,
        ),
    decreases calls.len(),
{
    if calls.len() > 0 {
        lemma_run(s, calls.drop_last(), event_id);
        lemma_apply(s.run(calls.drop_last()), calls.last(), event_id);
        let before = s.run(calls.drop_last());
        if before.sells(calls.last(), event_id) {
            assert((s.attendees_of(event_id) + s.buyers(calls.drop_last(), event_id)).push(
                calls.last()->attendee,
            ) =~= s.attendees_of(event_id) + s.buyers(calls, event_id));
        }
    } else {
        assert(s.attendees_of(event_id) + s.buyers(calls, event_id) =~= s.attendees_of(
            event_id,
        ));
    }
}

/// From the first call on: whatever calls are made to a new ledger, in
/// whatever order, the ledger is in order after each of them, and the
/// attendees of an event are those to whom the calls sold a ticket for it.
pub proof fn lemma_run_from_the_start(calls: Seq<EventCall>, event_id: u64)
    ensures
        EventsState::blank().run(calls).wf(),
        EventsState::blank().run(calls).attendees_of(event_id) == EventsState::blank().buyers(
            calls,
            event_id,
        ),
{
    lemma_blank_is_wf();
    lemma_run(EventsState::blank(), calls, event_id);
    assert(EventsState::blank().attendees_of(event_id) + EventsState::blank().buyers(
        calls,
        event_id,
    ) =~= EventsState::blank().buyers(calls, event_id));
}

/// One ticket for each attendee, and no more tickets than places: whatever
/// calls are made, in whatever order, no two of them sell a ticket for one
/// event to the same attendee, none sells one to an attendee that had one,
/// and the tickets sold for an event, with those sold before, are at most
/// as many as the event has places.
pub proof fn lemma_tickets_sold(s: EventsState, calls: Seq<EventCall>, event_id: u64)
    requires
        s.wf(),
    ensures
        s.buyers(calls, event_id).no_duplicates(),
        forall|i: int|
            0 <= i < s.buyers(calls, event_id).len() ==> !s.has_ticket(
                #[trigger] s.buyers(calls, event_id)[i],
                event_id,
            ),
        s.run(calls).events.contains_key(event_id) ==> s.attendees_of(event_id).len() + s.buyers(
            calls,
            event_id,
        ).len() <= s.run(calls).events[event_id].max_attendees,
        !s.run(calls).events.contains_key(event_id) ==> s.buyers(calls, event_id).len() == 0,
{
    lemma_run(s, calls, event_id);
    let before = s.attendees_of(event_id);
    let sold = s.buyers(calls, event_id);
    let after = s.run(calls).attendees_of(event_id);
    assert(after == before + sold);
    if s.run(calls).events.contains_key(event_id) {
        assert(after.no_duplicates());
        assert forall|i: int, j: int| 0 <= i < sold.len() && 0 <= j < sold.len() && i != j implies sold[i]
            != sold[j] by {
            assert(after[before.len() + i] == sold[i]);
            assert(after[before.len() + j] == sold[j]);
        }
        assert forall|i: int| 0 <= i < sold.len() implies !s.has_ticket(
            #[trigger] sold[i],
            event_id,
        ) by {
            if s.has_ticket(sold[i], event_id) {
                assert(before.contains(sold[i]));
                let j = choose|j: int| 0 <= j < before.len() && before[j] == sold[i];
                assert(after[j] == sold[i]);
                assert(after[before.len() + i] == sold[i]);
            }
        }
    } else {
        assert(after.len() == 0);
    }
}

} // verus!
