//! A single event that attendees join, with an optional airdrop on joining.

use vstd::prelude::*;
use crate::error::LedgerError;
use crate::principal::{Authorization, Principal};
use crate::table::Table;

verus! {

/// A call still to be made: mint `amount` of the token kept by the contract
/// `token` to `to`.
#[derive(Clone, Copy, Debug, PartialEq, Eq, Structural)]
pub struct Airdrop {
    pub token: Principal,
    pub to: Principal,
    pub amount: i128,
}

/// The event as a mathematical value.
pub struct JoinState {
    /// Whether the event was initialized.
    pub initialized: bool,
    /// The organizer, once the event is initialized.
    pub organizer: Option<Principal>,
    /// The name, once the event is initialized.
    pub name: Option<String>,
    /// The token contract that mints to those who join, if one is set.
    pub token: Option<Principal>,
    /// Who has joined.
    pub joined: Set<Principal>,
    /// The number of joins counted since the event was initialized.
    pub join_count: i128,
}

impl JoinState {
    /// The event before anything was written.
    pub open spec fn blank() -> JoinState {
        JoinState {
            initialized: false,
            organizer: None,
            name: None,
            token: None,
            joined: Set::empty(),
            join_count: 0,
        }
    }

    /// An initialized event has an organizer and a name.
    pub open spec fn wf(self) -> bool {
        self.initialized ==> self.organizer is Some && self.name is Some
    }

    /// Why initializing is refused: the event is initialized, or the organizer
    /// has not authorized it.
    pub open spec fn init_refusal(self, auth: Authorization, organizer: Principal) -> Option<
        LedgerError,
    > {
        if self.initialized {
            Some(LedgerError::AlreadyInitialized)
        } else if !auth.permits(organizer) {
            Some(LedgerError::Unauthorized)
        } else {
            None
        }
    }

    /// The initialized event. A token contract set before stays when none is
    /// given; the count of joins starts at 0.
    pub open spec fn init(self, organizer: Principal, name: String, token: Option<Principal>) -> JoinState {
        JoinState {
            initialized: true,
            organizer: Some(organizer),
            name: Some(name),
            token: if token is Some {
                token
            } else {
                self.token
            },
            join_count: 0,
            ..self
        }
    }

    /// Why joining is refused, the first that applies: the attendee has not
    /// authorized it; it has joined before; the count is out of range.
    pub open spec fn join_refusal(self, auth: Authorization, attendee: Principal) -> Option<
        LedgerError,
    > {
        if !auth.permits(attendee) {
            Some(LedgerError::Unauthorized)
        } else if self.joined.contains(attendee) {
            Some(LedgerError::AlreadyJoined)
        } else if self.join_count == i128::MAX {
            Some(LedgerError::Overflow)
        } else {
            None
        }
    }

    /// The event after `attendee` joined.
    pub open spec fn join(self, attendee: Principal) -> JoinState {
        JoinState {
            joined: self.joined.insert(attendee),
            join_count: (self.join_count + 1) as i128,
            ..self
        }
    }

    /// The mint that follows the joining of `attendee`: one unit, if a token
    /// contract is set.
    pub open spec fn airdrop_for(self, attendee: Principal) -> Option<Airdrop> {
        match self.token {
            Some(token) => Some(Airdrop { token, to: attendee, amount: 1 }),
            None => None,
        }
    }

    /// Why setting the token contract is refused, the first that applies: the
    /// event has no organizer yet; the caller has not authorized it; the
    /// caller is not the organizer.
    pub open spec fn set_token_refusal(self, auth: Authorization, caller: Principal) -> Option<
        LedgerError,
    > {
        if self.organizer is None {
            Some(LedgerError::NotInitialized)
        } else if !auth.permits(caller) {
            Some(LedgerError::Unauthorized)
        } else if self.organizer != Some(caller) {
            Some(LedgerError::Unauthorized)
        } else {
            None
        }
    }

    /// The event with the token contract set.
    pub open spec fn set_token(self, token: Principal) -> JoinState {
        JoinState { token: Some(token), ..self }
    }
}

/// An event that attendees join.
pub struct KaizenEvent {
    initialized: bool,
    organizer: Option<Principal>,
    name: Option<String>,
    token: Option<Principal>,
    joined: Table<Principal, bool>,
    join_count: i128,
}

impl KaizenEvent {
    /// The event as a mathematical value.
    pub closed spec fn view(&self) -> JoinState {
        JoinState {
            initialized: self.initialized,
            organizer: self.organizer,
            name: self.name,
            token: self.token,
            joined: self.joined@.dom(),
            join_count: self.join_count,
        }
    }

    /// The event before anything was written.
    pub fn new() -> (r: Self)
        ensures
            r@ == JoinState::blank(),
            r@.wf(),
    {
        let r = KaizenEvent {
            initialized: false,
            organizer: None,
            name: None,
            token: None,
            joined: Table::new(),
            join_count: 0,
        };
        proof {
            assert(r@.joined =~= Set::<Principal>::empty());
        }
        r
    }

    /// Puts back what was persisted of the event as a whole. An event
    /// persisted as initialized comes with organizer and name.
    pub fn restore_config(
        &mut self,
        initialized: bool,
        organizer: Option<Principal>,
        name: Option<String>,
        token: Option<Principal>,
        join_count: i128,
    )
        ensures
            final(self)@ == (JoinState {
                initialized,
                organizer,
                name,
                token,
                join_count,
                ..old(self)@
            }),
    {
        self.initialized = initialized;
        self.organizer = organizer;
        self.name = name;
        self.token = token;
        self.join_count = join_count;
    }

    /// Puts back the persisted marker of one who has joined.
    pub fn restore_joined(&mut self, attendee: Principal)
        ensures
            final(self)@ == (JoinState {
                joined: old(self)@.joined.insert(attendee),
                ..old(self)@
            }),
    {
        self.joined.insert(attendee, true);
        assert(self@.joined =~= old(self)@.joined.insert(attendee));
    }

    /// Initializes the event, once. With a token contract, whoever joins is
    /// owed one unit of its token.
    pub fn init(
        &mut self,
        auth: &Authorization,
        organizer: Principal,
        name: String,
        token: Option<Principal>,
    ) -> (r: Result<(), LedgerError>)
        ensures
            old(self)@.wf() ==> final(self)@.wf(),
            match old(self)@.init_refusal(*auth, organizer) {
                Some(e) => r == Err::<(), LedgerError>(e) && *final(self) == *old(self),
                None => r == Ok::<(), LedgerError>(()) && final(self)@ == old(self)@.init(
                    organizer,
                    name,
                    token,
                ),
            },
    {
        if self.initialized {
            return Err(LedgerError::AlreadyInitialized);
        }
        if !auth.authorized(&organizer) {
            return Err(LedgerError::Unauthorized);
        }
        self.initialized = true;
        self.organizer = Some(organizer);
        self.name = Some(name);
        if token.is_some() {
            self.token = token;
        }
        self.join_count = 0;
        Ok(())
    }

    /// Name, organizer, token contract and count of joins.
    pub fn info(&self) -> (r: Result<(String, Principal, Option<Principal>, i128), LedgerError>)
        ensures
            r == if self@.name is Some && self@.organizer is Some {
                Ok::<(String, Principal, Option<Principal>, i128), LedgerError>(
                    (self@.name->0, self@.organizer->0, self@.token, self@.join_count),
                )
            } else {
                Err::<(String, Principal, Option<Principal>, i128), LedgerError>(
                    LedgerError::NotInitialized,
                )
            },
    {
        let name = match &self.name {
            Some(n) => n.clone(),
            None => {
                return Err(LedgerError::NotInitialized);
            },
        };
        let organizer = match self.organizer {
            Some(o) => o,
            None => {
                return Err(LedgerError::NotInitialized);
            },
        };
        Ok((name, organizer, self.token, self.join_count))
    }

    /// Records that `attendee` joins, once, and tells which mint is owed to
    /// it.
    pub fn join(&mut self, auth: &Authorization, attendee: Principal) -> (r: Result<
        Option<Airdrop>,
        LedgerError,
    >)
        ensures
            old(self)@.wf() ==> final(self)@.wf(),
            match old(self)@.join_refusal(*auth, attendee) {
                Some(e) => r == Err::<Option<Airdrop>, LedgerError>(e) && *final(self) == *old(self),
                None => r == Ok::<Option<Airdrop>, LedgerError>(old(self)@.airdrop_for(attendee))
                    && final(self)@ == old(self)@.join(attendee),
            },
    {
        if !auth.authorized(&attendee) {
            return Err(LedgerError::Unauthorized);
        }
        if self.joined.contains_key(&attendee) {
            return Err(LedgerError::AlreadyJoined);
        }
        if self.join_count == i128::MAX {
            return Err(LedgerError::Overflow);
        }
        self.joined.insert(attendee, true);
        self.join_count = self.join_count + 1;
        proof {
            assert(self@.joined =~= old(self)@.joined.insert(attendee));
        }
        Ok(
            match self.token {
                Some(token) => Some(Airdrop { token, to: attendee, amount: 1 }),
                None => None,
            },
        )
    }

    /// Tells whether the event was initialized.
    pub fn is_initialized(&self) -> (r: bool)
        ensures
            r == self@.initialized,
    {
        self.initialized
    }

    /// The token contract that mints to those who join, if one is set.
    pub fn token(&self) -> (r: Option<Principal>)
        ensures
            r == self@.token,
    {
        self.token
    }

    /// The number of joins counted since the event was initialized.
    pub fn join_count(&self) -> (r: i128)
        ensures
            r == self@.join_count,
    {
        self.join_count
    }

    /// Tells whether `addr` has joined.
    pub fn has_joined(&self, addr: Principal) -> (r: bool)
        ensures
            r == self@.joined.contains(addr),
    {
        self.joined.contains_key(&addr)
    }

    /// Sets the token contract, in place of the one set before.
    pub fn set_token(&mut self, auth: &Authorization, caller: Principal, token: Principal) -> (r:
        Result<(), LedgerError>)
        ensures
            old(self)@.wf() ==> final(self)@.wf(),
            match old(self)@.set_token_refusal(*auth, caller) {
                Some(e) => r == Err::<(), LedgerError>(e) && *final(self) == *old(self),
                None => r == Ok::<(), LedgerError>(()) && final(self)@ == old(self)@.set_token(
                    token,
                ),
            },
    {
        let organizer = match self.organizer {
            Some(o) => o,
            None => {
                return Err(LedgerError::NotInitialized);
            },
        };
        if !auth.authorized(&caller) {
            return Err(LedgerError::Unauthorized);
        }
        if organizer != caller {
            return Err(LedgerError::Unauthorized);
        }
        self.token = Some(token);
        Ok(())
    }
}

} // verus!
