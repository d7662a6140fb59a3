//! Collectible tokens minted for attendance, and who owns them.
//!
//! Only the administrator mints. A token has one owner at a time, and stands
//! once in the token list of its owner and once in the list of its event.

use vstd::prelude::*;
use crate::error::LedgerError;
use crate::identity::IdCounter;
use crate::principal::{Authorization, Principal};
use crate::relation::{lemma_remove_value, RelationIndex};
use crate::table::Table;

verus! {

/// What a token says of itself. It is written at mint and never changes.
#[derive(Debug, PartialEq, Eq)]
pub struct NFTMetadata {
    pub name: String,
    pub description: String,
    pub image: String,
    pub event_id: u64,
    pub mint_timestamp: u64,
}

impl Clone for NFTMetadata {
    fn clone(&self) -> (r: Self)
        ensures
            r == *self,
    {
        NFTMetadata {
            name: self.name.clone(),
            description: self.description.clone(),
            image: self.image.clone(),
            event_id: self.event_id,
            mint_timestamp: self.mint_timestamp,
        }
    }
}

/// The registry as a mathematical value.
pub struct CollectiblesState {
    /// The administrator, once the registry is initialized.
    pub admin: Option<Principal>,
    /// The token counter as it is kept.
    pub counter: Option<u64>,
    /// The owner of each token.
    pub owners: Map<u64, Principal>,
    /// The metadata of each token.
    pub metadata: Map<u64, NFTMetadata>,
    /// The token lists that are kept, by owner.
    pub owner_tokens: Map<Principal, Seq<u64>>,
    /// The token lists that are kept, by event.
    pub event_nfts: Map<u64, Seq<u64>>,
}

impl CollectiblesState {
    /// The registry before anything was written.
    pub open spec fn blank() -> CollectiblesState {
        CollectiblesState {
            admin: None,
            counter: None,
            owners: Map::empty(),
            metadata: Map::empty(),
            owner_tokens: Map::empty(),
            event_nfts: Map::empty(),
        }
    }

    /// The number of tokens minted so far, which is the id of the last.
    pub open spec fn total_supply(self) -> u64 {
        match self.counter {
            Some(n) => n,
            None => 0,
        }
    }

    /// The tokens of `owner`, in the order in which they came to it.
    pub open spec fn tokens_of(self, owner: Principal) -> Seq<u64> {
        if self.owner_tokens.contains_key(owner) {
            self.owner_tokens[owner]
        } else {
            Seq::empty()
        }
    }

    /// The tokens minted for the event, in the order of minting.
    pub open spec fn nfts_of(self, event_id: u64) -> Seq<u64> {
        if self.event_nfts.contains_key(event_id) {
            self.event_nfts[event_id]
        } else {
            Seq::empty()
        }
    }

    /// The tokens are those whose ids the counter has issued, and each has
    /// an owner and metadata.
    pub open spec fn tokens_wf(self) -> bool {
        &&& forall|id: u64| #[trigger]
            self.owners.contains_key(id) <==> 1 <= id <= self.total_supply()
        &&& forall|id: u64| #[trigger]
            self.metadata.contains_key(id) <==> 1 <= id <= self.total_supply()
    }

    /// The list of a principal holds the tokens it owns, each once, and no
    /// other.
    pub open spec fn owner_lists_wf(self) -> bool {
        &&& forall|p: Principal| #[trigger] self.tokens_of(p).no_duplicates()
        &&& forall|p: Principal, i: int|
            0 <= i < self.tokens_of(p).len() ==> self.owners.contains_key(
                #[trigger] self.tokens_of(p)[i],
            ) && self.owners[self.tokens_of(p)[i]] == p
        &&& forall|id: u64| #[trigger]
            self.owners.contains_key(id) ==> self.tokens_of(self.owners[id]).contains(id)
    }

    /// The list of an event holds the tokens minted for it, and no other.
    pub open spec fn event_lists_wf(self) -> bool {
        &&& forall|e: u64, i: int|
            0 <= i < self.nfts_of(e).len() ==> self.metadata.contains_key(
                #[trigger] self.nfts_of(e)[i],
            ) && self.metadata[self.nfts_of(e)[i]].event_id == e
        &&& forall|id: u64| #[trigger]
            self.metadata.contains_key(id) ==> self.nfts_of(self.metadata[id].event_id).contains(
                id,
            )
    }

    /// What holds of the registry at all times.
    pub open spec fn wf(self) -> bool {
        &&& self.tokens_wf()
        &&& self.owner_lists_wf()
        &&& self.event_lists_wf()
    }

    /// Why initializing is refused: the registry was initialized before.
    pub open spec fn init_refusal(self) -> Option<LedgerError> {
        if self.admin is Some || self.counter is Some {
            Some(LedgerError::AlreadyInitialized)
        } else {
            None
        }
    }

    /// The initialized registry: `admin` administers it, no token is counted.
    pub open spec fn init(self, admin: Principal) -> CollectiblesState {
        CollectiblesState { admin: Some(admin), counter: Some(0), ..self }
    }

    /// Why minting `count` tokens is refused.
    pub open spec fn mint_refusal(self, auth: Authorization, count: int) -> Option<LedgerError> {
        if self.admin is None {
            Some(LedgerError::NotInitialized)
        } else if !auth.permits(self.admin->0) {
            Some(LedgerError::Unauthorized)
        } else if self.total_supply() + count > u64::MAX {
            Some(LedgerError::Overflow)
        } else {
            None
        }
    }

    /// The registry with one more token, owned by `to` and described by
    /// `metadata`, under the next id.
    pub open spec fn mint_event_nft(self, to: Principal, metadata: NFTMetadata) -> CollectiblesState {
        let id = (self.total_supply() + 1) as u64;
        CollectiblesState {
            counter: Some(id),
            owners: self.owners.insert(id, to),
            metadata: self.metadata.insert(id, metadata),
            owner_tokens: self.owner_tokens.insert(to, self.tokens_of(to).push(id)),
            event_nfts: self.event_nfts.insert(
                metadata.event_id,
                self.nfts_of(metadata.event_id).push(id),
            ),
            ..self
        }
    }

    /// The registry with one more token for each recipient in turn, all
    /// described by `metadata`.
    pub open spec fn batch_mint_event_nfts(
        self,
        recipients: Seq<Principal>,
        metadata: NFTMetadata,
    ) -> CollectiblesState
        decreases recipients.len(),
    {
        if recipients.len() == 0 {
            self
        } else {
            self.batch_mint_event_nfts(recipients.drop_last(), metadata).mint_event_nft(
                recipients.last(),
                metadata,
            )
        }
    }

    /// The ids of the next `count` tokens, in order.
    pub open spec fn next_ids(self, count: nat) -> Seq<u64> {
        Seq::new(count, |i: int| (self.total_supply() + 1 + i) as u64)
    }

    /// Why a transfer is refused, the first that applies: `from` has not
    /// authorized it; the token does not exist; `from` does not own it.
    pub open spec fn transfer_refusal(self, auth: Authorization, from: Principal, token_id: u64) -> Option<
        LedgerError,
    > {
        if !auth.permits(from) {
            Some(LedgerError::Unauthorized)
        } else if !self.owners.contains_key(token_id) {
            Some(LedgerError::NotFound)
        } else if self.owners[token_id] != from {
            Some(LedgerError::Unauthorized)
        } else {
            None
        }
    }

    /// The registry after the list of `from` was rewritten without the
    /// token.
    pub open spec fn detach(self, from: Principal, token_id: u64) -> CollectiblesState {
        CollectiblesState {
            owner_tokens: self.owner_tokens.insert(
                from,
                self.tokens_of(from).remove_value(token_id),
            ),
            ..self
        }
    }

    /// The registry after the token was put at the end of the list of `to`.
    pub open spec fn attach(self, to: Principal, token_id: u64) -> CollectiblesState {
        CollectiblesState {
            owner_tokens: self.owner_tokens.insert(to, self.tokens_of(to).push(token_id)),
            ..self
        }
    }

    /// The registry after the token went from `from` to `to`: it has the
    /// new owner, left the list of `from` and stands last in that of `to`.
    pub open spec fn transfer(self, from: Principal, to: Principal, token_id: u64) -> CollectiblesState {
        (CollectiblesState { owners: self.owners.insert(token_id, to), ..self }).detach(
            from,
            token_id,
        ).attach(to, token_id)
    }

    /// Why a call that only the administrator may make is refused, the first
    /// that applies: `admin` has not authorized it; the registry is not
    /// initialized; `admin` is not the administrator.
    pub open spec fn admin_refusal(self, auth: Authorization, admin: Principal) -> Option<
        LedgerError,
    > {
        if !auth.permits(admin) {
            Some(LedgerError::Unauthorized)
        } else if self.admin is None {
            Some(LedgerError::NotInitialized)
        } else if self.admin != Some(admin) {
            Some(LedgerError::Unauthorized)
        } else {
            None
        }
    }

    /// The registry with a new administrator.
    pub open spec fn update_admin(self, new_admin: Principal) -> CollectiblesState {
        CollectiblesState { admin: Some(new_admin), ..self }
    }
}

/// Setting the administrator, or writing the counter for the first time,
/// keeps the registry in order.
pub proof fn lemma_admin_keeps_wf(s: CollectiblesState, t: CollectiblesState)
    requires
        s.wf(),
        t == (CollectiblesState { admin: t.admin, counter: t.counter, ..s }),
        t.total_supply() == s.total_supply(),
    ensures
        t.wf(),
{
    assert forall|p: Principal| t.tokens_of(p) == s.tokens_of(p) by {}
    assert forall|e: u64| t.nfts_of(e) == s.nfts_of(e) by {}
}

/// Minting keeps the registry in order.
pub proof fn lemma_mint_keeps_wf(s: CollectiblesState, to: Principal, metadata: NFTMetadata)
    requires
        s.wf(),
        s.total_supply() < u64::MAX,
    ensures
        s.mint_event_nft(to, metadata).wf(),
{
    let t = s.mint_event_nft(to, metadata);
    let id = (s.total_supply() + 1) as u64;
    let event_id = metadata.event_id;
    assert(!s.owners.contains_key(id));
    assert(!s.metadata.contains_key(id));
    assert forall|p: Principal| p != to implies t.tokens_of(p) == s.tokens_of(p) by {}
    assert(t.tokens_of(to) == s.tokens_of(to).push(id));
    assert forall|e: u64| e != event_id implies t.nfts_of(e) == s.nfts_of(e) by {}
    assert(t.nfts_of(event_id) == s.nfts_of(event_id).push(id));
    assert(!s.tokens_of(to).contains(id)) by {
        if s.tokens_of(to).contains(id) {
            let i = choose|i: int| 0 <= i < s.tokens_of(to).len() && s.tokens_of(to)[i] == id;
            assert(s.owners.contains_key(s.tokens_of(to)[i]));
        }
    }
    assert forall|p: Principal| #[trigger] t.tokens_of(p).no_duplicates() by {
        assert(s.tokens_of(p).no_duplicates());
    }
    assert forall|p: Principal, i: int| 0 <= i < t.tokens_of(p).len() implies t.owners.contains_key(
        #[trigger] t.tokens_of(p)[i],
    ) && t.owners[t.tokens_of(p)[i]] == p by {
        if p == to && i == s.tokens_of(to).len() {
        } else {
            assert(t.tokens_of(p)[i] == s.tokens_of(p)[i]);
        }
    }
    assert forall|x: u64| #[trigger] t.owners.contains_key(x) implies t.tokens_of(
        t.owners[x],
    ).contains(x) by {
        if x == id {
            assert(t.tokens_of(to)[s.tokens_of(to).len() as int] == id);
        } else {
            let p = s.owners[x];
            let i = choose|i: int| 0 <= i < s.tokens_of(p).len() && s.tokens_of(p)[i] == x;
            assert(t.tokens_of(p)[i] == x);
        }
    }
    assert forall|e: u64, i: int| 0 <= i < t.nfts_of(e).len() implies t.metadata.contains_key(
        #[trigger] t.nfts_of(e)[i],
    ) && t.metadata[t.nfts_of(e)[i]].event_id == e by {
        if e == event_id && i == s.nfts_of(event_id).len() {
        } else {
            assert(t.nfts_of(e)[i] == s.nfts_of(e)[i]);
        }
    }
    assert forall|x: u64| #[trigger] t.metadata.contains_key(x) implies t.nfts_of(
        t.metadata[x].event_id,
    ).contains(x) by {
        if x == id {
            assert(t.nfts_of(event_id)[s.nfts_of(event_id).len() as int] == id);
        } else {
            let e = s.metadata[x].event_id;
            let i = choose|i: int| 0 <= i < s.nfts_of(e).len() && s.nfts_of(e)[i] == x;
            assert(t.nfts_of(e)[i] == x);
        }
    }
}

/// A transfer by the owner keeps the registry in order.
pub proof fn lemma_transfer_keeps_wf(
    s: CollectiblesState,
    from: Principal,
    to: Principal,
    token_id: u64,
)
    requires
        s.wf(),
        s.owners.contains_key(token_id),
        s.owners[token_id] == from,
    ensures
        s.transfer(from, to, token_id).wf(),
{
    let s1 = CollectiblesState { owners: s.owners.insert(token_id, to), ..s };
    let s2 = s1.detach(from, token_id);
    let t = s2.attach(to, token_id);
    let rest = s.tokens_of(from).remove_value(token_id);
    lemma_remove_value(s.tokens_of(from), token_id);
    assert forall|e: u64| t.nfts_of(e) == s.nfts_of(e) by {}
    assert(s2.tokens_of(from) == rest);
    assert forall|p: Principal| p != from implies s2.tokens_of(p) == s.tokens_of(p) by {}
    assert forall|p: Principal| p != to implies t.tokens_of(p) == s2.tokens_of(p) by {}
    assert(t.tokens_of(to) == s2.tokens_of(to).push(token_id));
    // before it is attached, no list holds the token
    assert forall|p: Principal| !(#[trigger] s2.tokens_of(p)).contains(token_id) by {
        if p != from && s.tokens_of(p).contains(token_id) {
            let i = choose|i: int| 0 <= i < s.tokens_of(p).len() && s.tokens_of(p)[i] == token_id;
            assert(s.owners[s.tokens_of(p)[i]] == p);
        }
    }
    assert forall|p: Principal| #[trigger] s2.tokens_of(p).no_duplicates() by {
        assert(s.tokens_of(p).no_duplicates());
    }
    assert forall|p: Principal| #[trigger] t.tokens_of(p).no_duplicates() by {
        assert(s2.tokens_of(p).no_duplicates());
        assert(!s2.tokens_of(p).contains(token_id));
    }
    assert forall|p: Principal, i: int| 0 <= i < t.tokens_of(p).len() implies t.owners.contains_key(
        #[trigger] t.tokens_of(p)[i],
    ) && t.owners[t.tokens_of(p)[i]] == p by {
        let x = t.tokens_of(p)[i];
        if p == to && i == s2.tokens_of(to).len() {
        } else {
            assert(x == s2.tokens_of(p)[i]);
            assert(s2.tokens_of(p).contains(x));
            assert(x != token_id);
            assert(s.tokens_of(p).contains(x));
            let j = choose|j: int| 0 <= j < s.tokens_of(p).len() && s.tokens_of(p)[j] == x;
            assert(s.owners[s.tokens_of(p)[j]] == p);
        }
    }
    assert forall|x: u64| #[trigger] t.owners.contains_key(x) implies t.tokens_of(
        t.owners[x],
    ).contains(x) by {
        if x == token_id {
            assert(t.tokens_of(to)[s2.tokens_of(to).len() as int] == token_id);
        } else {
            let p = s.owners[x];
            assert(s.tokens_of(p).contains(x));
            assert(s2.tokens_of(p).contains(x));
            let i = choose|i: int| 0 <= i < s2.tokens_of(p).len() && s2.tokens_of(p)[i] == x;
            assert(t.tokens_of(p)[i] == x);
        }
    }
}

/// The registry before anything was written is in order.
pub proof fn lemma_blank_is_wf()
    ensures
        CollectiblesState::blank().wf(),
{
    let s = CollectiblesState::blank();
    assert forall|p: Principal| s.tokens_of(p) == Seq::<u64>::empty() by {}
    assert forall|e: u64| s.nfts_of(e) == Seq::<u64>::empty() by {}
}

/// The registry of collectible tokens.
pub struct NFTMinter {
    admin: Option<Principal>,
    counter: IdCounter,
    owners: Table<u64, Principal>,
    metadata: Table<u64, NFTMetadata>,
    owner_tokens: RelationIndex<Principal, u64>,
    event_nfts: RelationIndex<u64, u64>,
}

impl NFTMinter {
    /// The registry as a mathematical value.
    pub closed spec fn view(&self) -> CollectiblesState {
        CollectiblesState {
            admin: self.admin,
            counter: self.counter@,
            owners: self.owners@,
            metadata: self.metadata@,
            owner_tokens: self.owner_tokens@,
            event_nfts: self.event_nfts@,
        }
    }

    /// The registry before anything was written.
    pub fn new() -> (r: Self)
        ensures
            r@ == CollectiblesState::blank(),
            r@.wf(),
    {
        proof {
            lemma_blank_is_wf();
        }
        NFTMinter {
            admin: None,
            counter: IdCounter::new(),
            owners: Table::new(),
            metadata: Table::new(),
            owner_tokens: RelationIndex::new(),
            event_nfts: RelationIndex::new(),
        }
    }

    /// Puts back the administrator and the token counter as they were
    /// persisted.
    pub fn restore_config(&mut self, admin: Option<Principal>, counter: Option<u64>)
        ensures
            final(self)@ == (CollectiblesState { admin, counter, ..old(self)@ }),
    {
        self.admin = admin;
        self.counter = IdCounter::restore(counter);
    }

    /// Puts back a persisted token: its owner and its metadata.
    pub fn restore_token(&mut self, token_id: u64, owner: Principal, metadata: NFTMetadata)
        ensures
            final(self)@ == (CollectiblesState {
                owners: old(self)@.owners.insert(token_id, owner),
                metadata: old(self)@.metadata.insert(token_id, metadata),
                ..old(self)@
            }),
    {
        self.owners.insert(token_id, owner);
        self.metadata.insert(token_id, metadata);
    }

    /// Puts back the persisted token list of an owner.
    pub fn restore_owner_tokens(&mut self, owner: Principal, token_ids: Vec<u64>)
        ensures
            final(self)@ == (CollectiblesState {
                owner_tokens: old(self)@.owner_tokens.insert(owner, token_ids@),
                ..old(self)@
            }),
    {
        self.owner_tokens.put(owner, token_ids);
    }

    /// Puts back the persisted token list of an event.
    pub fn restore_event_nfts(&mut self, event_id: u64, token_ids: Vec<u64>)
        ensures
            final(self)@ == (CollectiblesState {
                event_nfts: old(self)@.event_nfts.insert(event_id, token_ids@),
                ..old(self)@
            }),
    {
        self.event_nfts.put(event_id, token_ids);
    }

    /// Names the administrator and writes the token counter, with no token
    /// counted.
    pub fn init(&mut self, admin: Principal) -> (r: Result<(), LedgerError>)
        ensures
            old(self)@.wf() ==> final(self)@.wf(),
            match old(self)@.init_refusal() {
                Some(e) => r == Err::<(), LedgerError>(e) && *final(self) == *old(self),
                None => r == Ok::<(), LedgerError>(()) && final(self)@ == old(self)@.init(admin),
            },
    {
        if self.admin.is_some() {
            return Err(LedgerError::AlreadyInitialized);
        }
        match self.counter.start() {
            Err(e) => {
                return Err(e);
            },
            Ok(_) => {},
        }
        self.admin = Some(admin);
        proof {
            if old(self)@.wf() {
                lemma_admin_keeps_wf(old(self)@, self@);
            }
        }
        Ok(())
    }

    /// Mints the next token to `to`, whoever asks.
    fn mint_one(&mut self, to: Principal, metadata: NFTMetadata) -> (r: Result<u64, LedgerError>)
        ensures
            old(self)@.wf() ==> final(self)@.wf(),
            old(self)@.total_supply() < u64::MAX ==> r == Ok::<u64, LedgerError>(
                (old(self)@.total_supply() + 1) as u64,
            ) && final(self)@ == old(self)@.mint_event_nft(to, metadata),
            old(self)@.total_supply() == u64::MAX ==> r == Err::<u64, LedgerError>(
                LedgerError::Overflow,
            ) && *final(self) == *old(self),
    {
        let id = match self.counter.next_id() {
            Ok(id) => id,
            Err(e) => {
                return Err(e);
            },
        };
        let event_id = metadata.event_id;
        proof {
            if old(self)@.wf() {
                lemma_mint_keeps_wf(old(self)@, to, metadata);
            }
        }
        self.owners.insert(id, to);
        self.metadata.insert(id, metadata);
        self.owner_tokens.append(to, id);
        self.event_nfts.append(event_id, id);
        Ok(id)
    }

    /// Checks that minting `count` tokens is in order.
    fn check_mint(&self, auth: &Authorization, count: usize) -> (r: Result<(), LedgerError>)
        ensures
            r == match self@.mint_refusal(*auth, count as int) {
                Some(e) => Err::<(), LedgerError>(e),
                None => Ok::<(), LedgerError>(()),
            },
    {
        let admin = match self.admin {
            Some(a) => a,
            None => {
                return Err(LedgerError::NotInitialized);
            },
        };
        if !auth.authorized(&admin) {
            return Err(LedgerError::Unauthorized);
        }
        if u64::MAX - self.counter.current() < count as u64 {
            return Err(LedgerError::Overflow);
        }
        Ok(())
    }

    /// Mints a token for an event to `to` and returns the token's id. The
    /// token is stamped with the time `now`.
    pub fn mint_event_nft(
        &mut self,
        auth: &Authorization,
        now: u64,
        to: Principal,
        event_id: u64,
        name: String,
        description: String,
        image: String,
    ) -> (r: Result<u64, LedgerError>)
        ensures
            old(self)@.wf() ==> final(self)@.wf(),
            match old(self)@.mint_refusal(*auth, 1) {
                Some(e) => r == Err::<u64, LedgerError>(e) && *final(self) == *old(self),
                None => r == Ok::<u64, LedgerError>((old(self)@.total_supply() + 1) as u64)
                    && final(self)@ == old(self)@.mint_event_nft(
                    to,
                    NFTMetadata { name, description, image, event_id, mint_timestamp: now },
                ),
            },
    {
        match self.check_mint(auth, 1) {
            Err(e) => {
                return Err(e);
            },
            Ok(_) => {},
        }
        self.mint_one(to, NFTMetadata { name, description, image, event_id, mint_timestamp: now })
    }

    /// Mints a token for an event to each recipient in turn and returns the
    /// tokens' ids, in the same order. Either all are minted or none.
    pub fn batch_mint_event_nfts(
        &mut self,
        auth: &Authorization,
        now: u64,
        recipients: &Vec<Principal>,
        event_id: u64,
        name: String,
        description: String,
        image: String,
    ) -> (r: Result<Vec<u64>, LedgerError>)
        ensures
            old(self)@.wf() ==> final(self)@.wf(),
            match old(self)@.mint_refusal(*auth, recipients@.len() as int) {
                Some(e) => r == Err::<Vec<u64>, LedgerError>(e) && *final(self) == *old(self),
                None => r is Ok && r->Ok_0@ == old(self)@.next_ids(recipients@.len()) && final(self)@ == old(self)@.batch_mint_event_nfts(
                    recipients@,
                    NFTMetadata { name, description, image, event_id, mint_timestamp: now },
                ),
            },
    {
        let count = recipients.len();
        match self.check_mint(auth, count) {
            Err(e) => {
                return Err(e);
            },
            Ok(_) => {},
        }
        let ghost metadata = NFTMetadata { name, description, image, event_id, mint_timestamp: now };
        let mut token_ids: Vec<u64> = Vec::new();
        let mut i: usize = 0;
        proof {
            assert(recipients@.take(0) =~= Seq::<Principal>::empty());
            assert(token_ids@ =~= old(self)@.next_ids(0));
        }
        while i < count
            invariant
                count == recipients@.len(),
                i <= count,
                old(self)@.wf() ==> self@.wf(),
                metadata == (NFTMetadata { name, description, image, event_id, mint_timestamp: now }),
                old(self)@.total_supply() + count <= u64::MAX,
                self@.total_supply() == old(self)@.total_supply() + i,
                self@ == old(self)@.batch_mint_event_nfts(recipients@.take(i as int), metadata),
                token_ids@ == old(self)@.next_ids(i as nat),
            decreases count - i,
        {
            let token = NFTMetadata {
                name: name.clone(),
                description: description.clone(),
                image: image.clone(),
                event_id,
                mint_timestamp: now,
            };
            let token_id = match self.mint_one(recipients[i], token) {
                Ok(id) => id,
                Err(e) => {
                    return Err(e);
                },
            };
            token_ids.push(token_id);
            proof {
                assert(recipients@.take(i + 1).drop_last() =~= recipients@.take(i as int));
                assert(recipients@.take(i + 1).last() == recipients@[i as int]);
                assert(token_ids@ =~= old(self)@.next_ids((i + 1) as nat));
            }
            i += 1;
        }
        proof {
            assert(recipients@.take(count as int) =~= recipients@);
        }
        Ok(token_ids)
    }

    /// The owner of a token.
    pub fn owner_of(&self, token_id: u64) -> (r: Result<Principal, LedgerError>)
        ensures
            r == if self@.owners.contains_key(token_id) {
                Ok::<Principal, LedgerError>(self@.owners[token_id])
            } else {
                Err::<Principal, LedgerError>(LedgerError::NotFound)
            },
    {
        match self.owners.get(&token_id) {
            Some(p) => Ok(*p),
            None => Err(LedgerError::NotFound),
        }
    }

    /// The metadata of a token.
    pub fn token_metadata(&self, token_id: u64) -> (r: Result<NFTMetadata, LedgerError>)
        ensures
            r == if self@.metadata.contains_key(token_id) {
                Ok::<NFTMetadata, LedgerError>(self@.metadata[token_id])
            } else {
                Err::<NFTMetadata, LedgerError>(LedgerError::NotFound)
            },
    {
        match self.metadata.get(&token_id) {
            Some(m) => Ok(m.clone()),
            None => Err(LedgerError::NotFound),
        }
    }

    /// The tokens of `owner`, in the order in which they came to it.
    pub fn tokens_of_owner(&self, owner: Principal) -> (r: Vec<u64>)
        ensures
            r@ == self@.tokens_of(owner),
    {
        self.owner_tokens.list(&owner)
    }

    /// The tokens minted for an event, in the order of minting.
    pub fn event_nfts(&self, event_id: u64) -> (r: Vec<u64>)
        ensures
            r@ == self@.nfts_of(event_id),
    {
        self.event_nfts.list(&event_id)
    }

    /// The number of tokens minted so far.
    pub fn total_supply(&self) -> (r: u64)
        ensures
            r == self@.total_supply(),
    {
        self.counter.current()
    }

    /// Hands a token from its owner `from` to `to`.
    pub fn transfer(&mut self, auth: &Authorization, from: Principal, to: Principal, token_id: u64) -> (r:
        Result<(), LedgerError>)
        ensures
            old(self)@.wf() ==> final(self)@.wf(),
            match old(self)@.transfer_refusal(*auth, from, token_id) {
                Some(e) => r == Err::<(), LedgerError>(e) && *final(self) == *old(self),
                None => r == Ok::<(), LedgerError>(()) && final(self)@ == old(self)@.transfer(
                    from,
                    to,
                    token_id,
                ),
            },
    {
        if !auth.authorized(&from) {
            return Err(LedgerError::Unauthorized);
        }
        match self.owners.get(&token_id) {
            None => {
                return Err(LedgerError::NotFound);
            },
            Some(owner) => {
                if *owner != from {
                    return Err(LedgerError::Unauthorized);
                }
            },
        }
        proof {
            if self@.wf() {
                lemma_transfer_keeps_wf(self@, from, to, token_id);
            }
        }
        self.owners.insert(token_id, to);
        self.owner_tokens.remove_first_match(from, token_id);
        self.owner_tokens.append(to, token_id);
        Ok(())
    }

    /// Tells whether a token with this id was minted.
    pub fn token_exists(&self, token_id: u64) -> (r: bool)
        ensures
            r == self@.owners.contains_key(token_id),
    {
        self.owners.contains_key(&token_id)
    }

    /// Makes `new_admin` the administrator in place of `current_admin`.
    pub fn update_admin(&mut self, auth: &Authorization, current_admin: Principal, new_admin: Principal) -> (r:
        Result<(), LedgerError>)
        ensures
            old(self)@.wf() ==> final(self)@.wf(),
            match old(self)@.admin_refusal(*auth, current_admin) {
                Some(e) => r == Err::<(), LedgerError>(e) && *final(self) == *old(self),
                None => r == Ok::<(), LedgerError>(()) && final(self)@ == old(self)@.update_admin(
                    new_admin,
                ),
            },
    {
        if !auth.authorized(&current_admin) {
            return Err(LedgerError::Unauthorized);
        }
        match self.admin {
            None => {
                return Err(LedgerError::NotInitialized);
            },
            Some(a) => {
                if a != current_admin {
                    return Err(LedgerError::Unauthorized);
                }
            },
        }
        self.admin = Some(new_admin);
        proof {
            if old(self)@.wf() {
                lemma_admin_keeps_wf(old(self)@, self@);
            }
        }
        Ok(())
    }

    /// The administrator.
    pub fn get_admin(&self) -> (r: Result<Principal, LedgerError>)
        ensures
            r == match self@.admin {
                Some(a) => Ok::<Principal, LedgerError>(a),
                None => Err::<Principal, LedgerError>(LedgerError::NotInitialized),
            },
    {
        match self.admin {
            Some(a) => Ok(a),
            None => Err(LedgerError::NotInitialized),
        }
    }
}

} // verus!
