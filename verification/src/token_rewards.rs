//! The reward token: balances, the reward of each event, and who was paid.
//!
//! Tokens come into being when the ledger is initialized and when the
//! administrator mints; every other operation moves them from one principal
//! to another. So the balances always add up to the total supply.

use vstd::prelude::*;
use crate::error::LedgerError;
use crate::principal::{Authorization, Principal};
use crate::reward_laws::{lemma_apply, lemma_distribute_conserves, RewardCall};
use crate::table::{EventParty, Table};

verus! {

/// What is known of the token as a whole.
#[derive(Debug, PartialEq, Eq)]
pub struct RewardToken {
    pub name: String,
    pub symbol: String,
    pub decimals: u32,
    pub total_supply: i128,
}

impl Clone for RewardToken {
    fn clone(&self) -> (r: Self)
        ensures
            r == *self,
    {
        RewardToken {
            name: self.name.clone(),
            symbol: self.symbol.clone(),
            decimals: self.decimals,
            total_supply: self.total_supply,
        }
    }
}

/// The sum of the balances that `m` holds.
pub open spec fn total(m: Map<Principal, i128>) -> int
    decreases m.dom().len(),
    when m.dom().finite()
{
    if m.dom().len() == 0 {
        0
    } else {
        let p = m.dom().choose();
        m[p] + total(m.remove(p))
    }
}

/// The sum of a map is the value under any one key plus the sum of the rest.
pub proof fn lemma_total_remove(m: Map<Principal, i128>, k: Principal)
    requires
        m.dom().finite(),
        m.contains_key(k),
    ensures
        total(m) == m[k] + total(m.remove(k)),
    decreases m.dom().len(),
{
    let p = m.dom().choose();
    if p != k {
        lemma_total_remove(m.remove(p), k);
        lemma_total_remove(m.remove(k), p);
        assert(m.remove(p).remove(k) =~= m.remove(k).remove(p));
    }
}

/// Putting `v` under `k` changes the sum by the difference to what `k` had.
pub proof fn lemma_total_insert(m: Map<Principal, i128>, k: Principal, v: i128)
    requires
        m.dom().finite(),
    ensures
        total(m.insert(k, v)) == total(m) - (if m.contains_key(k) {
            m[k] as int
        } else {
            0
        }) + v,
{
    lemma_total_remove(m.insert(k, v), k);
    if m.contains_key(k) {
        lemma_total_remove(m, k);
        assert(m.insert(k, v).remove(k) =~= m.remove(k));
    } else {
        assert(m.insert(k, v).remove(k) =~= m);
    }
}

/// Whether `x` is a value of the 128-bit signed integers.
pub open spec fn fits(x: int) -> bool {
    i128::MIN <= x <= i128::MAX
}

/// The ledger as a mathematical value.
pub struct RewardsState {
    /// The administrator, once the ledger is initialized.
    pub admin: Option<Principal>,
    /// The token, once the ledger is initialized.
    pub info: Option<RewardToken>,
    /// The balance of each principal that has a balance record.
    pub balances: Map<Principal, i128>,
    /// The reward set for each event that has one.
    pub rewards: Map<u64, i128>,
    /// To whom the reward of which event was paid.
    pub claimed: Set<EventParty>,
}

impl RewardsState {
    /// The ledger before anything was written.
    pub open spec fn blank() -> RewardsState {
        RewardsState {
            admin: None,
            info: None,
            balances: Map::empty(),
            rewards: Map::empty(),
            claimed: Set::empty(),
        }
    }

    /// The balance of `p`: what its record says, 0 without a record.
    pub open spec fn balance_of(self, p: Principal) -> int {
        if self.balances.contains_key(p) {
            self.balances[p] as int
        } else {
            0
        }
    }

    /// The reward set for the event, 0 if none was set.
    pub open spec fn reward_of(self, event_id: u64) -> i128 {
        if self.rewards.contains_key(event_id) {
            self.rewards[event_id]
        } else {
            0
        }
    }

    /// Whether the reward of the event was paid to `user`.
    pub open spec fn has_claimed(self, user: Principal, event_id: u64) -> bool {
        self.claimed.contains(EventParty { event_id, party: user })
    }

    /// The total supply: that of the token, 0 before the ledger is
    /// initialized.
    pub open spec fn supply(self) -> int {
        match self.info {
            Some(t) => t.total_supply as int,
            None => 0,
        }
    }

    /// What holds of the ledger at all times: administrator and token are
    /// set together, nobody has a balance before that, and the balances add
    /// up to the total supply.
    pub open spec fn wf(self) -> bool {
        &&& self.balances.dom().finite()
        &&& (self.admin is Some <==> self.info is Some)
        &&& (self.info is None ==> self.balances == Map::<Principal, i128>::empty())
        &&& total(self.balances) == self.supply()
    }

    /// No principal owes tokens.
    pub open spec fn solvent(self) -> bool {
        forall|p: Principal| self.balance_of(p) >= 0
    }

    /// Why initializing is refused: the ledger was initialized before.
    pub open spec fn init_refusal(self) -> Option<LedgerError> {
        if self.info is Some || self.admin is Some {
            Some(LedgerError::AlreadyInitialized)
        } else {
            None
        }
    }

    /// The initialized ledger: `admin` administers it and holds the whole
    /// supply of the token.
    pub open spec fn init(self, admin: Principal, token: RewardToken) -> RewardsState {
        RewardsState {
            admin: Some(admin),
            info: Some(token),
            balances: self.balances.insert(admin, token.total_supply),
            ..self
        }
    }

    /// Why a call that only the administrator may make is refused.
    pub open spec fn admin_refusal(self, auth: Authorization, admin: Principal) -> Option<
        LedgerError,
    > {
        if !auth.permits(admin) {
            Some(LedgerError::Unauthorized)
        } else if self.admin is None {
            Some(LedgerError::NotInitialized)
        } else if self.admin != Some(admin) {
            Some(LedgerError::Unauthorized)
        } else {
            None
        }
    }

    /// The ledger with the reward of the event set to `amount`.
    pub open spec fn set_event_reward(self, event_id: u64, amount: i128) -> RewardsState {
        RewardsState { rewards: self.rewards.insert(event_id, amount), ..self }
    }

    /// Whether paying `amount` from `admin` to `user` keeps both balances in
    /// range.
    pub open spec fn pay_fits(self, admin: Principal, user: Principal, amount: i128) -> bool {
        user == admin || (fits(self.balance_of(admin) - amount) && fits(
            self.balance_of(user) + amount,
        ))
    }

    /// The ledger after `amount` went from `admin` to `user` as the reward of
    /// the event.
    pub open spec fn pay(
        self,
        admin: Principal,
        user: Principal,
        event_id: u64,
        amount: i128,
    ) -> RewardsState {
        RewardsState {
            balances: if user == admin {
                self.balances
            } else {
                self.balances.insert(admin, (self.balance_of(admin) - amount) as i128).insert(
                    user,
                    (self.balance_of(user) + amount) as i128,
                )
            },
            claimed: self.claimed.insert(EventParty { event_id, party: user }),
            ..self
        }
    }

    /// Why a claim is refused, the first that applies: the user has not
    /// authorized it; the reward was paid to it before; the event has no
    /// reward; the ledger is not initialized; the administrator holds less
    /// than the reward; a balance would leave the integer range.
    pub open spec fn claim_refusal(
        self,
        auth: Authorization,
        user: Principal,
        event_id: u64,
    ) -> Option<LedgerError> {
        if !auth.permits(user) {
            Some(LedgerError::Unauthorized)
        } else if self.has_claimed(user, event_id) {
            Some(LedgerError::AlreadyClaimed)
        } else if self.reward_of(event_id) == 0 {
            Some(LedgerError::NoRewardConfigured)
        } else if self.admin is None {
            Some(LedgerError::NotInitialized)
        } else if self.balance_of(self.admin->0) < self.reward_of(event_id) {
            Some(LedgerError::InsufficientPool)
        } else if !self.pay_fits(self.admin->0, user, self.reward_of(event_id)) {
            Some(LedgerError::Overflow)
        } else {
            None
        }
    }

    /// The ledger after the reward of the event was paid to `user`.
    pub open spec fn claim_event_reward(self, user: Principal, event_id: u64) -> RewardsState {
        self.pay(self.admin->0, user, event_id, self.reward_of(event_id))
    }

    /// The ledger after the recipients were served in turn: one that was
    /// paid before is passed over, every other is paid `amount`.
    pub open spec fn distribute(
        self,
        admin: Principal,
        event_id: u64,
        amount: i128,
        recipients: Seq<Principal>,
    ) -> RewardsState
        decreases recipients.len(),
    {
        if recipients.len() == 0 {
            self
        } else {
            let before = self.distribute(admin, event_id, amount, recipients.drop_last());
            if before.has_claimed(recipients.last(), event_id) {
                before
            } else {
                before.pay(admin, recipients.last(), event_id, amount)
            }
        }
    }

    /// What each recipient was paid: 0 if it was paid before, else `amount`.
    pub open spec fn distributed(
        self,
        admin: Principal,
        event_id: u64,
        amount: i128,
        recipients: Seq<Principal>,
    ) -> Seq<i128>
        decreases recipients.len(),
    {
        if recipients.len() == 0 {
            Seq::empty()
        } else {
            let before = self.distribute(admin, event_id, amount, recipients.drop_last());
            self.distributed(admin, event_id, amount, recipients.drop_last()).push(
                if before.has_claimed(recipients.last(), event_id) {
                    0
                } else {
                    amount
                },
            )
        }
    }

    /// Whether every payment of the distribution keeps the balances in range.
    pub open spec fn distribute_fits(
        self,
        admin: Principal,
        event_id: u64,
        amount: i128,
        recipients: Seq<Principal>,
    ) -> bool {
        forall|n: int|
            0 <= n < recipients.len() ==> {
                let before = #[trigger] self.distribute(admin, event_id, amount, recipients.take(n));
                before.has_claimed(recipients[n], event_id) || before.pay_fits(
                    admin,
                    recipients[n],
                    amount,
                )
            }
    }

    /// Why a distribution is refused, the first that applies: `admin` may not
    /// make the call; the event has no reward; the administrator holds less
    /// than the reward times the number of recipients; a balance would leave
    /// the integer range.
    pub open spec fn batch_refusal(
        self,
        auth: Authorization,
        admin: Principal,
        event_id: u64,
        recipients: Seq<Principal>,
    ) -> Option<LedgerError> {
        if self.admin_refusal(auth, admin) is Some {
            self.admin_refusal(auth, admin)
        } else if self.reward_of(event_id) == 0 {
            Some(LedgerError::NoRewardConfigured)
        } else if self.balance_of(admin) < self.reward_of(event_id) * recipients.len() {
            Some(LedgerError::InsufficientPool)
        } else if !self.distribute_fits(admin, event_id, self.reward_of(event_id), recipients) {
            Some(LedgerError::Overflow)
        } else {
            None
        }
    }

    /// The ledger after the reward of the event was distributed to the
    /// recipients.
    pub open spec fn batch_distribute_rewards(
        self,
        admin: Principal,
        event_id: u64,
        recipients: Seq<Principal>,
    ) -> RewardsState {
        self.distribute(admin, event_id, self.reward_of(event_id), recipients)
    }

    /// Why a transfer is refused, the first that applies: `from` has not
    /// authorized it; the amount is not positive; `from` holds less than the
    /// amount; the balance of `to` would leave the integer range.
    pub open spec fn transfer_refusal(
        self,
        auth: Authorization,
        from: Principal,
        to: Principal,
        amount: i128,
    ) -> Option<LedgerError> {
        if !auth.permits(from) {
            Some(LedgerError::Unauthorized)
        } else if amount <= 0 {
            Some(LedgerError::InvalidAmount)
        } else if self.balance_of(from) < amount {
            Some(LedgerError::InsufficientBalance)
        } else if from != to && !fits(self.balance_of(to) + amount) {
            Some(LedgerError::Overflow)
        } else {
            None
        }
    }

    /// The ledger after `amount` went from `from` to `to`. A transfer to
    /// oneself changes nothing.
    pub open spec fn transfer(self, from: Principal, to: Principal, amount: i128) -> RewardsState {
        if from == to {
            self
        } else {
            RewardsState {
                balances: self.balances.insert(from, (self.balance_of(from) - amount) as i128).insert(
                    to,
                    (self.balance_of(to) + amount) as i128,
                ),
                ..self
            }
        }
    }

    /// Why a mint is refused, the first that applies: `admin` may not make the
    /// call; the ledger has no token; the administrator's balance or the
    /// total supply would leave the integer range.
    pub open spec fn mint_refusal(self, auth: Authorization, admin: Principal, amount: i128) -> Option<
        LedgerError,
    > {
        if self.admin_refusal(auth, admin) is Some {
            self.admin_refusal(auth, admin)
        } else if self.info is None {
            Some(LedgerError::NotInitialized)
        } else if !fits(self.balance_of(admin) + amount) || !fits(self.supply() + amount) {
            Some(LedgerError::Overflow)
        } else {
            None
        }
    }

    /// The ledger after `amount` was minted to the administrator: its balance
    /// and the total supply have grown by `amount`.
    pub open spec fn mint(self, admin: Principal, amount: i128) -> RewardsState {
        RewardsState {
            balances: self.balances.insert(admin, (self.balance_of(admin) + amount) as i128),
            info: Some(
                RewardToken {
                    total_supply: (self.supply() + amount) as i128,
                    ..self.info->0
                },
            ),
            ..self
        }
    }
}

/// The ledger before anything was written is in order.
pub proof fn lemma_blank_is_wf()
    ensures
        RewardsState::blank().wf(),
{
    assert(RewardsState::blank().balances.dom() =~= Set::<Principal>::empty());
}

/// The reward-token ledger.
pub struct TokenRewards {
    admin: Option<Principal>,
    info: Option<RewardToken>,
    balances: Table<Principal, i128>,
    rewards: Table<u64, i128>,
    claimed: Table<EventParty, bool>,
}

impl TokenRewards {
    /// The ledger as a mathematical value.
    pub closed spec fn view(&self) -> RewardsState {
        RewardsState {
            admin: self.admin,
            info: self.info,
            balances: self.balances@,
            rewards: self.rewards@,
            claimed: self.claimed@.dom(),
        }
    }

    /// The ledger before anything was written.
    pub fn new() -> (r: Self)
        ensures
            r@ == RewardsState::blank(),
            r@.wf(),
    {
        let r = TokenRewards {
            admin: None,
            info: None,
            balances: Table::new(),
            rewards: Table::new(),
            claimed: Table::new(),
        };
        proof {
            assert(r@.claimed =~= Set::<EventParty>::empty());
            lemma_blank_is_wf();
        }
        r
    }

    /// Puts back the administrator and the token as they were persisted.
    pub fn restore_config(&mut self, admin: Option<Principal>, info: Option<RewardToken>)
        ensures
            final(self)@ == (RewardsState { admin, info, ..old(self)@ }),
    {
        self.admin = admin;
        self.info = info;
    }

    /// Puts back the persisted balance of a principal.
    pub fn restore_balance(&mut self, user: Principal, balance: i128)
        ensures
            final(self)@ == (RewardsState {
                balances: old(self)@.balances.insert(user, balance),
                ..old(self)@
            }),
    {
        self.balances.insert(user, balance);
    }

    /// Puts back the persisted reward of an event.
    pub fn restore_event_reward(&mut self, event_id: u64, reward_amount: i128)
        ensures
            final(self)@ == (RewardsState {
                rewards: old(self)@.rewards.insert(event_id, reward_amount),
                ..old(self)@
            }),
    {
        self.rewards.insert(event_id, reward_amount);
    }

    /// Puts back a persisted claim marker.
    pub fn restore_claim(&mut self, user: Principal, event_id: u64)
        ensures
            final(self)@ == (RewardsState {
                claimed: old(self)@.claimed.insert(EventParty { event_id, party: user }),
                ..old(self)@
            }),
    {
        self.claimed.insert(EventParty { event_id, party: user }, true);
        assert(self@.claimed =~= old(self)@.claimed.insert(EventParty { event_id, party: user }));
    }

    /// Creates the token and credits the whole initial supply to the
    /// administrator.
    pub fn init(
        &mut self,
        admin: Principal,
        name: String,
        symbol: String,
        decimals: u32,
        total_supply: i128,
    ) -> (r: Result<(), LedgerError>)
        ensures
            old(self)@.wf() ==> final(self)@.wf(),
            match old(self)@.init_refusal() {
                Some(e) => r == Err::<(), LedgerError>(e) && *final(self) == *old(self),
                None => r == Ok::<(), LedgerError>(()) && final(self)@ == old(self)@.init(
                    admin,
                    RewardToken { name, symbol, decimals, total_supply },
                ),
            },
    {
        if self.info.is_some() || self.admin.is_some() {
            return Err(LedgerError::AlreadyInitialized);
        }
        let token = RewardToken { name, symbol, decimals, total_supply };
        proof {
            if self@.wf() {
                lemma_apply(self@, RewardCall::Init { admin, token });
            }
        }
        self.balances.insert(admin, total_supply);
        self.admin = Some(admin);
        self.info = Some(token);
        Ok(())
    }

    /// Checks that `admin` has authorized the call and is the administrator.
    fn check_admin(&self, auth: &Authorization, admin: Principal) -> (r: Result<(), LedgerError>)
        ensures
            r == match self@.admin_refusal(*auth, admin) {
                Some(e) => Err::<(), LedgerError>(e),
                None => Ok::<(), LedgerError>(()),
            },
    {
        if !auth.authorized(&admin) {
            return Err(LedgerError::Unauthorized);
        }
        match self.admin {
            None => Err(LedgerError::NotInitialized),
            Some(a) => if a == admin {
                Ok(())
            } else {
                Err(LedgerError::Unauthorized)
            },
        }
    }

    /// Sets the reward of an event, in place of the one set before.
    pub fn set_event_reward(
        &mut self,
        auth: &Authorization,
        admin: Principal,
        event_id: u64,
        reward_amount: i128,
    ) -> (r: Result<(), LedgerError>)
        ensures
            old(self)@.wf() ==> final(self)@.wf(),
            match old(self)@.admin_refusal(*auth, admin) {
                Some(e) => r == Err::<(), LedgerError>(e) && *final(self) == *old(self),
                None => r == Ok::<(), LedgerError>(()) && final(self)@ == old(self)@.set_event_reward(
                    event_id,
                    reward_amount,
                ),
            },
    {
        match self.check_admin(auth, admin) {
            Err(e) => {
                return Err(e);
            },
            Ok(_) => {},
        }
        self.rewards.insert(event_id, reward_amount);
        Ok(())
    }

    /// Pays `user` the reward of the event out of the administrator's
    /// balance, once, and returns the amount paid.
    pub fn claim_event_reward(&mut self, auth: &Authorization, user: Principal, event_id: u64) -> (r:
        Result<i128, LedgerError>)
        ensures
            old(self)@.wf() ==> final(self)@.wf(),
            match old(self)@.claim_refusal(*auth, user, event_id) {
                Some(e) => r == Err::<i128, LedgerError>(e) && *final(self) == *old(self),
                None => r == Ok::<i128, LedgerError>(old(self)@.reward_of(event_id)) && final(self)@
                    == old(self)@.claim_event_reward(user, event_id),
            },
    {
        if !auth.authorized(&user) {
            return Err(LedgerError::Unauthorized);
        }
        let key = EventParty { event_id, party: user };
        if self.claimed.contains_key(&key) {
            return Err(LedgerError::AlreadyClaimed);
        }
        let reward_amount = self.get_event_reward(event_id);
        if reward_amount == 0 {
            return Err(LedgerError::NoRewardConfigured);
        }
        let admin = match self.admin {
            Some(a) => a,
            None => {
                return Err(LedgerError::NotInitialized);
            },
        };
        let admin_balance = self.balance(admin);
        if admin_balance < reward_amount {
            return Err(LedgerError::InsufficientPool);
        }
        if user != admin {
            let new_admin_balance = match admin_balance.checked_sub(reward_amount) {
                Some(b) => b,
                None => {
                    return Err(LedgerError::Overflow);
                },
            };
            let new_user_balance = match self.balance(user).checked_add(reward_amount) {
                Some(b) => b,
                None => {
                    return Err(LedgerError::Overflow);
                },
            };
            self.balances.insert(admin, new_admin_balance);
            self.balances.insert(user, new_user_balance);
        }
        self.claimed.insert(key, true);
        proof {
            assert(self@.claimed =~= old(self)@.claimed.insert(key));
            if old(self)@.wf() {
                lemma_apply(old(self)@, RewardCall::Claim { auth: *auth, user, event_id });
            }
        }
        Ok(reward_amount)
    }

    /// Pays the reward of the event to each recipient in turn, out of the
    /// administrator's balance, and returns what each was paid: 0 for one
    /// that was paid before. The administrator must hold the reward times
    /// the number of recipients, whoever among them was paid before.
    pub fn batch_distribute_rewards(
        &mut self,
        auth: &Authorization,
        admin: Principal,
        event_id: u64,
        recipients: &Vec<Principal>,
    ) -> (r: Result<Vec<i128>, LedgerError>)
        ensures
            old(self)@.wf() ==> final(self)@.wf(),
            match old(self)@.batch_refusal(*auth, admin, event_id, recipients@) {
                Some(e) => r == Err::<Vec<i128>, LedgerError>(e) && *final(self) == *old(self),
                None => r is Ok && r->Ok_0@ == old(self)@.distributed(
                    admin,
                    event_id,
                    old(self)@.reward_of(event_id),
                    recipients@,
                ) && final(self)@ == old(self)@.batch_distribute_rewards(
                    admin,
                    event_id,
                    recipients@,
                ),
            },
    {
        match self.check_admin(auth, admin) {
            Err(e) => {
                return Err(e);
            },
            Ok(_) => {},
        }
        let reward_amount = self.get_event_reward(event_id);
        if reward_amount == 0 {
            return Err(LedgerError::NoRewardConfigured);
        }
        let admin_balance = self.balance(admin);
        let count = recipients.len();
        match reward_amount.checked_mul(count as i128) {
            Some(total_reward) => {
                if admin_balance < total_reward {
                    return Err(LedgerError::InsufficientPool);
                }
            },
            None => {
                if reward_amount > 0 {
                    return Err(LedgerError::InsufficientPool);
                }
                assert(reward_amount * count < i128::MIN) by (nonlinear_arith)
                    requires
                        reward_amount < 0,
                        count >= 0,
                        reward_amount * count > i128::MAX || reward_amount * count < i128::MIN,
                ;
            },
        }
        // the payments are made on a copy, which takes the place of the
        // ledger's tables once all of them are made
        let mut balances = self.balances.duplicate();
        let mut claimed = self.claimed.duplicate();
        let mut paid: Vec<i128> = Vec::new();
        let mut i: usize = 0;
        proof {
            assert(recipients@.take(0) =~= Seq::<Principal>::empty());
        }
        while i < count
            invariant
                count == recipients@.len(),
                i <= count,
                *self == *old(self),
                self@.admin_refusal(*auth, admin) is None,
                reward_amount == self@.reward_of(event_id),
                reward_amount != 0,
                self@.balance_of(admin) >= reward_amount * count,
                balances@ == self@.distribute(
                    admin,
                    event_id,
                    reward_amount,
                    recipients@.take(i as int),
                ).balances,
                claimed@.dom() == self@.distribute(
                    admin,
                    event_id,
                    reward_amount,
                    recipients@.take(i as int),
                ).claimed,
                paid@ == self@.distributed(
                    admin,
                    event_id,
                    reward_amount,
                    recipients@.take(i as int),
                ),
                forall|n: int|
                    0 <= n < i ==> {
                        let before = #[trigger] self@.distribute(
                            admin,
                            event_id,
                            reward_amount,
                            recipients@.take(n),
                        );
                        before.has_claimed(recipients@[n], event_id) || before.pay_fits(
                            admin,
                            recipients@[n],
                            reward_amount,
                        )
                    },
            decreases count - i,
        {
            let recipient = recipients[i];
            let key = EventParty { event_id, party: recipient };
            let ghost before = self@.distribute(
                admin,
                event_id,
                reward_amount,
                recipients@.take(i as int),
            );
            proof {
                assert(recipients@.take(i + 1).drop_last() =~= recipients@.take(i as int));
                assert(recipients@.take(i + 1).last() == recipient);
            }
            if claimed.contains_key(&key) {
                paid.push(0);
            } else {
                if recipient != admin {
                    let admin_now = match balances.get(&admin) {
                        Some(b) => *b,
                        None => 0,
                    };
                    let recipient_now = match balances.get(&recipient) {
                        Some(b) => *b,
                        None => 0,
                    };
                    let new_admin_balance = match admin_now.checked_sub(reward_amount) {
                        Some(b) => b,
                        None => {
                            assert(!before.pay_fits(admin, recipient, reward_amount));
                            return Err(LedgerError::Overflow);
                        },
                    };
                    let new_recipient_balance = match recipient_now.checked_add(reward_amount) {
                        Some(b) => b,
                        None => {
                            assert(!before.pay_fits(admin, recipient, reward_amount));
                            return Err(LedgerError::Overflow);
                        },
                    };
                    balances.insert(admin, new_admin_balance);
                    balances.insert(recipient, new_recipient_balance);
                }
                claimed.insert(key, true);
                paid.push(reward_amount);
                proof {
                    assert(claimed@.dom() =~= before.claimed.insert(key));
                }
            }
            i += 1;
        }
        proof {
            assert(recipients@.take(count as int) =~= recipients@);
            self.balances.lemma_finite();
            lemma_distribute_conserves(self@, admin, event_id, reward_amount, recipients@);
            if self@.wf() {
                lemma_apply(
                    self@,
                    RewardCall::Distribute { auth: *auth, admin, event_id, recipients: recipients@ },
                );
            }
        }
        self.balances = balances;
        self.claimed = claimed;
        Ok(paid)
    }

    /// The balance of `user`, 0 if it has none.
    pub fn balance(&self, user: Principal) -> (r: i128)
        ensures
            r == self@.balance_of(user),
    {
        match self.balances.get(&user) {
            Some(b) => *b,
            None => 0,
        }
    }

    /// The token's name, symbol, decimals and total supply.
    pub fn token_info(&self) -> (r: Result<RewardToken, LedgerError>)
        ensures
            r == match self@.info {
                Some(t) => Ok::<RewardToken, LedgerError>(t),
                None => Err::<RewardToken, LedgerError>(LedgerError::NotInitialized),
            },
    {
        match &self.info {
            Some(t) => Ok(t.clone()),
            None => Err(LedgerError::NotInitialized),
        }
    }

    /// Moves `amount` tokens from `from` to `to`.
    pub fn transfer(
        &mut self,
        auth: &Authorization,
        from: Principal,
        to: Principal,
        amount: i128,
    ) -> (r: Result<(), LedgerError>)
        ensures
            old(self)@.wf() ==> final(self)@.wf(),
            match old(self)@.transfer_refusal(*auth, from, to, amount) {
                Some(e) => r == Err::<(), LedgerError>(e) && *final(self) == *old(self),
                None => r == Ok::<(), LedgerError>(()) && final(self)@ == old(self)@.transfer(
                    from,
                    to,
                    amount,
                ),
            },
    {
        if !auth.authorized(&from) {
            return Err(LedgerError::Unauthorized);
        }
        if amount <= 0 {
            return Err(LedgerError::InvalidAmount);
        }
        let from_balance = self.balance(from);
        if from_balance < amount {
            return Err(LedgerError::InsufficientBalance);
        }
        if from == to {
            return Ok(());
        }
        let new_to_balance = match self.balance(to).checked_add(amount) {
            Some(b) => b,
            None => {
                return Err(LedgerError::Overflow);
            },
        };
        proof {
            if self@.wf() {
                lemma_apply(self@, RewardCall::Transfer { auth: *auth, from, to, amount });
            }
        }
        self.balances.insert(from, from_balance - amount);
        self.balances.insert(to, new_to_balance);
        Ok(())
    }

    /// Tells whether the reward of the event was paid to `user`.
    pub fn has_claimed_reward(&self, user: Principal, event_id: u64) -> (r: bool)
        ensures
            r == self@.has_claimed(user, event_id),
    {
        self.claimed.contains_key(&EventParty { event_id, party: user })
    }

    /// The reward set for the event, 0 if none was set.
    pub fn get_event_reward(&self, event_id: u64) -> (r: i128)
        ensures
            r == self@.reward_of(event_id),
    {
        match self.rewards.get(&event_id) {
            Some(a) => *a,
            None => 0,
        }
    }

    /// Mints `amount` tokens to the administrator.
    pub fn mint(&mut self, auth: &Authorization, admin: Principal, amount: i128) -> (r: Result<
        (),
        LedgerError,
    >)
        ensures
            old(self)@.wf() ==> final(self)@.wf(),
            match old(self)@.mint_refusal(*auth, admin, amount) {
                Some(e) => r == Err::<(), LedgerError>(e) && *final(self) == *old(self),
                None => r == Ok::<(), LedgerError>(()) && final(self)@ == old(self)@.mint(
                    admin,
                    amount,
                ),
            },
    {
        match self.check_admin(auth, admin) {
            Err(e) => {
                return Err(e);
            },
            Ok(_) => {},
        }
        let supply = match &self.info {
            Some(t) => t.total_supply,
            None => {
                return Err(LedgerError::NotInitialized);
            },
        };
        let new_admin_balance = match self.balance(admin).checked_add(amount) {
            Some(b) => b,
            None => {
                return Err(LedgerError::Overflow);
            },
        };
        let new_supply = match supply.checked_add(amount) {
            Some(b) => b,
            None => {
                return Err(LedgerError::Overflow);
            },
        };
        proof {
            if self@.wf() {
                lemma_apply(self@, RewardCall::Mint { auth: *auth, admin, amount });
            }
        }
        self.balances.insert(admin, new_admin_balance);
        match &mut self.info {
            Some(t) => {
                t.total_supply = new_supply;
            },
            None => {},
        }
        Ok(())
    }

    /// The administrator.
    pub fn get_admin(&self) -> (r: Result<Principal, LedgerError>)
        ensures
            r == match self@.admin {
                Some(a) => Ok::<Principal, LedgerError>(a),
                None => Err::<Principal, LedgerError>(LedgerError::NotInitialized),
            },
    {
        match self.admin {
            Some(a) => Ok(a),
            None => Err(LedgerError::NotInitialized),
        }
    }
}

} // verus!
