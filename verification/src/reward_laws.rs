//! What holds of the reward-token ledger whatever calls are made, in
//! whatever order.

use vstd::prelude::*;
use crate::error::LedgerError;
use crate::principal::{Authorization, Principal};
use crate::token_rewards::{
    lemma_blank_is_wf, lemma_total_insert, total, RewardToken, RewardsState,
};

verus! {

/// A call to the reward-token ledger.
pub enum RewardCall {
    Init { admin: Principal, token: RewardToken },
    SetEventReward { auth: Authorization, admin: Principal, event_id: u64, amount: i128 },
    Claim { auth: Authorization, user: Principal, event_id: u64 },
    Distribute { auth: Authorization, admin: Principal, event_id: u64, recipients: Seq<Principal> },
    Transfer { auth: Authorization, from: Principal, to: Principal, amount: i128 },
    Mint { auth: Authorization, admin: Principal, amount: i128 },
}

impl RewardsState {
    /// Why the call is refused, if it is.
    pub open spec fn refusal(self, call: RewardCall) -> Option<LedgerError> {
        match call {
            RewardCall::Init { admin, token } => self.init_refusal(),
            RewardCall::SetEventReward { auth, admin, event_id, amount } => self.admin_refusal(
                auth,
                admin,
            ),
            RewardCall::Claim { auth, user, event_id } => self.claim_refusal(auth, user, event_id),
            RewardCall::Distribute { auth, admin, event_id, recipients } => self.batch_refusal(
                auth,
                admin,
                event_id,
                recipients,
            ),
            RewardCall::Transfer { auth, from, to, amount } => self.transfer_refusal(
                auth,
                from,
                to,
                amount,
            ),
            RewardCall::Mint { auth, admin, amount } => self.mint_refusal(auth, admin, amount),
        }
    }

    /// The ledger after the call: as before if the call is refused.
    pub open spec fn apply(self, call: RewardCall) -> RewardsState {
        if self.refusal(call) is Some {
            self
        } else {
            match call {
                RewardCall::Init { admin, token } => self.init(admin, token),
                RewardCall::SetEventReward { auth, admin, event_id, amount } => self.set_event_reward(
                    event_id,
                    amount,
                ),
                RewardCall::Claim { auth, user, event_id } => self.claim_event_reward(
                    user,
                    event_id,
                ),
                RewardCall::Distribute {
                    auth,
                    admin,
                    event_id,
                    recipients,
                } => self.batch_distribute_rewards(admin, event_id, recipients),
                RewardCall::Transfer { auth, from, to, amount } => self.transfer(from, to, amount),
                RewardCall::Mint { auth, admin, amount } => self.mint(admin, amount),
            }
        }
    }

    /// The ledger after the calls were made in turn.
    pub open spec fn run(self, calls: Seq<RewardCall>) -> RewardsState
        decreases calls.len(),
    {
        if calls.len() == 0 {
            self
        } else {
            self.run(calls.drop_last()).apply(calls.last())
        }
    }

    /// The tokens that the call brings into being: the initial supply of an
    /// accepted initialization, the amount of an accepted mint.
    pub open spec fn created_by(self, call: RewardCall) -> int {
        if self.refusal(call) is Some {
            0
        } else {
            match call {
                RewardCall::Init { admin, token } => token.total_supply as int,
                RewardCall::Mint { auth, admin, amount } => amount as int,
                _ => 0,
            }
        }
    }

    /// The tokens that the calls, made in turn, bring into being.
    pub open spec fn created(self, calls: Seq<RewardCall>) -> int
        decreases calls.len(),
    {
        if calls.len() == 0 {
            0
        } else {
            self.created(calls.drop_last()) + self.run(calls.drop_last()).created_by(calls.last())
        }
    }

    /// No event has a negative reward.
    pub open spec fn rewards_sound(self) -> bool {
        forall|event_id: u64| self.reward_of(event_id) >= 0
    }
}

/// Whether the call names no negative amount.
pub open spec fn names_no_debt(call: RewardCall) -> bool {
    match call {
        RewardCall::Init { admin, token } => token.total_supply >= 0,
        RewardCall::SetEventReward { auth, admin, event_id, amount } => amount >= 0,
        RewardCall::Mint { auth, admin, amount } => amount >= 0,
        _ => true,
    }
}

/// A payment that fits moves tokens and creates none.
pub proof fn lemma_pay_conserves(
    s: RewardsState,
    admin: Principal,
    user: Principal,
    event_id: u64,
    amount: i128,
)
    requires
        s.balances.dom().finite(),
        s.pay_fits(admin, user, amount),
    ensures
        s.pay(admin, user, event_id, amount).balances.dom().finite(),
        total(s.pay(admin, user, event_id, amount).balances) == total(s.balances),
{
    if user != admin {
        let a = (s.balance_of(admin) - amount) as i128;
        let u = (s.balance_of(user) + amount) as i128;
        lemma_total_insert(s.balances, admin, a);
        lemma_total_insert(s.balances.insert(admin, a), user, u);
    }
}

/// If the payments of a distribution fit, so do those to the recipients but
/// the last.
pub proof fn lemma_distribute_fits_prefix(
    s: RewardsState,
    admin: Principal,
    event_id: u64,
    amount: i128,
    recipients: Seq<Principal>,
)
    requires
        recipients.len() > 0,
        s.distribute_fits(admin, event_id, amount, recipients),
    ensures
        s.distribute_fits(admin, event_id, amount, recipients.drop_last()),
        ({
            let before = s.distribute(admin, event_id, amount, recipients.drop_last());
            before.has_claimed(recipients.last(), event_id) || before.pay_fits(
                admin,
                recipients.last(),
                amount,
            )
        }),
{
    let shorter = recipients.drop_last();
    assert forall|n: int| 0 <= n < shorter.len() implies ({
        let before = #[trigger] s.distribute(admin, event_id, amount, shorter.take(n));
        before.has_claimed(shorter[n], event_id) || before.pay_fits(admin, shorter[n], amount)
    }) by {
        assert(shorter.take(n) =~= recipients.take(n));
        let before = s.distribute(admin, event_id, amount, recipients.take(n));
        assert(before.has_claimed(recipients[n], event_id) || before.pay_fits(
            admin,
            recipients[n],
            amount,
        ));
    }
    assert(recipients.take(recipients.len() - 1) =~= shorter);
    let last = s.distribute(admin, event_id, amount, recipients.take(recipients.len() - 1));
    assert(last.has_claimed(recipients[recipients.len() - 1], event_id) || last.pay_fits(
        admin,
        recipients[recipients.len() - 1],
        amount,
    ));
}

/// A distribution whose payments fit moves tokens and creates none. It
/// changes neither administrator, token nor rewards, and takes no claim
/// marker away.
pub proof fn lemma_distribute_conserves(
    s: RewardsState,
    admin: Principal,
    event_id: u64,
    amount: i128,
    recipients: Seq<Principal>,
)
    requires
        s.balances.dom().finite(),
        s.distribute_fits(admin, event_id, amount, recipients),
    ensures
        s.distribute(admin, event_id, amount, recipients).balances.dom().finite(),
        total(s.distribute(admin, event_id, amount, recipients).balances) == total(s.balances),
        s.distribute(admin, event_id, amount, recipients).admin == s.admin,
        s.distribute(admin, event_id, amount, recipients).info == s.info,
        s.distribute(admin, event_id, amount, recipients).rewards == s.rewards,
        s.claimed.subset_of(s.distribute(admin, event_id, amount, recipients).claimed),
    decreases recipients.len(),
{
    if recipients.len() > 0 {
        lemma_distribute_fits_prefix(s, admin, event_id, amount, recipients);
        lemma_distribute_conserves(s, admin, event_id, amount, recipients.drop_last());
        let before = s.distribute(admin, event_id, amount, recipients.drop_last());
        if !before.has_claimed(recipients.last(), event_id) {
            lemma_pay_conserves(before, admin, recipients.last(), event_id, amount);
        }
    }
}

/// Every call leaves the ledger in order: the balances still add up to the
/// total supply. The total supply grows by what the call creates, and a
/// claim marker that was set stays set.
pub proof fn lemma_apply(s: RewardsState, call: RewardCall)
    requires
        s.wf(),
    ensures
        s.apply(call).wf(),
        s.apply(call).supply() == s.supply() + s.created_by(call),
        s.claimed.subset_of(s.apply(call).claimed),
{
    if s.refusal(call) is None {
        match call {
            RewardCall::Init { admin, token } => {
                lemma_total_insert(s.balances, admin, token.total_supply);
            },
            RewardCall::SetEventReward { auth, admin, event_id, amount } => {},
            RewardCall::Claim { auth, user, event_id } => {
                lemma_pay_conserves(s, s.admin->0, user, event_id, s.reward_of(event_id));
            },
            RewardCall::Distribute { auth, admin, event_id, recipients } => {
                lemma_distribute_conserves(s, admin, event_id, s.reward_of(event_id), recipients);
            },
            RewardCall::Transfer { auth, from, to, amount } => {
                if from != to {
                    let f = (s.balance_of(from) - amount) as i128;
                    let t = (s.balance_of(to) + amount) as i128;
                    lemma_total_insert(s.balances, from, f);
                    lemma_total_insert(s.balances.insert(from, f), to, t);
                }
            },
            RewardCall::Mint { auth, admin, amount } => {
                lemma_total_insert(s.balances, admin, (s.balance_of(admin) + amount) as i128);
            },
        }
    }
}

/// Conservation: whatever calls are made, in whatever order, the balances
/// add up to the total supply after each of them, and the total supply is
/// what it was plus what initialization and mints have created since.
pub proof fn lemma_supply_is_conserved(s: RewardsState, calls: Seq<RewardCall>)
    requires
        s.wf(),
    ensures
        s.run(calls).wf(),
        total(s.run(calls).balances) == s.run(calls).supply(),
        s.run(calls).supply() == s.supply() + s.created(calls),
    decreases calls.len(),
{
    if calls.len() > 0 {
        lemma_supply_is_conserved(s, calls.drop_last());
        lemma_apply(s.run(calls.drop_last()), calls.last());
    }
}

/// Conservation from the first call on: whatever calls are made to a new
/// ledger, in whatever order, the balances add up to what initialization
/// and mints have created.
pub proof fn lemma_supply_from_the_start(calls: Seq<RewardCall>)
    ensures
        RewardsState::blank().run(calls).wf(),
        total(RewardsState::blank().run(calls).balances) == RewardsState::blank().created(calls),
{
    lemma_blank_is_wf();
    lemma_supply_is_conserved(RewardsState::blank(), calls);
}

/// A reward that was paid stays paid, whatever calls follow.
pub proof fn lemma_claims_stay(
    s: RewardsState,
    calls: Seq<RewardCall>,
    user: Principal,
    event_id: u64,
)
    requires
        s.wf(),
        s.has_claimed(user, event_id),
    ensures
        s.run(calls).has_claimed(user, event_id),
    decreases calls.len(),
{
    if calls.len() > 0 {
        lemma_claims_stay(s, calls.drop_last(), user, event_id);
        lemma_supply_is_conserved(s, calls.drop_last());
        lemma_apply(s.run(calls.drop_last()), calls.last());
    }
}

/// A reward is paid once: after a claim was accepted, and whatever calls
/// followed, a claim of the same principal for the same event is refused,
/// as already paid where the principal has authorized it, and so changes
/// nothing.
pub proof fn lemma_claim_once(
    s: RewardsState,
    first: Authorization,
    user: Principal,
    event_id: u64,
    calls: Seq<RewardCall>,
    again: Authorization,
)
    requires
        s.wf(),
        s.claim_refusal(first, user, event_id) is None,
    ensures
        ({
            let later = s.claim_event_reward(user, event_id).run(calls);
            let call = RewardCall::Claim { auth: again, user, event_id };
            &&& later.refusal(call) is Some
            &&& again.permits(user) ==> later.refusal(call) == Some(LedgerError::AlreadyClaimed)
            &&& later.apply(call) == later
        }),
{
    let call = RewardCall::Claim { auth: first, user, event_id };
    lemma_apply(s, call);
    assert(s.apply(call) == s.claim_event_reward(user, event_id));
    lemma_claims_stay(s.claim_event_reward(user, event_id), calls, user, event_id);
}

/// A distribution of a reward that is not negative, out of a pool that
/// covers it, takes from the administrator at most the reward for each
/// recipient and from nobody else.
pub proof fn lemma_distribute_takes_from_pool(
    s: RewardsState,
    admin: Principal,
    event_id: u64,
    amount: i128,
    recipients: Seq<Principal>,
)
    requires
        amount >= 0,
        s.distribute_fits(admin, event_id, amount, recipients),
    ensures
        s.distribute(admin, event_id, amount, recipients).balance_of(admin) >= s.balance_of(admin)
            - amount * recipients.len(),
        forall|p: Principal|
            p != admin ==> #[trigger] s.distribute(
                admin,
                event_id,
                amount,
                recipients,
            ).balance_of(p) >= s.balance_of(p),
    decreases recipients.len(),
{
    if recipients.len() > 0 {
        lemma_distribute_fits_prefix(s, admin, event_id, amount, recipients);
        lemma_distribute_takes_from_pool(s, admin, event_id, amount, recipients.drop_last());
        let before = s.distribute(admin, event_id, amount, recipients.drop_last());
        let after = s.distribute(admin, event_id, amount, recipients);
        assert(amount * recipients.len() == amount * recipients.drop_last().len() + amount)
            by (nonlinear_arith)
            requires
                recipients.drop_last().len() == recipients.len() - 1,
        ;
        assert forall|p: Principal| p != admin implies #[trigger] after.balance_of(p)
            >= s.balance_of(p) by {
            assert(before.balance_of(p) >= s.balance_of(p));
        }
    } else {
        assert(amount * recipients.len() == 0) by (nonlinear_arith)
            requires
                recipients.len() == 0,
        ;
    }
}

/// A call that names no negative amount, made while nobody owes tokens and
/// no reward is negative, leaves it so.
pub proof fn lemma_apply_keeps_solvent(s: RewardsState, call: RewardCall)
    requires
        s.wf(),
        s.solvent(),
        s.rewards_sound(),
        names_no_debt(call),
    ensures
        s.apply(call).solvent(),
        s.apply(call).rewards_sound(),
{
    let t = s.apply(call);
    if s.refusal(call) is None {
        match call {
            RewardCall::SetEventReward { auth, admin, event_id, amount } => {
                assert forall|e: u64| t.reward_of(e) >= 0 by {
                    assert(s.reward_of(e) >= 0);
                }
            },
            RewardCall::Distribute { auth, admin, event_id, recipients } => {
                lemma_distribute_conserves(s, admin, event_id, s.reward_of(event_id), recipients);
            },
            _ => {},
        }
        assert forall|e: u64| t.reward_of(e) >= 0 by {
            assert(s.reward_of(e) >= 0);
        }
        match call {
            RewardCall::Claim { auth, user, event_id } => {
                assert(s.reward_of(event_id) >= 0);
            },
            RewardCall::Distribute { auth, admin, event_id, recipients } => {
                assert(s.reward_of(event_id) >= 0);
                lemma_distribute_takes_from_pool(
                    s,
                    admin,
                    event_id,
                    s.reward_of(event_id),
                    recipients,
                );
            },
            _ => {},
        }
        assert forall|p: Principal| t.balance_of(p) >= 0 by {
            assert(s.balance_of(p) >= 0);
            match call {
                RewardCall::Claim { auth, user, event_id } => {
                    assert(s.balance_of(s.admin->0) >= 0);
                    assert(s.balance_of(user) >= 0);
                },
                RewardCall::Transfer { auth, from, to, amount } => {
                    assert(s.balance_of(from) >= 0);
                    assert(s.balance_of(to) >= 0);
                },
                RewardCall::Mint { auth, admin, amount } => {
                    assert(s.balance_of(admin) >= 0);
                },
                _ => {},
            }
        }
    }
}

/// No balance is ever negative: starting where nobody owes tokens and no
/// reward is negative, calls that name no negative amount, made in whatever
/// order, leave every balance at 0 or above.
pub proof fn lemma_no_balance_goes_negative(s: RewardsState, calls: Seq<RewardCall>)
    requires
        s.wf(),
        s.solvent(),
        s.rewards_sound(),
        forall|i: int| 0 <= i < calls.len() ==> names_no_debt(#[trigger] calls[i]),
    ensures
        s.run(calls).solvent(),
        s.run(calls).rewards_sound(),
    decreases calls.len(),
{
    if calls.len() > 0 {
        assert forall|i: int| 0 <= i < calls.drop_last().len() implies names_no_debt(
            #[trigger] calls.drop_last()[i],
        ) by {
            assert(calls.drop_last()[i] == calls[i]);
        }
        lemma_no_balance_goes_negative(s, calls.drop_last());
        lemma_supply_is_conserved(s, calls.drop_last());
        lemma_apply_keeps_solvent(s.run(calls.drop_last()), calls.last());
    }
}

} // verus!
