//! What holds of the collectible registry whatever calls are made, in
//! whatever order.

use vstd::prelude::*;
use vstd::multiset::group_multiset_axioms;
use vstd::seq_lib::{to_multiset_build, to_multiset_remove};
use crate::error::LedgerError;
use crate::nft_minter::{
    lemma_admin_keeps_wf, lemma_blank_is_wf, lemma_mint_keeps_wf, lemma_transfer_keeps_wf,
    CollectiblesState, NFTMetadata,
};
use crate::principal::{Authorization, Principal};
use crate::relation::lemma_remove_value;

verus! {

/// A call to the collectible registry.
pub enum CollectibleCall {
    Init { admin: Principal },
    Mint { auth: Authorization, to: Principal, metadata: NFTMetadata },
    BatchMint { auth: Authorization, recipients: Seq<Principal>, metadata: NFTMetadata },
    Transfer { auth: Authorization, from: Principal, to: Principal, token_id: u64 },
    UpdateAdmin { auth: Authorization, current_admin: Principal, new_admin: Principal },
}

impl CollectiblesState {
    /// Why the call is refused, if it is.
    pub open spec fn refusal(self, call: CollectibleCall) -> Option<LedgerError> {
        match call {
            CollectibleCall::Init { admin } => self.init_refusal(),
            CollectibleCall::Mint { auth, to, metadata } => self.mint_refusal(auth, 1),
            CollectibleCall::BatchMint { auth, recipients, metadata } => self.mint_refusal(
                auth,
                recipients.len() as int,
            ),
            CollectibleCall::Transfer { auth, from, to, token_id } => self.transfer_refusal(
                auth,
                from,
                token_id,
            ),
            CollectibleCall::UpdateAdmin { auth, current_admin, new_admin } => self.admin_refusal(
                auth,
                current_admin,
            ),
        }
    }

    /// The registry after the call: as before if the call is refused.
    pub open spec fn apply(self, call: CollectibleCall) -> CollectiblesState {
        if self.refusal(call) is Some {
            self
        } else {
            match call {
                CollectibleCall::Init { admin } => self.init(admin),
                CollectibleCall::Mint { auth, to, metadata } => self.mint_event_nft(to, metadata),
                CollectibleCall::BatchMint {
                    auth,
                    recipients,
                    metadata,
                } => self.batch_mint_event_nfts(recipients, metadata),
                CollectibleCall::Transfer { auth, from, to, token_id } => self.transfer(
                    from,
                    to,
                    token_id,
                ),
                CollectibleCall::UpdateAdmin {
                    auth,
                    current_admin,
                    new_admin,
                } => self.update_admin(new_admin),
            }
        }
    }

    /// The registry after the calls were made in turn.
    pub open spec fn run(self, calls: Seq<CollectibleCall>) -> CollectiblesState
        decreases calls.len(),
    {
        if calls.len() == 0 {
            self
        } else {
            self.run(calls.drop_last()).apply(calls.last())
        }
    }

    /// Whether `later` has every token of this registry, under its id and
    /// with its metadata, and has issued no fewer ids.
    pub open spec fn kept_by(self, later: CollectiblesState) -> bool {
        &&& self.total_supply() <= later.total_supply()
        &&& forall|id: u64| #[trigger]
            self.metadata.contains_key(id) ==> later.metadata.contains_key(id)
                && later.metadata[id] == self.metadata[id]
    }
}

/// Minting to several recipients keeps the registry in order, issues one id
/// for each, and keeps what was there.
pub proof fn lemma_batch_mint(s: CollectiblesState, recipients: Seq<Principal>, metadata: NFTMetadata)
    requires
        s.wf(),
        s.total_supply() + recipients.len() <= u64::MAX,
    ensures
        s.batch_mint_event_nfts(recipients, metadata).wf(),
        s.batch_mint_event_nfts(recipients, metadata).total_supply() == s.total_supply()
            + recipients.len(),
        s.kept_by(s.batch_mint_event_nfts(recipients, metadata)),
    decreases recipients.len(),
{
    if recipients.len() > 0 {
        lemma_batch_mint(s, recipients.drop_last(), metadata);
        lemma_mint_keeps_wf(
            s.batch_mint_event_nfts(recipients.drop_last(), metadata),
            recipients.last(),
            metadata,
        );
    }
}

/// Every call leaves the registry in order. It takes no token away, issues
/// no id a second time, and leaves the metadata of every token as it was.
pub proof fn lemma_apply(s: CollectiblesState, call: CollectibleCall)
    requires
        s.wf(),
    ensures
        s.apply(call).wf(),
        s.kept_by(s.apply(call)),
{
    if s.refusal(call) is None {
        match call {
            CollectibleCall::Init { admin } => {
                lemma_admin_keeps_wf(s, s.apply(call));
            },
            CollectibleCall::Mint { auth, to, metadata } => {
                lemma_mint_keeps_wf(s, to, metadata);
            },
            CollectibleCall::BatchMint { auth, recipients, metadata } => {
                lemma_batch_mint(s, recipients, metadata);
            },
            CollectibleCall::Transfer { auth, from, to, token_id } => {
                lemma_transfer_keeps_wf(s, from, to, token_id);
            },
            CollectibleCall::UpdateAdmin { auth, current_admin, new_admin } => {
                lemma_admin_keeps_wf(s, s.apply(call));
            },
        }
    }
}

/// Whatever calls are made, in whatever order, the registry stays in order:
/// every token has one owner and stands once in that owner's list and in no
/// other. No token is lost, no id issued twice, no metadata changed.
pub proof fn lemma_run(s: CollectiblesState, calls: Seq<CollectibleCall>)
    requires
        s.wf(),
    ensures
        s.run(calls).wf(),
        s.kept_by(s.run(calls)),
    decreases calls.len(),
{
    if calls.len() > 0 {
        lemma_run(s, calls.drop_last());
        lemma_apply(s.run(calls.drop_last()), calls.last());
    }
}

/// From the first call on: whatever calls are made to a new registry, in
/// whatever order, the registry is in order after each of them.
pub proof fn lemma_run_from_the_start(calls: Seq<CollectibleCall>)
    ensures
        CollectiblesState::blank().run(calls).wf(),
{
    lemma_blank_is_wf();
    lemma_run(CollectiblesState::blank(), calls);
}

/// A token that goes from `a` to `b` and back from `b` to `a` is owned by
/// `a` again. The list of `a` holds what it held, with the token now last;
/// the list of `b`, and of anyone else, is exactly what it was. The way back
/// is open to `b` as soon as `b` authorizes it.
pub proof fn lemma_transfer_round_trip(
    s: CollectiblesState,
    a: Principal,
    b: Principal,
    token_id: u64,
    back: Authorization,
)
    requires
        s.wf(),
        s.owners.contains_key(token_id),
        s.owners[token_id] == a,
    ensures
        ({
            let there = s.transfer(a, b, token_id);
            let home = there.transfer(b, a, token_id);
            &&& there.owners[token_id] == b
            &&& back.permits(b) ==> there.transfer_refusal(back, b, token_id) is None
            &&& home.owners == s.owners
            &&& home.tokens_of(a) == s.tokens_of(a).remove_value(token_id).push(token_id)
            &&& home.tokens_of(a).to_multiset() == s.tokens_of(a).to_multiset()
            &&& forall|p: Principal| p != a ==> #[trigger] home.tokens_of(p) == s.tokens_of(p)
            &&& home.metadata == s.metadata
            &&& home.event_nfts == s.event_nfts
            &&& home.counter == s.counter
            &&& home.admin == s.admin
        }),
{
    broadcast use group_multiset_axioms;

    let there = s.transfer(a, b, token_id);
    let home = there.transfer(b, a, token_id);
    let mine = s.tokens_of(a);
    let rest = mine.remove_value(token_id);
    lemma_transfer_keeps_wf(s, a, b, token_id);
    lemma_remove_value(mine, token_id);
    assert(home.owners =~= s.owners);
    // the list of `a` on the way there and back
    assert(mine.contains(token_id));
    mine.index_of_first_ensures(token_id);
    let at = mine.index_of_first(token_id)->0;
    assert(rest == mine.remove(at));
    if a == b {
        assert(there.tokens_of(a) == rest.push(token_id));
    } else {
        assert(there.tokens_of(a) == rest);
        assert(!s.tokens_of(b).contains(token_id)) by {
            if s.tokens_of(b).contains(token_id) {
                let i = choose|i: int|
                    0 <= i < s.tokens_of(b).len() && s.tokens_of(b)[i] == token_id;
                assert(s.owners[s.tokens_of(b)[i]] == b);
            }
        }
        assert(there.tokens_of(b) == s.tokens_of(b).push(token_id));
    }
    // the list of `b` with the token at its end, and without it again
    let theirs = there.tokens_of(b);
    let kept = if a == b {
        rest
    } else {
        s.tokens_of(b)
    };
    assert(theirs == kept.push(token_id));
    assert(!kept.contains(token_id));
    theirs.index_of_first_ensures(token_id);
    assert(theirs[kept.len() as int] == token_id);
    assert(theirs.index_of_first(token_id) == Some(kept.len() as int)) by {
        let i = theirs.index_of_first(token_id)->0;
        if i < kept.len() {
            assert(kept[i] == token_id);
        }
    }
    assert(theirs.remove_value(token_id) =~= kept);
    assert(home.tokens_of(a) == rest.push(token_id));
    assert forall|p: Principal| p != a implies #[trigger] home.tokens_of(p) == s.tokens_of(p) by {}
    // the same tokens as before
    to_multiset_remove(mine, at);
    to_multiset_build(rest, token_id);
    assert(mine.to_multiset().count(token_id) > 0) by {
        mine.to_multiset_ensures();
    }
    assert(mine.to_multiset().remove(token_id).insert(token_id) =~= mine.to_multiset());
}

} // verus!
