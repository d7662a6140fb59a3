//! Principals, and the authorizations a call carries.

use vstd::prelude::*;

verus! {

/// What kind of identity a principal is.
#[derive(Clone, Copy, Debug, PartialEq, Eq, Structural, Hash)]
pub enum PrincipalKind {
    /// An account, named by its public key.
    Account,
    /// A contract, named by its hash.
    Contract,
}

/// An identity that can authorize actions: a kind and a 256-bit key, held as
/// two halves. Two principals are the same exactly when kind and key agree.
#[derive(Clone, Copy, Debug, PartialEq, Eq, Structural, Hash)]
pub struct Principal {
    pub kind: PrincipalKind,
    pub key_hi: u128,
    pub key_lo: u128,
}

impl Principal {
    /// The account with the given key.
    pub fn account(key_hi: u128, key_lo: u128) -> (p: Principal)
        ensures
            p == (Principal { kind: PrincipalKind::Account, key_hi, key_lo }),
    {
        Principal { kind: PrincipalKind::Account, key_hi, key_lo }
    }

    /// The contract with the given hash.
    pub fn contract(key_hi: u128, key_lo: u128) -> (p: Principal)
        ensures
            p == (Principal { kind: PrincipalKind::Contract, key_hi, key_lo }),
    {
        Principal { kind: PrincipalKind::Contract, key_hi, key_lo }
    }
}

/// The principals that have authorized the call at hand.
pub struct Authorization {
    signers: Vec<Principal>,
}

impl Authorization {
    /// The principals that have authorized the call, in the order given.
    pub closed spec fn view(&self) -> Seq<Principal> {
        self.signers@
    }

    /// Whether `p` has authorized the call.
    pub open spec fn permits(&self, p: Principal) -> bool {
        self@.contains(p)
    }

    /// A call that nobody has authorized.
    pub fn none() -> (a: Authorization)
        ensures
            a@ == Seq::<Principal>::empty(),
            forall|q: Principal| !a.permits(q),
    {
        Authorization { signers: Vec::new() }
    }

    /// A call that `p` alone has authorized.
    pub fn of(p: Principal) -> (a: Authorization)
        ensures
            a@ == seq![p],
            forall|q: Principal| a.permits(q) <==> q == p,
    {
        let mut signers: Vec<Principal> = Vec::new();
        signers.push(p);
        let a = Authorization { signers };
        assert(a@[0] == p);
        a
    }

    /// Records that `p` too has authorized the call.
    pub fn add(&mut self, p: Principal)
        ensures
            final(self)@ == old(self)@.push(p),
            forall|q: Principal| final(self).permits(q) <==> old(self).permits(q) || q == p,
    {
        self.signers.push(p);
        proof {
            let before = old(self)@;
            let after = self@;
            assert(after[before.len() as int] == p);
            assert forall|q: Principal| after.contains(q) <==> before.contains(q) || q == p by {
                if before.contains(q) {
                    let i = choose|i: int| 0 <= i < before.len() && before[i] == q;
                    assert(after[i] == q);
                }
            }
        }
    }

    /// Tells whether `p` has authorized the call.
    pub fn authorized(&self, p: &Principal) -> (r: bool)
        ensures
            r == self.permits(*p),
    {
        let mut i: usize = 0;
        while i < self.signers.len()
            invariant
                i <= self.signers.len(),
                forall|j: int| 0 <= j < i ==> self.signers@[j] != *p,
            decreases self.signers.len() - i,
        {
            if self.signers[i] == *p {
                return true;
            }
            i += 1;
        }
        false
    }
}

} // verus!
