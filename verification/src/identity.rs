//! Counters that issue identifiers.

use vstd::prelude::*;
use crate::error::LedgerError;

verus! {

/// A counter that issues the identifiers 1, 2, 3, ... in turn. An identifier
/// is issued once and never again.
pub struct IdCounter {
    last: Option<u64>,
}

impl IdCounter {
    /// The counter as it is kept: nothing before it is first written, then
    /// the identifier issued last (0 while none has been issued).
    pub closed spec fn view(&self) -> Option<u64> {
        self.last
    }

    /// The identifier issued last, 0 if none has been issued.
    pub open spec fn issued(&self) -> u64 {
        match self@ {
            Some(n) => n,
            None => 0,
        }
    }

    /// A counter that was never written.
    pub fn new() -> (c: IdCounter)
        ensures
            c@ == None::<u64>,
    {
        IdCounter { last: None }
    }

    /// The counter as it was persisted.
    pub fn restore(last: Option<u64>) -> (c: IdCounter)
        ensures
            c@ == last,
    {
        IdCounter { last }
    }

    /// Writes the counter for the first time, with no identifier issued. A
    /// counter that was written before is left alone.
    pub fn start(&mut self) -> (r: Result<(), LedgerError>)
        ensures
            old(self)@ is None ==> r == Ok::<(), LedgerError>(()) && final(self)@ == Some(0u64),
            old(self)@ is Some ==> r == Err::<(), LedgerError>(LedgerError::AlreadyInitialized)
                && *final(self) == *old(self),
    {
        match self.last {
            Some(_) => Err(LedgerError::AlreadyInitialized),
            None => {
                self.last = Some(0);
                Ok(())
            },
        }
    }

    /// The identifier issued last, 0 if none has been issued.
    pub fn current(&self) -> (n: u64)
        ensures
            n == self.issued(),
    {
        match self.last {
            Some(n) => n,
            None => 0,
        }
    }

    /// Issues the next identifier: one more than the last. Fails only when
    /// the identifiers of 64 bits are used up.
    pub fn next_id(&mut self) -> (r: Result<u64, LedgerError>)
        ensures
            old(self).issued() < u64::MAX ==> r == Ok::<u64, LedgerError>(
                (old(self).issued() + 1) as u64,
            ) && final(self)@ == Some((old(self).issued() + 1) as u64),
            old(self).issued() == u64::MAX ==> r == Err::<u64, LedgerError>(LedgerError::Overflow)
                && *final(self) == *old(self),
    {
        let n = self.current();
        if n == u64::MAX {
            Err(LedgerError::Overflow)
        } else {
            self.last = Some(n + 1);
            Ok(n + 1)
        }
    }
}

} // verus!
