//! A memo table of binomial coefficients for one unranking session.

use crate::bignat::BigNat;
use crate::binomial::binomial;
use crate::coefficient::binomial_coefficient;
use crate::error::UnrankError;
use std::collections::HashMap;
use vstd::prelude::*;

verus! {

broadcast use vstd::std_specs::hash::group_hash_axioms;

/// The slot of the table that belongs to the pair `(n, r)`: no two pairs share one.
spec fn slot_of(n: u64, r: u64) -> u128 {
    (n as u128 * 0x1_0000_0000_0000_0000 + r as u128) as u128
}

/// A table from pairs `(n, r)` to the coefficient "`n` choose `r`".
///
/// Entries are never removed or changed, and the table has no limit of size: it
/// is meant to live for one batch. A table is an ordinary value that each
/// session builds for itself and passes on. Reading takes a shared borrow and
/// writing an exclusive one, so that readers never meet a writer.
///
/// A table is coherent when every entry is the exact coefficient of its pair.
/// The functions that read coefficients from a table ask for a coherent one and
/// leave it coherent.
pub struct Cache {
    entries: HashMap<u128, BigNat>,
}

impl View for Cache {
    type V = Map<(u64, u64), nat>;

    closed spec fn view(&self) -> Map<(u64, u64), nat> {
        Map::new(
            |key: (u64, u64)| self.entries@.contains_key(slot_of(key.0, key.1)),
            |key: (u64, u64)| self.entries@[slot_of(key.0, key.1)]@,
        )
    }
}

impl Cache {
    /// Every entry is the exact coefficient of its pair.
    pub open spec fn coherent(&self) -> bool {
        forall|key: (u64, u64)| #[trigger]
            self@.contains_key(key) ==> self@[key] == binomial(key.0 as nat, key.1 as nat)
    }

    /// An empty table.
    pub fn new() -> (cache: Cache)
        ensures
            cache@ == Map::<(u64, u64), nat>::empty(),
            cache.coherent(),
    {
        let cache = Cache { entries: HashMap::new() };
        assert(cache@ =~= Map::<(u64, u64), nat>::empty());
        cache
    }

    /// Records `value` for the pair `key`, unless the pair has an entry already:
    /// an entry, once made, is never changed.
    pub fn insert(&mut self, key: (u64, u64), value: BigNat)
        ensures
            old(self)@.contains_key(key) ==> final(self)@ == old(self)@,
            !old(self)@.contains_key(key) ==> final(self)@ == old(self)@.insert(key, value@),
    {
        let slot = slot_for(key.0, key.1);
        if !self.entries.contains_key(&slot) {
            self.entries.insert(slot, value);
            assert(self@ =~= old(self)@.insert(key, value@));
        }
    }

    /// The number recorded for the pair `key`, if there is one.
    pub fn get(&self, key: (u64, u64)) -> (found: Option<BigNat>)
        ensures
            match found {
                Some(value) => self@.contains_key(key) && value@ == self@[key],
                None => !self@.contains_key(key),
            },
    {
        let slot = slot_for(key.0, key.1);
        match self.entries.get(&slot) {
            Some(value) => Some(value.duplicate()),
            None => None,
        }
    }

    /// The coefficient "`n` choose `r`", from the table where it is recorded,
    /// else computed and recorded before it is returned.
    ///
    /// Fails with `InvalidArguments` exactly when `r > n`, and then leaves the
    /// table as it was.
    pub fn coefficient(&mut self, n: u64, r: u64) -> (result: Result<BigNat, UnrankError>)
        requires
            old(self).coherent(),
        ensures
            final(self).coherent(),
            match result {
                Ok(c) => r <= n && c@ == binomial(n as nat, r as nat) && final(self)@ == old(
                    self,
                )@.insert((n, r), c@),
                Err(e) => r > n && e == UnrankError::InvalidArguments && final(self)@ == old(self)@,
            },
    {
        if r > n {
            return Err(UnrankError::InvalidArguments);
        }
        match self.get((n, r)) {
            Some(value) => {
                assert(self@ =~= self@.insert((n, r), value@));
                Ok(value)
            },
            None => {
                match binomial_coefficient(&n, &r) {
                    Ok(value) => {
                        self.insert((n, r), value.duplicate());
                        Ok(value)
                    },
                    Err(e) => Err(e),
                }
            },
        }
    }
}

/// The slot of the pair `(n, r)`, computed.
fn slot_for(n: u64, r: u64) -> (slot: u128)
    ensures
        slot == slot_of(n, r),
{
    n as u128 * 0x1_0000_0000_0000_0000u128 + r as u128
}

} // verus!
