//! Shared handles: values live in an arena, and a handle names one of them.

use vstd::prelude::*;

verus! {

/// A handle to a value that an `Arena` holds. Handles are compared by what
/// they name, never by the value behind them: two handles are equal exactly
/// when they name the same slot.
#[derive(Clone, Copy, Debug, PartialEq, Eq, Structural, Hash)]
pub struct Reference {
    slot: usize,
}

impl Reference {
    /// The number of the slot that the handle names.
    pub closed spec fn slot(self) -> nat {
        self.slot as nat
    }

    /// The number of the slot that the handle names.
    pub fn index(&self) -> (n: usize)
        ensures
            n == self.slot(),
    {
        self.slot
    }
}

/// Handles of different slots are different handles, and the other way round.
pub proof fn lemma_reference_identity(a: Reference, b: Reference)
    ensures
        (a == b) <==> (a.slot() == b.slot()),
{
}

/// A store that takes values over and hands out handles to them.
pub trait ReferenceTraits<T>: Sized {
    /// The values that the store holds, each under its handle.
    spec fn held(&self) -> Map<Reference, T>;

    /// Takes `inner` over. The handle that comes back was never handed out by
    /// this store before, and nothing else in the store changes.
    fn take_ownership(&mut self, inner: T) -> (r: Reference)
        ensures
            !old(self).held().contains_key(r),
            final(self).held() == old(self).held().insert(r, inner),
    ;
}

/// A store of values that grows by one slot for every value it takes over. A
/// slot is never used again, so a handle never comes to name another value.
pub struct Arena<T> {
    slots: Vec<Option<T>>,
}

impl<T> Arena<T> {
    /// The number of slots that were handed out.
    pub closed spec fn size(&self) -> nat {
        self.slots@.len()
    }

    /// The value in every slot that still holds one.
    pub closed spec fn values(&self) -> Map<Reference, T> {
        Map::new(
            |r: Reference| r.slot() < self.slots@.len() && self.slots@[r.slot() as int].is_some(),
            |r: Reference| self.slots@[r.slot() as int].unwrap(),
        )
    }

    /// An arena that holds nothing.
    pub fn new() -> (arena: Arena<T>)
        ensures
            arena.values() == Map::<Reference, T>::empty(),
            arena.size() == 0,
    {
        let arena = Arena { slots: Vec::new() };
        proof {
            assert(arena.values() =~= Map::<Reference, T>::empty());
        }
        arena
    }

    /// The value that `r` names, if the arena still holds it.
    pub fn get(&self, r: Reference) -> (value: Option<&T>)
        ensures
            value == (if self.values().contains_key(r) {
                Some(&self.values()[r])
            } else {
                None
            }),
    {
        if r.slot < self.slots.len() {
            self.slots[r.slot].as_ref()
        } else {
            None
        }
    }

    /// Puts `value` in the place of the value that `r` names and hands the
    /// old value out. Where the arena holds no value for `r`, nothing changes
    /// and `value` comes back.
    pub fn exchange(&mut self, r: Reference, value: T) -> (former: T)
        ensures
            old(self).values().contains_key(r) ==> former == old(self).values()[r]
                && final(self).values() == old(self).values().insert(r, value),
            !old(self).values().contains_key(r) ==> former == value && final(self).values()
                == old(self).values(),
            final(self).size() == old(self).size(),
    {
        if r.slot < self.slots.len() && self.slots[r.slot].is_some() {
            self.slots.push(Some(value));
            let former: Option<T> = self.slots.swap_remove(r.slot);
            proof {
                assert(self.values() =~= old(self).values().insert(r, value));
            }
            former.unwrap()
        } else {
            value
        }
    }

    /// Lets go of the value that `r` names and hands it out, if the arena
    /// still holds it. The handle names nothing afterwards.
    pub fn release(&mut self, r: Reference) -> (value: Option<T>)
        ensures
            value == (if old(self).values().contains_key(r) {
                Some(old(self).values()[r])
            } else {
                None
            }),
            final(self).values() == old(self).values().remove(r),
            final(self).size() == old(self).size(),
    {
        if r.slot < self.slots.len() {
            self.slots.push(None);
            let value: Option<T> = self.slots.swap_remove(r.slot);
            proof {
                assert(self.values() =~= old(self).values().remove(r));
            }
            value
        } else {
            proof {
                assert(self.values() =~= old(self).values().remove(r));
            }
            None
        }
    }
}

impl<T> ReferenceTraits<T> for Arena<T> {
    /// The value in every slot that still holds one: what `values` tells.
    open spec fn held(&self) -> Map<Reference, T> {
        self.values()
    }

    /// Takes `inner` over, in a new slot.
    fn take_ownership(&mut self, inner: T) -> (r: Reference) {
        let r = Reference { slot: self.slots.len() };
        self.slots.push(Some(inner));
        proof {
            assert(self.values() =~= old(self).values().insert(r, inner));
        }
        r
    }
}

} // verus!
