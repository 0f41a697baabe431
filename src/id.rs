//! Identifiers for packed items, handed out by an explicit generator.

use vstd::prelude::*;

verus! {

/// An identifier for an item given to the packer. Only an `IdGenerator`
/// produces them, so callers never pick identifiers themselves.
#[derive(Clone, Copy, Debug, PartialEq, Eq, Hash, Structural)]
pub struct Id(u64);

impl Id {
    /// The number behind the identifier; never zero.
    pub closed spec fn value(&self) -> u64 {
        self.0
    }

    /// The number behind the identifier.
    pub fn as_u64(&self) -> (r: u64)
        ensures
            r == self.value(),
    {
        self.0
    }

    /// Takes the next identifier from `ids`.
    pub fn new(ids: &mut IdGenerator) -> (r: Id)
        requires
            old(ids).next_value() < u64::MAX,
        ensures
            r.value() == old(ids).next_value(),
            r.value() >= 1,
            final(ids).next_value() == old(ids).next_value() + 1,
    {
        ids.next_id()
    }
}

/// The identifier whose number is `v`.
pub closed spec fn id_with_value(v: u64) -> Id {
    Id(v)
}

/// Identifiers are their numbers: one number, one identifier.
pub proof fn lemma_id_value(a: Id, v: u64)
    ensures
        id_with_value(v).value() == v,
        a.value() == v <==> a == id_with_value(v),
{
}

/// Hands out identifiers in increasing order, starting at one, so no two
/// identifiers taken from one generator are equal.
#[derive(Debug)]
pub struct IdGenerator {
    next: u64,
}

impl IdGenerator {
    #[verifier::type_invariant]
    spec fn starts_at_one(&self) -> bool {
        self.next >= 1
    }

    /// The value the next identifier will carry.
    pub closed spec fn next_value(&self) -> u64 {
        self.next
    }

    pub fn new() -> (r: IdGenerator)
        ensures
            r.next_value() == 1,
    {
        IdGenerator { next: 1 }
    }

    pub fn next_id(&mut self) -> (r: Id)
        requires
            old(self).next_value() < u64::MAX,
        ensures
            r.value() == old(self).next_value(),
            r.value() >= 1,
            final(self).next_value() == old(self).next_value() + 1,
    {
        proof {
            use_type_invariant(&*self);
        }
        let id = Id(self.next);
        self.next = self.next + 1;
        id
    }
}

} // verus!
