use vstd::prelude::*;

verus! {

/// A handle naming one slot of a heap. Two addresses are equal exactly when
/// they name the same slot; a heap never hands out the same address twice.
#[derive(Debug, Clone, Copy, PartialEq, Eq, Hash, Structural)]
pub struct Address {
    pub id: u64,
}

/// A counter that hands out consecutive identifiers, starting at zero.
#[derive(Debug)]
pub struct Inc(pub usize);

impl Inc {
    /// A counter whose first identifier is zero.
    pub fn new() -> (r: Self)
        ensures
            r.0 == 0,
    {
        Inc(0)
    }

    /// Hands out the next identifier and advances the counter.
    pub fn create(&mut self) -> (id: usize)
        requires
            old(self).0 < usize::MAX,
        ensures
            id == old(self).0,
            final(self).0 == old(self).0 + 1,
    {
        let id = self.0;
        self.0 = self.0 + 1;
        id
    }

    /// The identifier that `create` would hand out next.
    pub fn next_id(&self) -> (r: usize)
        ensures
            r == self.0,
    {
        self.0
    }
}

} // verus!
