use vstd::prelude::*;

use crate::address::Address;

verus! {

/// A call frame: the implicit receiver, an operand stack of addresses (its
/// top is the last element) and the frame of the caller, if any.
pub struct Frame {
    pub context: Address,
    pub stack: Vec<Address>,
    pub parent: Option<Address>,
}

/// What a frame keeps alive: its context, every operand, and its parent.
pub open spec fn frame_holdees(context: Address, stack: Seq<Address>, parent: Option<Address>) -> Seq<Address> {
    match parent {
        Some(p) => seq![context] + stack + seq![p],
        None => seq![context] + stack,
    }
}

impl Frame {
    pub open spec fn holdees_spec(&self) -> Seq<Address> {
        frame_holdees(self.context, self.stack@, self.parent)
    }

    /// A frame with an empty operand stack.
    pub fn new(context: Address, parent: Option<Address>) -> (r: Frame)
        ensures
            r.context == context,
            r.stack@ == Seq::<Address>::empty(),
            r.parent == parent,
    {
        Frame { context, stack: Vec::new(), parent }
    }

    /// Lists what the frame keeps alive.
    pub fn holdees(&self) -> (r: Vec<Address>)
        ensures
            r@ == self.holdees_spec(),
    {
        let mut r: Vec<Address> = Vec::new();
        r.push(self.context);
        let mut i: usize = 0;
        while i < self.stack.len()
            invariant
                i <= self.stack.len(),
                r@ == seq![self.context] + self.stack@.take(i as int),
            decreases self.stack.len() - i,
        {
            r.push(self.stack[i]);
            proof {
                assert(self.stack@.take(i as int + 1) =~= self.stack@.take(i as int).push(self.stack@[i as int]));
            }
            i = i + 1;
        }
        proof {
            assert(self.stack@.take(i as int) =~= self.stack@);
        }
        match self.parent {
            Some(p) => {
                r.push(p);
            },
            None => {},
        }
        proof {
            assert(r@ =~= self.holdees_spec());
        }
        r
    }
}

} // verus!
