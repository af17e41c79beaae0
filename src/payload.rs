use vstd::prelude::*;

use crate::address::Address;

verus! {

/// What every object kept in a heap declares about itself.
pub trait Payload: Sized {
    /// The addresses that this payload keeps alive through its fields.
    /// The default, none, is right only for a payload that holds no
    /// address; a payload that holds addresses overrides it, or else its
    /// `holdees` does not meet the contract below. (The default lets types
    /// written outside `verus!`, which cannot state a spec function,
    /// implement the trait; the contracts of the heap hold for them only as
    /// far as their `holdees` agrees.)
    open spec fn holdees_spec(&self) -> Seq<Address> {
        Seq::empty()
    }

    /// Lists the addresses that this payload keeps alive.
    fn holdees(&self) -> (r: Vec<Address>)
        ensures
            r@ == self.holdees_spec(),
    ;

    /// The thread-safe form of this payload, or the payload itself, unchanged,
    /// when it cannot be shared.
    fn to_sync(self) -> (r: Result<Self, Self>)
        ensures
            r matches Err(back) ==> back == self,
    ;
}

} // verus!
