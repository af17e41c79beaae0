use vstd::prelude::*;

use crate::address::Address;
use crate::payload::Payload;

verus! {

/// An integer payload; it holds no address and may be shared.
#[derive(Debug, Clone, Copy, PartialEq, Eq, Structural)]
pub struct IntObject(pub i64);

impl Payload for IntObject {
    open spec fn holdees_spec(&self) -> Seq<Address> {
        Seq::empty()
    }

    fn holdees(&self) -> (r: Vec<Address>) {
        Vec::new()
    }

    fn to_sync(self) -> (r: Result<Self, Self>)
        ensures
            r == Ok::<Self, Self>(self),
    {
        Ok(self)
    }
}

/// A payload that keeps a list of addresses alive, in order.
#[derive(Debug, PartialEq, Eq)]
pub struct ListObject(pub Vec<Address>);

impl Payload for ListObject {
    open spec fn holdees_spec(&self) -> Seq<Address> {
        self.0@
    }

    fn holdees(&self) -> (r: Vec<Address>) {
        let mut r: Vec<Address> = Vec::new();
        let mut i: usize = 0;
        while i < self.0.len()
            invariant
                i <= self.0@.len(),
                r@ == self.0@.take(i as int),
            decreases self.0@.len() - i,
        {
            r.push(self.0[i]);
            proof {
                assert(self.0@.take(i as int + 1) =~= self.0@.take(i as int).push(self.0@[i as int]));
            }
            i = i + 1;
        }
        proof {
            assert(self.0@.take(i as int) =~= self.0@);
        }
        r
    }

    /// Its addresses belong to one heap: it stays local.
    fn to_sync(self) -> (r: Result<Self, Self>)
        ensures
            r == Err::<Self, Self>(self),
    {
        Err(self)
    }
}

/// Objects that map names to addresses.
pub trait PropObject {
    /// The address stored under `key`, if any.
    fn get_prop(&self, key: &str) -> Option<Address>;

    /// Stores `prop` under `key`, replacing what was there.
    fn set_prop(&mut self, key: &str, prop: Address);
}

/// A record of named properties, each an address of the same heap.
#[derive(Debug)]
pub struct DerivedObject {
    props: Vec<(String, Address)>,
}

/// The position of the property named `k` in `s`.
pub open spec fn prop_index(s: Seq<(String, Address)>, k: Seq<char>) -> int {
    choose|i: int| 0 <= i < s.len() && s[i].0@ == k
}

/// The properties of `s` by name.
pub open spec fn props_view(s: Seq<(String, Address)>) -> Map<Seq<char>, Address> {
    Map::new(
        |k: Seq<char>| exists|i: int| 0 <= i < s.len() && s[i].0@ == k,
        |k: Seq<char>| s[prop_index(s, k)].1,
    )
}

impl DerivedObject {
    /// The properties by name.
    pub closed spec fn view(&self) -> Map<Seq<char>, Address> {
        props_view(self.props@)
    }

    /// The properties, in the order in which their names were first set.
    pub closed spec fn values(&self) -> Seq<Address> {
        self.props@.map_values(|p: (String, Address)| p.1)
    }

    #[verifier::type_invariant]
    closed spec fn wf(&self) -> bool {
        forall|i: int, j: int| 0 <= i < j < self.props@.len() ==> self.props@[i].0@ != self.props@[j].0@
    }

    /// A record with no property.
    pub fn new() -> (r: Self)
        ensures
            r.view() == Map::<Seq<char>, Address>::empty(),
            r.values() == Seq::<Address>::empty(),
    {
        let r = DerivedObject { props: Vec::new() };
        proof {
            assert(r.view() =~= Map::<Seq<char>, Address>::empty());
            assert(r.values() =~= Seq::<Address>::empty());
        }
        r
    }

    fn find(&self, key: &String) -> (r: Option<usize>)
        ensures
            match r {
                Some(i) => i < self.props@.len() && self.props@[i as int].0@ == key@ && prop_index(self.props@, key@) == i,
                None => !self.view().contains_key(key@),
            },
    {
        proof {
            use_type_invariant(self);
        }
        let mut i: usize = 0;
        while i < self.props.len()
            invariant
                self.wf(),
                i <= self.props@.len(),
                forall|k: int| 0 <= k < i ==> self.props@[k].0@ != key@,
            decreases self.props@.len() - i,
        {
            if self.props[i].0 == *key {
                proof {
                    let j = prop_index(self.props@, key@);
                    if j != i {
                        if j < i {
                            assert(self.props@[j].0@ != self.props@[i as int].0@);
                        } else {
                            assert(self.props@[i as int].0@ != self.props@[j].0@);
                        }
                    }
                }
                return Some(i);
            }
            i = i + 1;
        }
        None
    }

    /// The address stored under `key`, if any.
    pub fn get_property(&self, key: &str) -> (r: Option<Address>)
        ensures
            r == (if self.view().contains_key(key@) {
                Some(self.view()[key@])
            } else {
                None
            }),
    {
        let k = key.to_owned();
        match self.find(&k) {
            Some(i) => Some(self.props[i].1),
            None => None,
        }
    }

    /// Stores `new_prop` under `key`, replacing what was there.
    pub fn set_property(&mut self, key: &str, new_prop: Address)
        ensures
            final(self).view() == old(self).view().insert(key@, new_prop),
    {
        proof {
            use_type_invariant(&*self);
        }
        let k = key.to_owned();
        let found = self.find(&k);
        let mut props: Vec<(String, Address)> = Vec::new();
        std::mem::swap(&mut props, &mut self.props);
        match found {
            Some(i) => {
                props.set(i, (k, new_prop));
                proof {
                    assert forall|a: int, b: int| 0 <= a < b < props@.len() implies props@[a].0@ != props@[b].0@ by {
                        assert(old(self).props@[a].0@ != old(self).props@[b].0@);
                    }
                    assert forall|q: Seq<char>| #[trigger] props_view(props@).contains_key(q) implies old(self).view().insert(key@, new_prop).contains_key(q) && props_view(props@)[q] == old(self).view().insert(key@, new_prop)[q] by {
                        let j = prop_index(props@, q);
                        if q != key@ {
                            assert(old(self).props@[j].0@ == q);
                            let j0 = prop_index(old(self).props@, q);
                            if j0 != j {
                                if j0 < j {
                                    assert(old(self).props@[j0].0@ != old(self).props@[j].0@);
                                } else {
                                    assert(old(self).props@[j].0@ != old(self).props@[j0].0@);
                                }
                            }
                        } else {
                            if j != i {
                                if j < i {
                                    assert(props@[j].0@ != props@[i as int].0@);
                                } else {
                                    assert(props@[i as int].0@ != props@[j].0@);
                                }
                            }
                        }
                    }
                    assert forall|q: Seq<char>| #[trigger] old(self).view().insert(key@, new_prop).contains_key(q) implies props_view(props@).contains_key(q) by {
                        if q != key@ {
                            let j0 = prop_index(old(self).props@, q);
                            assert(props@[j0].0@ == q);
                        } else {
                            assert(props@[i as int].0@ == q);
                        }
                    }
                    assert(props_view(props@) =~= old(self).view().insert(key@, new_prop));
                }
            },
            None => {
                props.push((k, new_prop));
                proof {
                    let n = old(self).props@.len();
                    assert forall|a: int, b: int| 0 <= a < b < props@.len() implies props@[a].0@ != props@[b].0@ by {
                        if b == n {
                            assert(old(self).props@[a].0@ != key@);
                        } else {
                            assert(old(self).props@[a].0@ != old(self).props@[b].0@);
                        }
                    }
                    assert forall|q: Seq<char>| #[trigger] props_view(props@).contains_key(q) implies old(self).view().insert(key@, new_prop).contains_key(q) && props_view(props@)[q] == old(self).view().insert(key@, new_prop)[q] by {
                        let j = prop_index(props@, q);
                        if q != key@ {
                            assert(j < n);
                            assert(old(self).props@[j].0@ == q);
                            let j0 = prop_index(old(self).props@, q);
                            if j0 != j {
                                if j0 < j {
                                    assert(old(self).props@[j0].0@ != old(self).props@[j].0@);
                                } else {
                                    assert(old(self).props@[j].0@ != old(self).props@[j0].0@);
                                }
                            }
                        } else {
                            if j != n {
                                assert(props@[j].0@ != props@[n as int].0@);
                            }
                        }
                    }
                    assert forall|q: Seq<char>| #[trigger] old(self).view().insert(key@, new_prop).contains_key(q) implies props_view(props@).contains_key(q) by {
                        if q != key@ {
                            let j0 = prop_index(old(self).props@, q);
                            assert(props@[j0].0@ == q);
                        } else {
                            assert(props@[n as int].0@ == q);
                        }
                    }
                    assert(props_view(props@) =~= old(self).view().insert(key@, new_prop));
                }
            },
        }
        self.props = props;
    }
}

impl Payload for DerivedObject {
    open spec fn holdees_spec(&self) -> Seq<Address> {
        self.values()
    }

    /// Every property.
    fn holdees(&self) -> (r: Vec<Address>) {
        let mut r: Vec<Address> = Vec::new();
        let mut i: usize = 0;
        while i < self.props.len()
            invariant
                i <= self.props@.len(),
                r@ == self.values().take(i as int),
            decreases self.props@.len() - i,
        {
            r.push(self.props[i].1);
            proof {
                assert(self.values().take(i as int + 1) =~= self.values().take(i as int).push(self.props@[i as int].1));
            }
            i = i + 1;
        }
        proof {
            assert(self.values().take(i as int) =~= self.values());
        }
        r
    }

    /// Its properties are addresses of one heap: it stays local.
    fn to_sync(self) -> (r: Result<Self, Self>) {
        Err(self)
    }
}

impl PropObject for DerivedObject {
    fn get_prop(&self, key: &str) -> Option<Address> {
        self.get_property(key)
    }

    fn set_prop(&mut self, key: &str, prop: Address) {
        self.set_property(key, prop)
    }
}

} // verus!
