use std::collections::HashSet;

use rand::{thread_rng, Rng};

use shattuck::address::Address;
use shattuck::error::Error;
use shattuck::heap::Heap;
use shattuck::objects::{IntObject, ListObject as Node};

type Mem = Heap<IntObject, ()>;

fn int_at(mem: &Mem, addr: Address) -> i64 {
    mem.get_local(addr).unwrap().0
}

#[test]
fn memory_insert() {
    let mut mem: Mem = Heap::new(16);
    let addr = mem.insert_local(IntObject(42)).unwrap();
    assert_eq!(int_at(&mem, addr), 42);
    mem.replace_local(addr, IntObject(43)).unwrap();
    assert_eq!(int_at(&mem, addr), 43);
}

#[test]
fn make_shared() {
    let mut mem: Mem = Heap::new(16);
    let addr = mem.insert_local(IntObject(42)).unwrap();
    assert_eq!(int_at(&mem, addr), 42);
    mem.promote(addr).unwrap();
    assert_eq!(mem.read_shared(addr).unwrap().0, 42);
}

#[test]
fn simple_collect() {
    let mut mem: Mem = Heap::new(16);
    let _addr = mem.insert_local(IntObject(42)).unwrap();
    assert_eq!(mem.n_object(), 1);
    mem.collect();
    assert_eq!(mem.n_object(), 0);
}

fn push_holdee(mem: &mut Heap<Node, ()>, holder: Address, holdee: Address) {
    let Node(mut list) = mem.replace_local(holder, Node(Vec::new())).unwrap();
    list.push(holdee);
    mem.replace_local(holder, Node(list)).unwrap();
}

#[test]
fn keep_alive_after_collect() {
    let mut mem: Heap<Node, ()> = Heap::new(16);
    let holdee = mem.insert_local(Node(Vec::new())).unwrap();
    let holder = mem.insert_local(Node(Vec::new())).unwrap();
    push_holdee(&mut mem, holder, holdee);
    mem.set_entry(holder);
    mem.collect();
    assert_eq!(mem.n_object(), 2);
    mem.collect();
    assert_eq!(mem.n_object(), 2);
    mem.collect();
    assert_eq!(mem.n_object(), 2);
    mem.set_entry(holdee);
    mem.collect();
    assert_eq!(mem.n_object(), 1);
}

#[test]
fn shared_slot_seen_from_another_heap() {
    let mut mem: Mem = Heap::new(16);
    let addr = mem.insert_local(IntObject(42)).unwrap();
    let shared = mem.promote(addr).unwrap();
    let mut other: Mem = Heap::new(16);
    let there = other.insert_shared(shared).unwrap();
    assert_eq!(other.read_shared(there).unwrap().0, 42);
    other.write_shared(there, IntObject(43)).unwrap();
    assert_eq!(mem.read_shared(addr).unwrap().0, 43);
}

#[test]
fn random_hold() {
    let total = 4096;
    let mut mem: Heap<Node, ()> = Heap::new(total);
    let mut alive_set = HashSet::new();
    let mut addr_list = Vec::new();
    let entry = mem.insert_local(Node(Vec::new())).unwrap();
    mem.set_entry(entry);
    alive_set.insert(0);
    addr_list.push(entry);

    let mut rng = thread_rng();
    for i in 1..total {
        let addr = mem.insert_local(Node(Vec::new())).unwrap();
        addr_list.push(addr);
        let mut chance = 0.8;
        while rng.gen::<f64>() < chance {
            let holder = rng.gen_range(0, i) as usize;
            push_holdee(&mut mem, addr_list[holder], addr);
            if alive_set.contains(&holder) {
                alive_set.insert(i);
            }
            chance -= 0.2;
        }
    }
    assert_eq!(mem.n_object(), total);
    mem.collect();
    assert_eq!(mem.n_object(), alive_set.len());
}

#[test]
fn collect_without_entry_frees_everything() {
    let mut mem: Heap<Node, ()> = Heap::new(8);
    let a = mem.insert_local(Node(Vec::new())).unwrap();
    let b = mem.insert_local(Node(vec![a])).unwrap();
    let _c = mem.insert_local(Node(vec![a, b])).unwrap();
    assert_eq!(mem.n_object(), 3);
    mem.collect();
    assert_eq!(mem.n_object(), 0);
    assert_eq!(mem.get_local(a).err(), Some(Error::InvalidAddress));
}

#[test]
fn collect_keeps_reachable_dag_and_cycles() {
    let mut mem: Heap<Node, ()> = Heap::new(16);
    let root = mem.insert_local(Node(Vec::new())).unwrap();
    let x = mem.insert_local(Node(Vec::new())).unwrap();
    let y = mem.insert_local(Node(Vec::new())).unwrap();
    let z = mem.insert_local(Node(Vec::new())).unwrap();
    let lost = mem.insert_local(Node(Vec::new())).unwrap();
    push_holdee(&mut mem, root, x);
    push_holdee(&mut mem, x, y);
    push_holdee(&mut mem, y, x);
    push_holdee(&mut mem, lost, z);
    push_holdee(&mut mem, lost, root);
    mem.set_entry(root);
    mem.collect();
    assert_eq!(mem.n_object(), 3);
    assert!(mem.get_local(root).is_ok());
    assert!(mem.get_local(x).is_ok());
    assert!(mem.get_local(y).is_ok());
    assert_eq!(mem.get_local(z).err(), Some(Error::InvalidAddress));
    assert_eq!(mem.get_local(lost).err(), Some(Error::InvalidAddress));
    assert_eq!(mem.get_local(x).unwrap().0, vec![y]);
}

#[test]
fn out_of_memory_when_nothing_to_collect() {
    let mut mem: Mem = Heap::new(1);
    let a = mem.insert_local(IntObject(1)).unwrap();
    mem.set_entry(a);
    assert_eq!(mem.insert_local(IntObject(2)).err(), Some(Error::OutOfMemory));
    assert_eq!(mem.n_object(), 1);
    assert_eq!(int_at(&mem, a), 1);
}

#[test]
fn held_survivors_fill_the_heap() {
    let mut mem: Heap<Node, ()> = Heap::new(2);
    let root = mem.insert_local(Node(Vec::new())).unwrap();
    mem.set_entry(root);
    let h = mem.insert_local(Node(Vec::new())).unwrap();
    push_holdee(&mut mem, root, h);
    assert_eq!(mem.insert_local(Node(Vec::new())).err(), Some(Error::OutOfMemory));
    assert!(mem.get_local(h).is_ok());
    assert_eq!(mem.n_object(), 2);
}

#[test]
fn full_heap_collects_before_inserting() {
    let mut mem: Mem = Heap::new(2);
    let a = mem.insert_local(IntObject(1)).unwrap();
    mem.set_entry(a);
    let b = mem.insert_local(IntObject(2)).unwrap();
    let c = mem.insert_local(IntObject(3)).unwrap();
    assert_eq!(mem.n_object(), 2);
    assert_eq!(mem.get_local(b).err(), Some(Error::InvalidAddress));
    assert_eq!(int_at(&mem, c), 3);
    assert_ne!(b, c);
}

#[test]
fn zero_capacity_heap_refuses_everything() {
    let mut mem: Mem = Heap::new(0);
    assert_eq!(mem.insert_local(IntObject(1)).err(), Some(Error::OutOfMemory));
}

#[test]
fn addresses_are_distinct_and_stable() {
    let mut mem: Mem = Heap::new(4);
    let a = mem.insert_local(IntObject(1)).unwrap();
    let b = mem.insert_local(IntObject(2)).unwrap();
    assert_ne!(a, b);
    mem.set_entry(a);
    mem.collect();
    mem.collect();
    assert_eq!(int_at(&mem, a), 1);
    let c = mem.insert_local(IntObject(3)).unwrap();
    assert_ne!(c, a);
    assert_ne!(c, b);
    assert_eq!(mem.get_local(b).err(), Some(Error::InvalidAddress));
}

#[test]
fn promotion_is_idempotent() {
    let mut mem: Mem = Heap::new(4);
    let a = mem.insert_local(IntObject(7)).unwrap();
    let first = mem.promote(a).unwrap();
    let second = mem.promote(a).unwrap();
    assert_eq!(mem.n_object(), 1);
    assert_eq!(mem.read_shared(a).unwrap(), IntObject(7));
    second.try_write(IntObject(8)).unwrap();
    assert_eq!(first.try_read().unwrap(), IntObject(8));
    assert_eq!(mem.get_local(a).err(), Some(Error::ExpectLocal));
}

#[test]
fn promotion_refused_keeps_the_slot() {
    let mut mem: Heap<Node, ()> = Heap::new(4);
    let a = mem.insert_local(Node(Vec::new())).unwrap();
    let b = mem.insert_local(Node(vec![a])).unwrap();
    assert_eq!(mem.promote(b).err(), Some(Error::NotSharable));
    assert_eq!(mem.get_local(b).unwrap().0, vec![a]);
}

#[test]
fn access_errors() {
    let mut mem: Mem = Heap::new(4);
    let a = mem.insert_local(IntObject(1)).unwrap();
    let foreign = Address { id: 99 };
    assert_eq!(mem.get_local(foreign).err(), Some(Error::InvalidAddress));
    assert_eq!(mem.promote(foreign).err(), Some(Error::InvalidAddress));
    assert_eq!(mem.read_shared(a).err(), Some(Error::ExpectShared));
    assert_eq!(mem.write_shared(a, IntObject(2)).err(), Some(Error::ExpectShared));
    assert_eq!(mem.replace_local(foreign, IntObject(2)).err(), Some(Error::InvalidAddress));
    mem.promote(a).unwrap();
    assert_eq!(mem.replace_local(a, IntObject(2)).err(), Some(Error::ExpectLocal));
}

#[test]
fn holdees_of_slots() {
    let mut mem: Heap<Node, ()> = Heap::new(4);
    let a = mem.insert_local(Node(Vec::new())).unwrap();
    let b = mem.insert_local(Node(vec![a, a])).unwrap();
    assert_eq!(mem.holdees(b).unwrap(), vec![a, a]);
    assert_eq!(mem.holdees(a).unwrap(), Vec::<Address>::new());
    assert_eq!(mem.holdees(Address { id: 77 }).err(), Some(Error::InvalidAddress));
    let mut ints: Mem = Heap::new(2);
    let s = ints.insert_local(IntObject(1)).unwrap();
    ints.promote(s).unwrap();
    assert!(ints.holdees(s).unwrap().is_empty());
}
