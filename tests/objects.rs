use shattuck::address::{Address, Inc};
use shattuck::heap::Heap;
use shattuck::objects::{DerivedObject, IntObject, PropObject};
use shattuck::payload::Payload;

#[test]
fn inc_counts_from_zero() {
    let mut inc = Inc::new();
    assert_eq!(inc.next_id(), 0);
    assert_eq!(inc.create(), 0);
    assert_eq!(inc.create(), 1);
    assert_eq!(inc.next_id(), 2);
}

#[test]
fn derived_object_properties() {
    let mut obj = DerivedObject::new();
    assert_eq!(obj.get_property("x"), None);
    obj.set_property("x", Address { id: 1 });
    obj.set_property("y", Address { id: 2 });
    assert_eq!(obj.get_property("x"), Some(Address { id: 1 }));
    assert_eq!(obj.get_property("y"), Some(Address { id: 2 }));
    obj.set_property("x", Address { id: 3 });
    assert_eq!(obj.get_property("x"), Some(Address { id: 3 }));
    assert_eq!(obj.holdees(), vec![Address { id: 3 }, Address { id: 2 }]);
    assert_eq!(obj.get_prop("y"), Some(Address { id: 2 }));
    obj.set_prop("z", Address { id: 4 });
    assert_eq!(obj.get_property("z"), Some(Address { id: 4 }));
}

#[test]
fn derived_object_keeps_properties_alive() {
    let mut mem: Heap<DerivedObject, ()> = Heap::new(8);
    let value = mem.insert_local(DerivedObject::new()).unwrap();
    let _garbage = mem.insert_local(DerivedObject::new()).unwrap();
    let mut record = DerivedObject::new();
    record.set_property("value", value);
    let root = mem.insert_local(record).unwrap();
    mem.set_entry(root);
    mem.collect();
    assert_eq!(mem.n_object(), 2);
    assert_eq!(mem.get_local(root).unwrap().get_property("value"), Some(value));
    assert!(mem.get_local(value).is_ok());
}

#[test]
fn int_object_is_sharable_and_holds_nothing() {
    assert!(IntObject(5).holdees().is_empty());
    assert_eq!(IntObject(5).to_sync().ok(), Some(IntObject(5)));
    assert!(DerivedObject::new().to_sync().is_err());
}
