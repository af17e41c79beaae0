use shattuck::address::Address;
use shattuck::error::Error;
use shattuck::heap::{Cell, Heap};
use shattuck::objects::{IntObject, ListObject};
use shattuck::runtime::{Function, Runtime};
use shattuck::thread::{argument_indices, deliver_results, finish_thread, prepare_thread, run_worker, setup_worker, Join, Portable};
use shattuck::shared::Shared;

#[derive(Clone, Copy, Debug)]
enum Fun {
    Increment,
    Triple,
    Echo,
    Fail,
    Thread,
}

type Rt = Runtime<IntObject, Fun>;

fn value_of(rt: &Rt, a: Address) -> Result<i64, Error> {
    match rt.get_local(a) {
        Ok(v) => Ok(v.0),
        Err(Error::ExpectLocal) => Ok(rt.read_shared(a)?.0),
        Err(e) => Err(e),
    }
}

fn store(rt: &mut Rt, a: Address, v: i64) -> Result<(), Error> {
    match rt.replace_local(a, IntObject(v)) {
        Ok(_) => Ok(()),
        Err(Error::ExpectLocal) => rt.write_shared(a, IntObject(v)),
        Err(e) => Err(e),
    }
}

impl Function<IntObject> for Fun {
    fn run(&self, rt: &mut Rt) -> Result<(), Error> {
        match self {
            Fun::Increment => {
                let this = rt.context();
                let x = rt.get(1)?;
                let sum = value_of(rt, this)? + value_of(rt, x)?;
                store(rt, this, sum)
            },
            Fun::Triple => {
                for v in [10, 20, 30] {
                    let a = rt.insert_local(IntObject(v))?;
                    rt.push(a);
                }
                rt.push_parent(3)?;
                rt.push_parent(2)?;
                rt.push_parent(1)
            },
            Fun::Echo => rt.push_parent(1),
            Fun::Fail => {
                let a = rt.insert_local(IntObject(0))?;
                rt.push(a);
                Err(Error::TypeMismatch)
            },
            Fun::Thread => {
                let work = prepare_thread(rt)?;
                let results = run_worker(work, 1024)?;
                deliver_results(rt, results)
            },
        }
    }
}

fn boot(cap: usize, v: i64) -> Rt {
    let mut mem: Heap<IntObject, Fun> = Heap::new(cap);
    let context = mem.insert_local(IntObject(v)).unwrap();
    Runtime::boot(mem, context).unwrap()
}

#[test]
fn self_increment_via_method() {
    let mut rt = boot(16, 42);
    let x = rt.insert_local(IntObject(1)).unwrap();
    let method = rt.insert_method(Fun::Increment, rt.context()).unwrap();
    rt.push(x);
    assert_eq!(rt.call(method, &[1]).unwrap(), 0);
    assert_eq!(value_of(&rt, rt.context()).unwrap(), 43);
    assert_eq!(rt.len(), 1);
}

#[test]
fn thread_round_trip() {
    let mut rt = boot(16, 42);
    let x = rt.insert_local(IntObject(1)).unwrap();
    let method = rt.insert_method(Fun::Increment, rt.context()).unwrap();
    rt.push(x);
    rt.call(method, &[1]).unwrap();
    let thread = rt.insert_method(Fun::Thread, method).unwrap();
    assert_eq!(rt.call(thread, &[1]).unwrap(), 0);
    assert_eq!(rt.get_local(rt.context()).err(), Some(Error::ExpectLocal));
    assert_eq!(value_of(&rt, rt.context()).unwrap(), 44);
    let mut join = Join::new(7);
    assert_eq!(join.take(), Ok(7));
    assert_eq!(join.take(), Err(Error::JoinConsumed));
}

#[test]
fn worker_results_keep_their_order() {
    let mut rt = boot(16, 0);
    let echo = rt.insert_method(Fun::Echo, rt.context()).unwrap();
    let thread = rt.insert_method(Fun::Thread, echo).unwrap();
    let five = rt.insert_local(IntObject(5)).unwrap();
    rt.push(five);
    assert_eq!(rt.call(thread, &[1]).unwrap(), 1);
    let back = rt.get(1).unwrap();
    assert_ne!(back, five);
    assert_eq!(rt.read_shared(back).unwrap(), IntObject(5));
}

#[test]
fn push_parent_orderliness() {
    let mut rt = boot(16, 0);
    let method = rt.insert_method(Fun::Triple, rt.context()).unwrap();
    assert_eq!(rt.call(method, &[]).unwrap(), 3);
    assert_eq!(rt.len(), 3);
    assert_eq!(value_of(&rt, rt.get(3).unwrap()).unwrap(), 10);
    assert_eq!(value_of(&rt, rt.get(2).unwrap()).unwrap(), 20);
    assert_eq!(value_of(&rt, rt.get(1).unwrap()).unwrap(), 30);
}

#[test]
fn call_arguments_keep_caller_order() {
    let mut rt = boot(16, 0);
    let a = rt.insert_local(IntObject(1)).unwrap();
    let b = rt.insert_local(IntObject(2)).unwrap();
    rt.push(a);
    rt.push(b);
    let echo = rt.insert_method(Fun::Echo, rt.context()).unwrap();
    // the callee's top is the first named operand, here `a`
    assert_eq!(rt.call(echo, &[2, 1]).unwrap(), 1);
    assert_eq!(rt.get(1).unwrap(), a);
    assert_eq!(rt.len(), 3);
}

#[test]
fn call_errors() {
    let mut rt = boot(16, 0);
    let x = rt.insert_local(IntObject(1)).unwrap();
    assert_eq!(rt.call(x, &[]), Err(Error::NotCallable));
    assert_eq!(rt.call(Address { id: 1000 }, &[]), Err(Error::InvalidAddress));
    let method = rt.insert_method(Fun::Echo, rt.context()).unwrap();
    assert_eq!(rt.call(method, &[1]), Err(Error::ExhaustedFrame));
    assert_eq!(rt.call(method, &[]), Err(Error::ExhaustedFrame));
    let fail = rt.insert_method(Fun::Fail, rt.context()).unwrap();
    rt.push(x);
    assert_eq!(rt.call(fail, &[1]), Err(Error::TypeMismatch));
    assert_eq!(rt.len(), 1);
    assert_eq!(rt.get(1).unwrap(), x);
}

#[test]
fn stack_operations() {
    let mut rt = boot(16, 0);
    assert_eq!(rt.pop(), Err(Error::ExhaustedFrame));
    assert_eq!(rt.get(1), Err(Error::ExhaustedFrame));
    let a = rt.insert_local(IntObject(1)).unwrap();
    let b = rt.insert_local(IntObject(2)).unwrap();
    rt.push(a);
    rt.push(b);
    assert_eq!(rt.len(), 2);
    assert_eq!(rt.get(0), Err(Error::ExhaustedFrame));
    assert_eq!(rt.get(1), Ok(b));
    assert_eq!(rt.get(2), Ok(a));
    assert_eq!(rt.get(3), Err(Error::ExhaustedFrame));
    assert_eq!(rt.push_parent(1), Err(Error::NoParentFrame));
    rt.pop().unwrap();
    assert_eq!(rt.get(1), Ok(a));
    assert_eq!(rt.len(), 1);
}

#[test]
fn frames_survive_collection() {
    let mut rt = boot(4, 9);
    let a = rt.insert_local(IntObject(1)).unwrap();
    rt.push(a);
    let _lost = rt.insert_local(IntObject(2)).unwrap();
    rt.collect();
    assert_eq!(rt.memory().n_object(), 3);
    assert_eq!(value_of(&rt, rt.context()).unwrap(), 9);
    assert_eq!(value_of(&rt, rt.get(1).unwrap()).unwrap(), 1);
}

#[test]
fn promote_through_runtime() {
    let mut rt = boot(8, 3);
    let ctx = rt.context();
    let h = rt.promote(ctx).unwrap();
    assert_eq!(h.try_read().unwrap(), IntObject(3));
    let again = rt.promote(ctx).unwrap();
    again.try_write(IntObject(4)).unwrap();
    assert_eq!(value_of(&rt, ctx).unwrap(), 4);
}

#[test]
fn worker_sees_caller_order() {
    let mut rt = boot(16, 0);
    let echo = rt.insert_method(Fun::Echo, rt.context()).unwrap();
    let thread = rt.insert_method(Fun::Thread, echo).unwrap();
    let five = rt.insert_local(IntObject(5)).unwrap();
    let seven = rt.insert_local(IntObject(7)).unwrap();
    rt.push(five);
    rt.push(seven);
    assert_eq!(rt.call(thread, &[1, 2]).unwrap(), 1);
    let back = rt.get(1).unwrap();
    assert_eq!(rt.read_shared(back).unwrap(), IntObject(7));
    assert_eq!(rt.read_shared(five).unwrap(), IntObject(5));
}

#[test]
fn prepare_call_builds_the_callee_frame() {
    let mut rt = boot(16, 1);
    let a = rt.insert_local(IntObject(10)).unwrap();
    let b = rt.insert_local(IntObject(20)).unwrap();
    rt.push(a);
    rt.push(b);
    let ctx = rt.context();
    let method = rt.insert_method(Fun::Echo, ctx).unwrap();
    assert!(matches!(rt.prepare_call(method, &[2, 1]), Ok(Fun::Echo)));
    assert_eq!(rt.context(), ctx);
    assert_eq!(rt.len(), 2);
    assert_eq!(rt.get(1), Ok(a));
    assert_eq!(rt.get(2), Ok(b));
    rt.push_parent(2).unwrap();
    assert_eq!(rt.push_parent(9), Err(Error::ExhaustedFrame));
}

#[test]
fn setup_worker_needs_room() {
    let mut rt = boot(16, 3);
    let method = rt.insert_method(Fun::Echo, rt.context()).unwrap();
    let (function, context) = rt.promote_method(method).unwrap();
    let arg = Shared::new(IntObject(4));
    let work = Portable { function, context: context.share(), args: vec![arg.share(), arg.share()] };
    assert_eq!(setup_worker(work, 3).err(), Some(Error::OutOfMemory));
    let work = Portable { function, context, args: vec![arg.share(), Shared::new(IntObject(6))] };
    let (worker, m) = setup_worker(work, 4).unwrap();
    assert_eq!(worker.context(), m);
    assert_eq!(worker.len(), 2);
    assert_eq!(worker.read_shared(worker.get(2).unwrap()).unwrap(), IntObject(4));
    assert_eq!(worker.read_shared(worker.get(1).unwrap()).unwrap(), IntObject(6));
    assert_eq!(worker.read_shared(worker.context()).err(), Some(Error::TypeMismatch));
}

#[test]
fn worker_heap_too_small() {
    let mut rt = boot(16, 3);
    let method = rt.insert_method(Fun::Echo, rt.context()).unwrap();
    let (function, context) = rt.promote_method(method).unwrap();
    let work = Portable { function, context, args: vec![Shared::new(IntObject(1))] };
    assert_eq!(run_worker(work, 2).err(), Some(Error::OutOfMemory));
}

#[test]
fn finish_and_deliver_need_a_parent() {
    let mut rt = boot(16, 3);
    assert_eq!(finish_thread(&mut rt, IntObject(0), Fun::Echo), Err(Error::NoParentFrame));
    assert_eq!(deliver_results(&mut rt, vec![Shared::new(IntObject(1))]), Err(Error::NoParentFrame));
    assert_eq!(deliver_results(&mut rt, Vec::new()), Ok(()));
}

#[test]
fn prepare_thread_refuses_a_frame_bound_to_no_method() {
    let mut rt = boot(16, 3);
    assert!(matches!(prepare_thread(&mut rt), Err(Error::NotCallable)));
}

#[test]
fn read_and_write_local_and_shared() {
    let mut rt = boot(16, 1);
    let a = rt.insert_local(IntObject(2)).unwrap();
    assert_eq!(rt.read(a), Ok(IntObject(2)));
    rt.write(a, IntObject(3)).unwrap();
    assert_eq!(rt.read(a), Ok(IntObject(3)));
    rt.promote(a).unwrap();
    rt.write(a, IntObject(4)).unwrap();
    assert_eq!(rt.read(a), Ok(IntObject(4)));
    let m = rt.insert_method(Fun::Echo, a).unwrap();
    assert_eq!(rt.read(m), Err(Error::TypeMismatch));
    assert_eq!(rt.write(m, IntObject(0)), Err(Error::TypeMismatch));
    assert_eq!(rt.read(Address { id: 500 }), Err(Error::InvalidAddress));
}

#[test]
fn prepare_thread_refuses_an_unsharable_operand() {
    let mut mem: Heap<ListObject, ()> = Heap::new(16);
    let ctx = mem.insert_shared(Shared::new(ListObject(Vec::new()))).unwrap();
    let method = mem.insert_cell(Cell::Method((), ctx)).unwrap();
    let mut rt: Runtime<ListObject, ()> = Runtime::boot(mem, method).unwrap();
    let shared_arg = rt.insert_shared(Shared::new(ListObject(Vec::new()))).unwrap();
    let local_arg = rt.insert_local(ListObject(Vec::new())).unwrap();
    rt.push(shared_arg);
    rt.push(local_arg);
    assert!(matches!(prepare_thread(&mut rt), Err(Error::NotSharable)));
    assert!(rt.get_local(local_arg).is_ok());
}

#[test]
fn argument_indices_count_from_one() {
    assert_eq!(argument_indices(3), vec![1, 2, 3]);
    assert!(argument_indices(0).is_empty());
}
