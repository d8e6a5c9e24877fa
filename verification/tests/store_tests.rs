//! Store engine behavior: reads, writes, caching, invalidation,
//! subscriptions and error propagation.

use jotai_rs::atom::{Atom, Expr, MountHook, ReadBehavior, WriteBehavior, write_step};
use jotai_rs::error::AtomError;
use jotai_rs::types::{Getter, Setter};
use jotai_rs::{atom, atom_derived, atom_writable, atom_write_only, Store, Value};

#[test]
fn test_get_returns_initial_value() {
    let mut store = Store::new();
    let count = atom(Value::Int(42));
    assert_eq!(store.get(count.as_atom()).unwrap(), Value::Int(42));
}

#[test]
fn test_set_then_get_returns_last_value() {
    let mut store = Store::new();
    let count = atom(Value::Int(0));
    store.set(&count, Value::Int(5)).unwrap();
    assert_eq!(store.get(count.as_atom()).unwrap(), Value::Int(5));
    store.set(&count, Value::Int(7)).unwrap();
    store.set(&count, Value::Int(9)).unwrap();
    assert_eq!(store.get(count.as_atom()).unwrap(), Value::Int(9));
}

#[test]
fn test_get_is_idempotent_and_keeps_epoch() {
    let mut store = Store::new();
    let count = atom(Value::Int(3));
    let doubled = atom_derived(Expr::read(count.as_atom()).times(Expr::lit(Value::Int(2))));

    let v1 = store.get(&doubled).unwrap();
    let e1 = store.epoch_of(doubled.id);
    let v2 = store.get(&doubled).unwrap();
    let e2 = store.epoch_of(doubled.id);

    assert_eq!(v1, Value::Int(6));
    assert_eq!(v1, v2);
    assert_eq!(e1, e2);
}

#[test]
fn test_derived_atom_recomputes_after_set() {
    let mut store = Store::new();
    let count = atom(Value::Int(3));
    let doubled = atom_derived(Expr::read(count.as_atom()).times(Expr::lit(Value::Int(2))));

    assert_eq!(store.get(&doubled).unwrap(), Value::Int(6));
    store.set(&count, Value::Int(5)).unwrap();
    assert_eq!(store.get(&doubled).unwrap(), Value::Int(10));
    store.set(&count, Value::Int(0)).unwrap();
    assert_eq!(store.get(&doubled).unwrap(), Value::Int(0));
}

#[test]
fn test_diamond_dependency() {
    let mut store = Store::new();
    let base = atom(Value::Int(10));
    let p1 = atom_derived(Expr::read(base.as_atom()).plus(Expr::lit(Value::Int(1))));
    let p2 = atom_derived(Expr::read(base.as_atom()).plus(Expr::lit(Value::Int(2))));
    let sum = atom_derived(Expr::read(&p1).plus(Expr::read(&p2)));

    assert_eq!(store.get(&sum).unwrap(), Value::Int(23));
    let (e1, e2, es) = (store.epoch_of(p1.id), store.epoch_of(p2.id), store.epoch_of(sum.id));

    store.set(&base, Value::Int(5)).unwrap();
    assert_eq!(store.get(&sum).unwrap(), Value::Int(13));

    // each node recomputed exactly once for that write
    assert_eq!(store.epoch_of(p1.id), e1 + 1);
    assert_eq!(store.epoch_of(p2.id), e2 + 1);
    assert_eq!(store.epoch_of(sum.id), es + 1);
}

#[test]
fn test_chained_derivation() {
    let mut store = Store::new();
    let x = atom(Value::Int(5));
    let f = atom_derived(Expr::read(x.as_atom()).plus(Expr::lit(Value::Int(1))));
    let g = atom_derived(Expr::read(&f).times(Expr::lit(Value::Int(2))));

    assert_eq!(store.get(&g).unwrap(), Value::Int(12));
}

#[test]
fn test_chained_invalidation_cascade() {
    let mut store = Store::new();
    let base = atom(Value::Int(1));
    let d1 = atom_derived(Expr::read(base.as_atom()).plus(Expr::lit(Value::Int(1))));
    let d2 = atom_derived(Expr::read(&d1).plus(Expr::lit(Value::Int(1))));
    let d3 = atom_derived(Expr::read(&d2).plus(Expr::lit(Value::Int(1))));

    assert_eq!(store.get(&d3).unwrap(), Value::Int(4));
    store.set(&base, Value::Int(10)).unwrap();
    assert_eq!(store.get(&d1).unwrap(), Value::Int(11));
    assert_eq!(store.get(&d2).unwrap(), Value::Int(12));
    assert_eq!(store.get(&d3).unwrap(), Value::Int(13));
}

#[test]
fn test_conditional_dependency() {
    let mut store = Store::new();
    let cond = atom(Value::Bool(true));
    let a = atom(Value::Int(10));
    let b = atom(Value::Int(20));
    let sel = atom_derived(Expr::read(cond.as_atom()).cond(
        Expr::read(a.as_atom()),
        Expr::read(b.as_atom()),
    ));

    assert_eq!(store.get(&sel).unwrap(), Value::Int(10));
    store.set(&cond, Value::Bool(false)).unwrap();
    assert_eq!(store.get(&sel).unwrap(), Value::Int(20));

    // `a` is no longer a tracked dependency: changing it neither changes
    // the selection nor forces a recompute
    let e = store.epoch_of(sel.id);
    store.set(&a, Value::Int(999)).unwrap();
    assert_eq!(store.get(&sel).unwrap(), Value::Int(20));
    assert_eq!(store.epoch_of(sel.id), e);
}

#[test]
fn test_unaffected_atoms_stay_cached() {
    let mut store = Store::new();
    let a = atom(Value::Int(1));
    let b = atom(Value::Int(2));
    let a10 = atom_derived(Expr::read(a.as_atom()).plus(Expr::lit(Value::Int(10))));
    let b10 = atom_derived(Expr::read(b.as_atom()).plus(Expr::lit(Value::Int(10))));

    assert_eq!(store.get(&a10).unwrap(), Value::Int(11));
    assert_eq!(store.get(&b10).unwrap(), Value::Int(12));
    let eb = store.epoch_of(b10.id);

    store.set(&a, Value::Int(5)).unwrap();
    assert_eq!(store.get(&a10).unwrap(), Value::Int(15));
    assert_eq!(store.get(&b10).unwrap(), Value::Int(12));
    assert_eq!(store.epoch_of(b10.id), eb);
}

#[test]
fn test_self_read_is_circular_dependency() {
    let mut store = Store::new();
    let looped = atom_derived(Expr::read_self());
    match store.get(&looped) {
        Err(AtomError::CircularDependency { atom_id, dependency_chain }) => {
            assert_eq!(atom_id, looped.id);
            assert_eq!(dependency_chain, vec![looped.id, looped.id]);
        },
        other => panic!("expected a circular dependency error, got {:?}", other),
    }
}

#[test]
fn test_transitive_self_read_is_circular() {
    let mut store = Store::new();
    let inner = atom_derived(Expr::read_self().plus(Expr::lit(Value::Int(1))));
    let outer = atom_derived(Expr::read(&inner).times(Expr::lit(Value::Int(2))));
    match store.get(&outer) {
        Err(AtomError::CircularDependency { atom_id, dependency_chain }) => {
            assert_eq!(atom_id, inner.id);
            assert_eq!(dependency_chain, vec![outer.id, inner.id, inner.id]);
        },
        other => panic!("expected a circular dependency error, got {:?}", other),
    }
}

#[test]
fn test_read_error_propagates_like_a_value() {
    let mut store = Store::new();
    let failing = atom_derived(Expr::fail("boom"));
    let dependent = atom_derived(Expr::read(&failing).plus(Expr::lit(Value::Int(1))));

    match store.get(&dependent) {
        Err(AtomError::ReadError { atom_id, message }) => {
            assert_eq!(atom_id, failing.id);
            assert_eq!(message, "boom");
        },
        other => panic!("expected a read error, got {:?}", other),
    }
    // the error is captured in the failing node's cell as its outcome
    match store.get(&failing) {
        Err(AtomError::ReadError { atom_id, .. }) => assert_eq!(atom_id, failing.id),
        other => panic!("expected a read error, got {:?}", other),
    }
}

#[test]
fn test_integer_overflow_is_a_read_error() {
    let mut store = Store::new();
    let big = atom_derived(Expr::lit(Value::Int(i64::MAX)).plus(Expr::lit(Value::Int(1))));
    match store.get(&big) {
        Err(AtomError::ReadError { message, .. }) => assert_eq!(message, "integer overflow"),
        other => panic!("expected an overflow error, got {:?}", other),
    }
}

#[test]
fn test_type_mismatch_in_arithmetic() {
    let mut store = Store::new();
    let flag = atom(Value::Bool(true));
    let bad = atom_derived(Expr::read(flag.as_atom()).plus(Expr::lit(Value::Int(1))));
    match store.get(&bad) {
        Err(AtomError::TypeMismatch { expected, actual, .. }) => {
            assert_eq!(expected, "i64");
            assert_eq!(actual, "bool");
        },
        other => panic!("expected a type mismatch, got {:?}", other),
    }
}

#[test]
fn test_type_mismatch_in_condition() {
    let mut store = Store::new();
    let n = atom(Value::Int(1));
    let bad = atom_derived(Expr::read(n.as_atom()).cond(
        Expr::lit(Value::Int(1)),
        Expr::lit(Value::Int(2)),
    ));
    match store.get(&bad) {
        Err(AtomError::TypeMismatch { expected, .. }) => assert_eq!(expected, "bool"),
        other => panic!("expected a type mismatch, got {:?}", other),
    }
}

#[test]
fn test_uninitialized_primitive() {
    let mut store = Store::new();
    // a primitive node without an initial value: its state is requested
    // before any computation and no default is available
    let template = atom(Value::Int(0));
    let bare = Atom {
        id: template.atom.id,
        debug_label: None,
        initial: None::<Value>,
        read: ReadBehavior::Primitive,
    };
    match store.get(&bare) {
        Err(AtomError::Uninitialized { atom_id }) => assert_eq!(atom_id, bare.id),
        other => panic!("expected an uninitialized error, got {:?}", other),
    }
    // the epoch stays at zero: nothing was computed
    assert_eq!(store.epoch_of(bare.id), 0);
}

#[test]
fn test_write_only_atom_runs_steps() {
    let mut store = Store::new();
    let a = atom(Value::Int(0));
    let b = atom(Value::Int(0));
    let both = atom_write_only(
        Value::Int(0),
        vec![write_step(&a, Expr::arg()), write_step(&b, Expr::arg().times(Expr::lit(Value::Int(2))))],
    );

    store.set(&both, Value::Int(7)).unwrap();
    assert_eq!(store.get(a.as_atom()).unwrap(), Value::Int(7));
    assert_eq!(store.get(b.as_atom()).unwrap(), Value::Int(14));
}

#[test]
fn test_writable_derived_atom() {
    let mut store = Store::new();
    let a = atom(Value::Int(1));
    let b = atom(Value::Int(2));
    let total = atom_writable(
        Expr::read(a.as_atom()).plus(Expr::read(b.as_atom())),
        vec![write_step(&a, Expr::arg()), write_step(&b, Expr::arg())],
    );

    assert_eq!(store.get(total.as_atom()).unwrap(), Value::Int(3));
    store.set(&total, Value::Int(5)).unwrap();
    assert_eq!(store.get(total.as_atom()).unwrap(), Value::Int(10));
}

#[test]
fn test_failing_write_step_reports_write_error() {
    let mut store = Store::new();
    let a = atom(Value::Int(1));
    let sink = atom_write_only(Value::Int(0), vec![write_step(&a, Expr::fail("nope"))]);

    match store.set(&sink, Value::Int(5)) {
        Err(AtomError::WriteError { atom_id, message }) => {
            assert_eq!(atom_id, sink.atom.id);
            assert!(message.contains("nope"));
        },
        other => panic!("expected a write error, got {:?}", other),
    }
    // the failing step did not change `a`
    assert_eq!(store.get(a.as_atom()).unwrap(), Value::Int(1));
}

#[test]
fn test_partial_write_is_not_rolled_back() {
    let mut store = Store::new();
    let a = atom(Value::Int(1));
    let b = atom(Value::Int(2));
    let sink = atom_write_only(
        Value::Int(0),
        vec![write_step(&a, Expr::arg()), write_step(&b, Expr::fail("late failure"))],
    );

    assert!(store.set(&sink, Value::Int(9)).is_err());
    // the first step's mutation persists: writes are best-effort
    assert_eq!(store.get(a.as_atom()).unwrap(), Value::Int(9));
    assert_eq!(store.get(b.as_atom()).unwrap(), Value::Int(2));
}

#[test]
fn test_setter_rejects_non_writable() {
    let mut store = Store::new();
    let derived = atom_derived(Expr::lit(Value::Int(1)));
    match Setter::set(&mut store, &derived, Value::Int(5)) {
        Err(AtomError::NotWritable { atom_id }) => assert_eq!(atom_id, derived.id),
        other => panic!("expected not-writable, got {:?}", other),
    }
}

#[test]
fn test_setter_writes_registered_atom() {
    let mut store = Store::new();
    let count = atom(Value::Int(0));
    // a direct write registers the behavior; the Setter capability can
    // then address the node through its read side
    store.set(&count, Value::Int(1)).unwrap();
    Setter::set(&mut store, count.as_atom(), Value::Int(8)).unwrap();
    assert_eq!(Getter::get(&mut store, count.as_atom()).unwrap(), Value::Int(8));
}

#[test]
fn test_subscription_notifies_on_change() {
    let mut store = Store::new();
    let count = atom(Value::Int(0));
    let handle = store.sub(count.as_atom());

    store.set(&count, Value::Int(1)).unwrap();
    assert_eq!(store.take_notifications(), vec![handle.listener]);

    // every applied write marks the node changed, so an identical value
    // notifies again
    store.set(&count, Value::Int(1)).unwrap();
    assert_eq!(store.take_notifications(), vec![handle.listener]);
}

#[test]
fn test_subscription_notifies_derived_dependents() {
    let mut store = Store::new();
    let base = atom(Value::Int(3));
    let doubled = atom_derived(Expr::read(base.as_atom()).times(Expr::lit(Value::Int(2))));
    let handle = store.sub(&doubled);

    store.set(&base, Value::Int(4)).unwrap();
    assert_eq!(store.take_notifications(), vec![handle.listener]);
    assert_eq!(store.get(&doubled).unwrap(), Value::Int(8));
}

#[test]
fn test_unsubscribe_is_idempotent() {
    let mut store = Store::new();
    let count = atom(Value::Int(0));
    let handle = store.sub(count.as_atom());

    store.unsub(&handle);
    store.unsub(&handle);  // the same handle again: effect only once, no error

    store.set(&count, Value::Int(1)).unwrap();
    assert_eq!(store.take_notifications(), Vec::<u64>::new());
}

#[test]
fn test_mount_hook_events() {
    let mut store = Store::new();
    let mut counter = atom(Value::Int(0));
    counter.on_mount = Some(MountHook { token: 77 });

    let handle = store.sub_writable(&counter);
    assert_eq!(store.take_mount_events(), vec![(77u64, true)]);

    store.unsub(&handle);
    assert_eq!(store.take_mount_events(), vec![(77u64, false)]);
}

#[test]
fn test_unrelated_write_does_not_notify() {
    let mut store = Store::new();
    let watched = atom(Value::Int(0));
    let other = atom(Value::Int(0));
    let _handle = store.sub(watched.as_atom());

    store.set(&other, Value::Int(5)).unwrap();
    assert_eq!(store.take_notifications(), Vec::<u64>::new());
}

#[test]
fn test_string_values() {
    let mut store = Store::new();
    let name = atom(Value::Str("John".to_string()));
    assert_eq!(store.get(name.as_atom()).unwrap(), Value::Str("John".to_string()));
    store.set(&name, Value::Str("Jane".to_string())).unwrap();
    assert_eq!(store.get(name.as_atom()).unwrap(), Value::Str("Jane".to_string()));
}

#[test]
fn test_stores_are_independent() {
    let count = atom(Value::Int(0));
    let mut store1 = Store::new();
    let mut store2 = Store::new();

    store1.set(&count, Value::Int(10)).unwrap();
    store2.set(&count, Value::Int(20)).unwrap();

    assert_eq!(store1.get(count.as_atom()).unwrap(), Value::Int(10));
    assert_eq!(store2.get(count.as_atom()).unwrap(), Value::Int(20));
}

#[test]
fn test_write_behavior_can_be_direct_or_program() {
    let count = atom(Value::Int(0));
    assert!(matches!(count.write, WriteBehavior::Direct));
    let a = atom(Value::Int(0));
    let w = atom_write_only(Value::Int(0), vec![write_step(&a, Expr::arg())]);
    assert!(matches!(w.write, WriteBehavior::Program(_)));
}

#[test]
fn test_conditional_dependency_rewires_subscription() {
    let mut store = Store::new();
    let cond = atom(Value::Bool(true));
    let a = atom(Value::Int(10));
    let b = atom(Value::Int(20));
    let sel = atom_derived(Expr::read(cond.as_atom()).cond(
        Expr::read(a.as_atom()),
        Expr::read(b.as_atom()),
    ));
    let handle = store.sub(&sel);

    store.set(&cond, Value::Bool(false)).unwrap();
    assert_eq!(store.take_notifications(), vec![handle.listener]);
    assert_eq!(store.get(&sel).unwrap(), Value::Int(20));

    // the recompute rewired the subscription: `b` is watched now
    store.set(&b, Value::Int(99)).unwrap();
    assert_eq!(store.take_notifications(), vec![handle.listener]);
    assert_eq!(store.get(&sel).unwrap(), Value::Int(99));

    // ...and `a` no longer is: writing it invalidates and notifies nothing
    store.set(&a, Value::Int(123)).unwrap();
    assert_eq!(store.take_notifications(), Vec::<u64>::new());
    assert_eq!(store.get(&sel).unwrap(), Value::Int(99));
}
