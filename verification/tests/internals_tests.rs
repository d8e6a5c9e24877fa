//! State cells, mount records and message rendering.

use jotai_rs::error::AtomError;
use jotai_rs::internals::{AtomState, Mounted};
use jotai_rs::TopologicalSorter;
use jotai_rs::text::decimal_string;
use jotai_rs::Value;

#[test]
fn test_state_starts_empty() {
    let state = AtomState::new();
    assert_eq!(state.epoch, 0);
    assert!(state.value.is_none());
    assert!(state.dependencies.is_empty());
}

#[test]
fn test_state_with_value_starts_at_epoch_zero() {
    let state = AtomState::with_value(Value::Int(42));
    assert_eq!(state.epoch, 0);
    assert_eq!(state.value, Some(Ok(Value::Int(42))));
}

#[test]
fn test_state_set_value_grows_epoch() {
    let mut state = AtomState::new();
    state.set_value(Value::Int(100));
    assert_eq!(state.epoch, 1);
    assert_eq!(state.value, Some(Ok(Value::Int(100))));
    state.set_value(Value::Int(101));
    assert_eq!(state.epoch, 2);
}

#[test]
fn test_state_set_error_grows_epoch() {
    let mut state = AtomState::new();
    state.set_error(AtomError::Uninitialized { atom_id: 9 });
    assert_eq!(state.epoch, 1);
    assert_eq!(state.value, Some(Err(AtomError::Uninitialized { atom_id: 9 })));
}

#[test]
fn test_state_dependencies_and_freshness() {
    let mut state = AtomState::with_value(Value::Int(1));
    state.add_dependency(4, 2);
    state.add_dependency(5, 7);

    assert!(state.is_fresh(&vec![(4, 2), (5, 7)]));
    assert!(!state.is_fresh(&vec![(4, 3), (5, 7)]));
    assert!(!state.is_fresh(&vec![(4, 2)]));

    // re-recording a dependency overwrites its epoch
    state.add_dependency(4, 9);
    assert_eq!(state.dependencies, vec![(4, 9), (5, 7)]);
    assert!(state.is_fresh(&vec![(4, 9), (5, 7)]));
    assert!(!state.is_fresh(&vec![(4, 2), (5, 7)]));

    state.clear_dependencies();
    assert!(state.is_fresh(&vec![]));

    state.invalidate();
    assert!(!state.is_fresh(&vec![]));
}

#[test]
fn test_mounted_listeners() {
    let mut mounted = Mounted::new();
    assert!(!mounted.has_listeners());

    mounted.add_listener(11);
    mounted.add_listener(12);
    assert!(mounted.has_listeners());
    assert_eq!(mounted.notify_listeners(), vec![11, 12]);

    assert!(!mounted.remove_listener(11));
    assert!(mounted.remove_listener(12));
    assert!(!mounted.has_listeners());
}

#[test]
fn test_mounted_edges() {
    let mut mounted = Mounted::new();
    mounted.add_dependency(1);
    mounted.add_dependency(1);
    mounted.add_dependent(2);
    mounted.add_dependent(3);
    mounted.add_dependent(2);
    assert_eq!(mounted.dependencies, vec![1]);
    assert_eq!(mounted.dependents, vec![2, 3]);

    mounted.remove_dependent(2);
    assert_eq!(mounted.dependents, vec![3]);
}

#[test]
fn test_mounted_cleanup_token() {
    let mut mounted = Mounted::new();
    mounted.cleanup = Some(5);
    assert_eq!(mounted.cleanup(), Some(5));
}

#[test]
fn test_decimal_rendering() {
    assert_eq!(decimal_string(0), "0");
    assert_eq!(decimal_string(7), "7");
    assert_eq!(decimal_string(12345), "12345");
    assert_eq!(decimal_string(u64::MAX), "18446744073709551615");
}

#[test]
fn test_error_messages() {
    let e = AtomError::write_error(3, "denied");
    assert_eq!(e.to_string(), "Error writing atom 3: denied");

    let e = AtomError::async_error(4, "timed out");
    assert_eq!(e.to_string(), "Async operation failed for atom 4: timed out");

    let e = AtomError::NotWritable { atom_id: 6 };
    assert_eq!(e.to_string(), "Atom 6 is read-only and cannot be written to");

    let e = AtomError::Cancelled { atom_id: 8 };
    assert_eq!(e.to_string(), "Async operation cancelled for atom 8");

    let e = AtomError::StoreError { message: "corrupt".to_string() };
    assert_eq!(e.to_string(), "Store operation failed: corrupt");

    let e = AtomError::Generic("misc".to_string());
    assert_eq!(e.to_string(), "Error: misc");
}

#[test]
fn test_topological_sort_orders_dependencies_first() {
    let sorter = TopologicalSorter {
        atoms: vec![4, 2, 3],
        dependencies: vec![(4, vec![2, 3]), (3, vec![2]), (2, vec![])],
    };
    let order = sorter.sort().unwrap();
    assert_eq!(order, vec![2, 3, 4]);
}

#[test]
fn test_topological_sort_skips_outside_dependencies() {
    let sorter = TopologicalSorter {
        atoms: vec![1],
        dependencies: vec![(1, vec![99])],
    };
    assert_eq!(sorter.sort().unwrap(), vec![1]);
}

#[test]
fn test_topological_sort_reports_cycles() {
    let sorter = TopologicalSorter {
        atoms: vec![1, 2],
        dependencies: vec![(1, vec![2]), (2, vec![1])],
    };
    match sorter.sort() {
        Err(AtomError::CircularDependency { .. }) => {},
        other => panic!("expected a circular dependency error, got {:?}", other),
    }
}
