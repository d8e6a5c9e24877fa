//! Atom creation, labels, ids, errors and action types.

use jotai_rs::atom;
use jotai_rs::error::AtomError;
use jotai_rs::types::SetStateAction;

#[derive(Clone, Debug, PartialEq)]
struct User {
    name: String,
    age: u32,
}

#[test]
fn test_atom_id_generation() {
    // Test that each atom gets a unique, incrementing ID
    let a1 = atom(1);
    let a2 = atom(2);
    let a3 = atom(3);

    // IDs should be unique and sequential
    assert!(a1.id() < a2.id());
    assert!(a2.id() < a3.id());

    // IDs should be exactly 1 apart (sequential)
    assert_eq!(a1.id() + 1, a2.id());
    assert_eq!(a2.id() + 1, a3.id());
}

#[test]
fn test_atom_id_uniqueness() {
    // Even atoms with the same value should have different IDs
    let a1 = atom(42);
    let a2 = atom(42);
    let a3 = atom(42);

    assert_ne!(a1.id(), a2.id());
    assert_ne!(a2.id(), a3.id());
    assert_ne!(a1.id(), a3.id());
}

#[test]
fn test_different_types_share_id_counter() {
    // IDs should be global across all atom types
    let int_atom = atom(1);
    let string_atom = atom("hello".to_string());
    let bool_atom = atom(true);

    // All should have different IDs from the same counter
    assert!(int_atom.id() < string_atom.id());
    assert!(string_atom.id() < bool_atom.id());
}

#[test]
fn test_atom_without_label() {
    // Atoms without labels should have None
    let count = atom(0);
    assert_eq!(count.as_atom().debug_label(), None);
}

#[test]
fn test_atom_with_label() {
    // Test that with_label sets the debug label correctly
    let count = atom(0).with_label("count");
    assert_eq!(count.as_atom().debug_label(), Some("count"));

    let name = atom("John".to_string()).with_label("firstName");
    assert_eq!(name.as_atom().debug_label(), Some("firstName"));
}

#[test]
fn test_atom_label_from_string() {
    // Test that with_label accepts different string types
    let a1 = atom(0).with_label("static_str");
    let a2 = atom(0).with_label(String::from("owned_string"));
    let a3 = atom(0).with_label("borrowed".to_string());

    assert_eq!(a1.as_atom().debug_label(), Some("static_str"));
    assert_eq!(a2.as_atom().debug_label(), Some("owned_string"));
    assert_eq!(a3.as_atom().debug_label(), Some("borrowed"));
}

#[test]
fn test_atom_to_string_without_label() {
    // Atoms without labels should format as "atom{id}"
    let unnamed = atom(42);
    let s = unnamed.as_atom().to_string();

    assert!(s.starts_with("atom"));
    assert!(!s.contains(':'));

    // Should be able to parse the ID from the string
    let id_str = s.strip_prefix("atom").unwrap();
    let parsed_id: usize = id_str.parse().unwrap();
    assert_eq!(parsed_id, unnamed.id());
}

#[test]
fn test_atom_to_string_with_label() {
    // Atoms with labels should format as "atom{id}:{label}"
    let named = atom(42).with_label("answer");
    let s = named.as_atom().to_string();

    assert!(s.starts_with("atom"));
    assert!(s.contains(':'));
    assert!(s.contains("answer"));

    // Format should be exactly "atom{id}:answer"
    let expected = format!("atom{}:answer", named.id());
    assert_eq!(s, expected);
}

#[test]
fn test_atom_debug_trait() {
    // Test that Debug trait is implemented
    let count = atom(5).with_label("counter");
    let debug_str = format!("{:?}", count);

    assert!(debug_str.contains("WritableAtom"));
    assert!(debug_str.contains("id"));
    assert!(debug_str.contains("debug_label"));
}

#[test]
fn test_primitive_atom_creation() {
    // Test creating primitive atoms with different types
    let _int_atom = atom(42);
    let _float_atom = atom(3.14);
    let _bool_atom = atom(true);
    let _string_atom = atom(String::from("hello"));
    let _vec_atom = atom(vec![1, 2, 3]);

    // If we got here without panicking, primitive atoms work
}

#[test]
fn test_atom_clone() {
    // Atoms should be cloneable
    let original = atom(42).with_label("original");
    let cloned = original.clone();

    // Both should have the same ID (they're the same atom)
    assert_eq!(original.id(), cloned.id());
    assert_eq!(original.as_atom().debug_label(), cloned.as_atom().debug_label());
}

#[test]
fn test_atom_as_atom() {
    // WritableAtom should provide access to underlying Atom
    let writable = atom(42).with_label("test");
    let atom_ref = writable.as_atom();

    assert_eq!(atom_ref.id(), writable.id());
    assert_eq!(atom_ref.debug_label(), Some("test"));
}

#[test]
fn test_atom_with_complex_types() {
    // Test that atoms work with complex types
    let user_atom = atom(User { name: "Alice".to_string(), age: 30 }).with_label("currentUser");

    assert_eq!(user_atom.as_atom().debug_label(), Some("currentUser"));
}

#[test]
fn test_atom_with_option() {
    // Test atoms with Option types
    let some_atom = atom(Some(42));
    let none_atom = atom::<Option<i32>>(None);

    assert_ne!(some_atom.id(), none_atom.id());
}

#[test]
fn test_atom_with_result() {
    // Test atoms with Result types
    let ok_atom = atom::<Result<i32, AtomError>>(Ok(42));
    let err_atom = atom::<Result<i32, AtomError>>(Err(AtomError::Generic(
        "test error".to_string(),
    )));

    assert_ne!(ok_atom.id(), err_atom.id());
}

#[test]
fn test_builder_pattern_chaining() {
    // Test that with_label returns self for chaining
    let atom1 = atom(42).with_label("answer");

    // Should be able to use immediately
    assert_eq!(atom1.as_atom().debug_label(), Some("answer"));
}

#[test]
fn test_atom_with_empty_string_label() {
    // Empty labels should work (though not recommended)
    let atom1 = atom(42).with_label("");
    assert_eq!(atom1.as_atom().debug_label(), Some(""));

    let s = atom1.as_atom().to_string();
    assert!(s.contains(':')); // Should still format with colon
}

#[test]
fn test_atom_with_unicode_label() {
    // Unicode labels should work
    let atom1 = atom(42).with_label("数量");
    assert_eq!(atom1.as_atom().debug_label(), Some("数量"));

    let s = atom1.as_atom().to_string();
    assert!(s.contains("数量"));
}

#[test]
fn test_atom_with_long_label() {
    // Long labels should work
    let long_label = "a".repeat(1000);
    let atom1 = atom(42).with_label(&long_label);
    assert_eq!(atom1.as_atom().debug_label(), Some(long_label.as_str()));
}

#[test]
fn test_on_mount_none_by_default() {
    // Atoms should have no onMount callback by default
    let atom1 = atom(42);

    let result = atom1.on_mount();
    assert!(result.is_none());
}

#[test]
fn test_error_creation() {
    let err = AtomError::Uninitialized { atom_id: 1 };
    assert!(err.to_string().contains("Atom 1"));
    assert!(err.to_string().contains("not been initialized"));
}

#[test]
fn test_type_mismatch() {
    let err = AtomError::type_mismatch::<i32>(2, "String");
    assert!(err.to_string().contains("i32"));
    assert!(err.to_string().contains("String"));
}

#[test]
fn test_circular_dependency() {
    let err = AtomError::CircularDependency { atom_id: 3, dependency_chain: vec![1, 2, 3] };
    assert!(err.to_string().contains("Circular dependency"));
}

#[test]
fn test_read_error() {
    let err = AtomError::read_error(4, "Something went wrong");
    assert!(err.to_string().contains("Error reading atom 4"));
    assert!(err.to_string().contains("Something went wrong"));
}

#[test]
fn test_set_state_action_value() {
    let action: SetStateAction<i32, fn(i32) -> i32> = SetStateAction::Value(42);
    match action {
        SetStateAction::Value(v) => assert_eq!(v, 42),
        SetStateAction::Updater(_) => panic!("Expected Value"),
    }
}

#[test]
fn test_set_state_action_updater() {
    let action: SetStateAction<i32, fn(i32) -> i32> = SetStateAction::Updater(|x| x + 1);
    match action {
        SetStateAction::Value(_) => panic!("Expected Updater"),
        SetStateAction::Updater(f) => assert_eq!(f(41), 42),
    }
}
