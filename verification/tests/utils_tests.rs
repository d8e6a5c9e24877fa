//! Selector atoms and parameterized atom families.

use jotai_rs::atom::Expr;
use jotai_rs::utils::atom_family::{atom_family, atom_family_with_equality};
use jotai_rs::utils::select_atom::{select_atom, select_atom_default};
use jotai_rs::{atom, Atom, Store, Value};

#[test]
fn test_select_atom_tracks_source() {
    let mut store = Store::new();
    let age = atom(Value::Int(30));
    let doubled = select_atom(age.as_atom(), Expr::arg().times(Expr::lit(Value::Int(2))));

    assert_eq!(store.get(&doubled).unwrap(), Value::Int(60));
    store.set(&age, Value::Int(31)).unwrap();
    assert_eq!(store.get(&doubled).unwrap(), Value::Int(62));
}

#[test]
fn test_select_atom_default_matches_select_atom() {
    let mut store = Store::new();
    let pair_lo = atom(Value::Int(7));
    let picked = select_atom_default(pair_lo.as_atom(), Expr::arg());
    assert_eq!(store.get(&picked).unwrap(), Value::Int(7));
}

#[test]
fn test_atom_family_caches_by_param() {
    let mut family = atom_family::<i64, Value>();
    let make = |p: &i64| -> Atom<Value> { atom(Value::Int(*p)).atom };

    let a1 = family.get(1, make);
    let a1_again = family.get(1, make);
    let a2 = family.get(2, make);

    assert_eq!(a1.id, a1_again.id);
    assert_ne!(a1.id, a2.id);
    assert_eq!(family.get_params(), vec![1, 2]);
}

#[test]
fn test_atom_family_remove_forgets_entry() {
    let mut family = atom_family::<i64, Value>();
    let make = |p: &i64| -> Atom<Value> { atom(Value::Int(*p)).atom };

    let first = family.get(5, make);
    family.remove(&5);
    let second = family.get(5, make);

    assert_ne!(first.id, second.id);
}

#[test]
fn test_atom_family_removal_policy() {
    let mut family = atom_family::<i64, Value>();
    let make = |p: &i64| -> Atom<Value> { atom(Value::Int(*p)).atom };

    family.get(1, make);
    family.get(2, make);
    family.get(3, make);

    family.set_should_remove(|_stamp, p: &i64| *p == 2);
    assert_eq!(family.get_params(), vec![1, 3]);
}

#[test]
fn test_atom_family_with_caller_equality() {
    let mut family = atom_family_with_equality::<i64, Value>();
    let make = |p: &i64| -> Atom<Value> { atom(Value::Int(*p)).atom };
    // parameters compare equal modulo 10
    let same = |x: &i64, y: &i64| -> bool { x % 10 == y % 10 };

    let a1 = family.get_with_equality(3, make, same);
    let a2 = family.get_with_equality(13, make, same);
    let b = family.get_with_equality(4, make, same);

    assert_eq!(a1.id, a2.id);
    assert_ne!(a1.id, b.id);
}
