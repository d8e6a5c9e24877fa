//! A reactive value store: nodes ("atoms") declare how their values are
//! read and written; a store lazily computes derived nodes, tracks the
//! dependencies each computation actually touched, and re-derives only
//! what a write made stale, versioning every node with a monotonic epoch.

pub mod atom;
pub mod error;
pub mod internals;
pub mod laws;
pub mod model;
pub mod store;
pub mod text;
pub mod types;
pub mod utils;
pub mod value;

pub use atom::{atom, atom_derived, atom_writable, atom_write_only};
pub use atom::{Atom, AtomId, EpochNumber, Expr, PrimitiveAtom, WritableAtom, WriteStep};
pub use error::AtomError;
pub use internals::TopologicalSorter;
pub use store::{Store, Unsubscribe};
pub use types::{Getter, Setter, SetStateAction};
pub use utils::atom_family::{atom_family, atom_family_with_equality};
pub use utils::select_atom::select_atom;
pub use value::Value;
