//! Utility atom factories built atop the core store operations.

pub mod atom_family;
pub mod select_atom;
