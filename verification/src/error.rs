//! Error kinds of the store engine.
//!
//! A failure inside a node's read behavior is captured into that node's
//! state cell and then propagates through the graph like a value; a
//! failure inside a write behavior aborts the write call and is returned
//! to the caller.

use vstd::prelude::*;
use vstd::string::StringExecFns;

use crate::text::{decimal_string, spec_decimal};

verus! {

/// An error raised by a store operation.
#[derive(Debug, PartialEq)]
pub enum AtomError {
    /// A node's state was requested before any computation produced it.
    Uninitialized { atom_id: usize },
    /// A node's behavior combined values of incompatible shapes.
    TypeMismatch { atom_id: usize, expected: &'static str, actual: String },
    /// A node's read behavior transitively read the node itself.
    /// The chain holds the node ids on the read path that closed the cycle.
    CircularDependency { atom_id: usize, dependency_chain: Vec<usize> },
    /// A node's read behavior failed; the message is the failure's text.
    ReadError { atom_id: usize, message: String },
    /// A node's write behavior failed; the message is the failure's text.
    WriteError { atom_id: usize, message: String },
    /// The node has no write behavior, so it cannot be set.
    NotWritable { atom_id: usize },
    /// An asynchronous operation tied to the node failed.
    AsyncError { atom_id: usize, message: String },
    /// An asynchronous operation tied to the node was cancelled.
    Cancelled { atom_id: usize },
    /// A store-level operation failed.
    StoreError { message: String },
    /// Any other error, wrapped as text.
    Generic(String),
}

/// The mathematical shape of an [`AtomError`].
pub enum ErrorView {
    Uninitialized { atom_id: int },
    TypeMismatch { atom_id: int, expected: Seq<char>, actual: Seq<char> },
    CircularDependency { atom_id: int, dependency_chain: Seq<int> },
    ReadError { atom_id: int, message: Seq<char> },
    WriteError { atom_id: int, message: Seq<char> },
    NotWritable { atom_id: int },
    AsyncError { atom_id: int, message: Seq<char> },
    Cancelled { atom_id: int },
    StoreError { message: Seq<char> },
    Generic(Seq<char>),
}

impl View for AtomError {
    type V = ErrorView;

    open spec fn view(&self) -> ErrorView {
        match self {
            AtomError::Uninitialized { atom_id } => ErrorView::Uninitialized {
                atom_id: *atom_id as int,
            },
            AtomError::TypeMismatch { atom_id, expected, actual } => ErrorView::TypeMismatch {
                atom_id: *atom_id as int,
                expected: expected@,
                actual: actual@,
            },
            AtomError::CircularDependency { atom_id, dependency_chain } => ErrorView::CircularDependency {
                atom_id: *atom_id as int,
                dependency_chain: dependency_chain@.map_values(|x: usize| x as int),
            },
            AtomError::ReadError { atom_id, message } => ErrorView::ReadError {
                atom_id: *atom_id as int,
                message: message@,
            },
            AtomError::WriteError { atom_id, message } => ErrorView::WriteError {
                atom_id: *atom_id as int,
                message: message@,
            },
            AtomError::NotWritable { atom_id } => ErrorView::NotWritable { atom_id: *atom_id as int },
            AtomError::AsyncError { atom_id, message } => ErrorView::AsyncError {
                atom_id: *atom_id as int,
                message: message@,
            },
            AtomError::Cancelled { atom_id } => ErrorView::Cancelled { atom_id: *atom_id as int },
            AtomError::StoreError { message } => ErrorView::StoreError { message: message@ },
            AtomError::Generic(message) => ErrorView::Generic(message@),
        }
    }
}

impl Clone for AtomError {
    /// Clones the error; the copy has the same view.
    fn clone(&self) -> (r: Self)
        ensures
            r@ == self@,
    {
        match self {
            AtomError::Uninitialized { atom_id } => AtomError::Uninitialized { atom_id: *atom_id },
            AtomError::TypeMismatch { atom_id, expected, actual } => AtomError::TypeMismatch {
                atom_id: *atom_id,
                expected: *expected,
                actual: actual.clone(),
            },
            AtomError::CircularDependency { atom_id, dependency_chain } => {
                let mut chain: Vec<usize> = Vec::new();
                let mut i: usize = 0;
                while i < dependency_chain.len()
                    invariant
                        i <= dependency_chain.len(),
                        chain@ == dependency_chain@.take(i as int),
                    decreases dependency_chain.len() - i,
                {
                    chain.push(dependency_chain[i]);
                    i = i + 1;
                }
                proof {
                    assert(chain@ =~= dependency_chain@);
                    assert(chain@.map_values(|x: usize| x as int) =~= dependency_chain@.map_values(
                        |x: usize| x as int,
                    ));
                }
                AtomError::CircularDependency { atom_id: *atom_id, dependency_chain: chain }
            },
            AtomError::ReadError { atom_id, message } => AtomError::ReadError {
                atom_id: *atom_id,
                message: message.clone(),
            },
            AtomError::WriteError { atom_id, message } => AtomError::WriteError {
                atom_id: *atom_id,
                message: message.clone(),
            },
            AtomError::NotWritable { atom_id } => AtomError::NotWritable { atom_id: *atom_id },
            AtomError::AsyncError { atom_id, message } => AtomError::AsyncError {
                atom_id: *atom_id,
                message: message.clone(),
            },
            AtomError::Cancelled { atom_id } => AtomError::Cancelled { atom_id: *atom_id },
            AtomError::StoreError { message } => AtomError::StoreError {
                message: message.clone(),
            },
            AtomError::Generic(message) => AtomError::Generic(message.clone()),
        }
    }
}

/// The message text of an error, as [`AtomError::to_string`] renders it.
pub open spec fn spec_message(e: ErrorView) -> Seq<char> {
    match e {
        ErrorView::Uninitialized { atom_id } => "Atom "@ + spec_decimal(atom_id as nat)
            + " has not been initialized"@,
        ErrorView::TypeMismatch { atom_id, expected, actual } => "Type mismatch for atom "@
            + spec_decimal(atom_id as nat) + ": expected "@ + expected + ", got "@ + actual,
        ErrorView::CircularDependency { atom_id, .. } => "Circular dependency detected involving atom "@
            + spec_decimal(atom_id as nat),
        ErrorView::ReadError { atom_id, message } => "Error reading atom "@
            + spec_decimal(atom_id as nat) + ": "@ + message,
        ErrorView::WriteError { atom_id, message } => "Error writing atom "@
            + spec_decimal(atom_id as nat) + ": "@ + message,
        ErrorView::NotWritable { atom_id } => "Atom "@ + spec_decimal(atom_id as nat)
            + " is read-only and cannot be written to"@,
        ErrorView::AsyncError { atom_id, message } => "Async operation failed for atom "@
            + spec_decimal(atom_id as nat) + ": "@ + message,
        ErrorView::Cancelled { atom_id } => "Async operation cancelled for atom "@
            + spec_decimal(atom_id as nat),
        ErrorView::StoreError { message } => "Store operation failed: "@ + message,
        ErrorView::Generic(message) => "Error: "@ + message,
    }
}

/// A type that can name its own shape for diagnostics.
pub trait TypeLabel {
    /// The text [`TypeLabel::type_label`] must return.
    spec fn spec_type_label() -> Seq<char>;

    /// The name of the type, as it appears in mismatch messages.
    fn type_label() -> (r: &'static str)
        ensures
            r@ == Self::spec_type_label(),
    ;
}

impl TypeLabel for i32 {
    open spec fn spec_type_label() -> Seq<char> {
        "i32"@
    }

    fn type_label() -> (r: &'static str) {
        "i32"
    }
}

impl TypeLabel for i64 {
    open spec fn spec_type_label() -> Seq<char> {
        "i64"@
    }

    fn type_label() -> (r: &'static str) {
        "i64"
    }
}

impl TypeLabel for bool {
    open spec fn spec_type_label() -> Seq<char> {
        "bool"@
    }

    fn type_label() -> (r: &'static str) {
        "bool"
    }
}

impl TypeLabel for String {
    open spec fn spec_type_label() -> Seq<char> {
        "String"@
    }

    fn type_label() -> (r: &'static str) {
        "String"
    }
}

impl TypeLabel for crate::value::Value {
    open spec fn spec_type_label() -> Seq<char> {
        "Value"@
    }

    fn type_label() -> (r: &'static str) {
        "Value"
    }
}

impl AtomError {
    /// The error rendered as text.
    pub fn to_string(&self) -> (r: String)
        ensures
            r@ == spec_message(self@),
    {
        match self {
            AtomError::Uninitialized { atom_id } => "Atom "
                .to_owned()
                .concat(decimal_string(*atom_id as u64).as_str())
                .concat(" has not been initialized"),
            AtomError::TypeMismatch { atom_id, expected, actual } => "Type mismatch for atom "
                .to_owned()
                .concat(decimal_string(*atom_id as u64).as_str())
                .concat(": expected ")
                .concat(expected)
                .concat(", got ")
                .concat(actual.as_str()),
            AtomError::CircularDependency { atom_id, .. } => "Circular dependency detected involving atom "
                .to_owned()
                .concat(decimal_string(*atom_id as u64).as_str()),
            AtomError::ReadError { atom_id, message } => "Error reading atom "
                .to_owned()
                .concat(decimal_string(*atom_id as u64).as_str())
                .concat(": ")
                .concat(message.as_str()),
            AtomError::WriteError { atom_id, message } => "Error writing atom "
                .to_owned()
                .concat(decimal_string(*atom_id as u64).as_str())
                .concat(": ")
                .concat(message.as_str()),
            AtomError::NotWritable { atom_id } => "Atom "
                .to_owned()
                .concat(decimal_string(*atom_id as u64).as_str())
                .concat(" is read-only and cannot be written to"),
            AtomError::AsyncError { atom_id, message } => "Async operation failed for atom "
                .to_owned()
                .concat(decimal_string(*atom_id as u64).as_str())
                .concat(": ")
                .concat(message.as_str()),
            AtomError::Cancelled { atom_id } => "Async operation cancelled for atom "
                .to_owned()
                .concat(decimal_string(*atom_id as u64).as_str()),
            AtomError::StoreError { message } => "Store operation failed: "
                .to_owned()
                .concat(message.as_str()),
            AtomError::Generic(message) => "Error: ".to_owned().concat(message.as_str()),
        }
    }

    /// A [`AtomError::TypeMismatch`] for node `atom_id`, expecting the shape
    /// of `T` but finding a value described by `actual_type`.
    pub fn type_mismatch<T: TypeLabel + 'static>(atom_id: usize, actual_type: &str) -> (r: AtomError)
        ensures
            r@ == (ErrorView::TypeMismatch {
                atom_id: atom_id as int,
                expected: T::spec_type_label(),
                actual: actual_type@,
            }),
    {
        AtomError::TypeMismatch {
            atom_id,
            expected: T::type_label(),
            actual: actual_type.to_owned(),
        }
    }

    /// A [`AtomError::ReadError`] for node `atom_id` wrapping the given text.
    pub fn read_error(atom_id: usize, error: &str) -> (r: AtomError)
        ensures
            r@ == (ErrorView::ReadError { atom_id: atom_id as int, message: error@ }),
    {
        AtomError::ReadError { atom_id, message: error.to_owned() }
    }

    /// A [`AtomError::WriteError`] for node `atom_id` wrapping the given text.
    pub fn write_error(atom_id: usize, error: &str) -> (r: AtomError)
        ensures
            r@ == (ErrorView::WriteError { atom_id: atom_id as int, message: error@ }),
    {
        AtomError::WriteError { atom_id, message: error.to_owned() }
    }

    /// An [`AtomError::AsyncError`] for node `atom_id` wrapping the given text.
    pub fn async_error(atom_id: usize, error: &str) -> (r: AtomError)
        ensures
            r@ == (ErrorView::AsyncError { atom_id: atom_id as int, message: error@ }),
    {
        AtomError::AsyncError { atom_id, message: error.to_owned() }
    }
}

/// A hook for turning other error values into [`AtomError`]s tied to a node.
pub trait IntoAtomError: Sized {
    /// The error the conversion must produce.
    spec fn converted_view(self, atom_id: int) -> ErrorView;

    /// Wraps `self` as the error of node `atom_id`.
    fn into_atom_error(self, atom_id: usize) -> (r: AtomError)
        ensures
            r@ == self.converted_view(atom_id as int),
    ;
}

impl IntoAtomError for String {
    open spec fn converted_view(self, atom_id: int) -> ErrorView {
        ErrorView::ReadError { atom_id, message: self@ }
    }

    fn into_atom_error(self, atom_id: usize) -> (r: AtomError)
        ensures
            r@ == self.converted_view(atom_id as int),
    {
        AtomError::ReadError { atom_id, message: self }
    }
}

} // verus!
