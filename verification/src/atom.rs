//! Node descriptors ("atoms") and their behaviors.
//!
//! An atom is an immutable description of one node: a unique id, an
//! optional label, and the behaviors the store runs for it. A primitive
//! atom holds a directly settable value; a derived atom's value is
//! computed by an expression over other atoms, embedded by value in the
//! expression tree. The store never mutates a descriptor.

use vstd::prelude::*;
use vstd::string::StringExecFns;

use crate::text::{decimal_string, spec_decimal};
use crate::value::{Value, ValueView};

verus! {

/// Unique identifier of an atom.
pub type AtomId = usize;

/// Per-node version counter: the sole basis for cache-freshness decisions.
pub type EpochNumber = u64;

/// Draws a fresh atom id.
///
/// Relies on `uid::Id::<()>::new` (uid 0.1.9): returns the next value of a
/// process-wide atomic counter that starts at 1 and grows by 1 per call, so
/// distinct calls return distinct ids. It panics only if that counter
/// overflows a `usize`, which needs `usize::MAX` prior calls.
#[verifier::external_body]
pub(crate) fn next_atom_id() -> (r: AtomId)
    ensures
        r >= 1,
{
    uid::Id::<()>::new().get()
}

/// How reading a node produces its value.
#[derive(Debug)]
pub enum ReadBehavior {
    /// The node holds a directly set value; a read returns the stored value.
    Primitive,
    /// The node's value is recomputed by the expression when stale.
    Derived(Expr),
}

/// The read behavior of a derived node: an expression over other nodes.
///
/// Every `Read` records the atom it reads as a dependency of the node the
/// expression belongs to; only reads reached on the taken branch of a
/// `Cond` are recorded, so dependency sets may change across recomputes.
#[derive(Debug)]
pub enum Expr {
    /// A constant.
    Lit(Value),
    /// Read another node through the store's read path.
    Read(Box<Atom<Value>>),
    /// Read the node this behavior belongs to: always a dependency cycle.
    ReadSelf,
    /// The value handed to a write behavior; meaningful only there.
    Arg,
    /// Checked addition of two integer subexpressions.
    Plus(Box<Expr>, Box<Expr>),
    /// Checked multiplication of two integer subexpressions.
    Times(Box<Expr>, Box<Expr>),
    /// Evaluate the first subexpression to a boolean and take one branch.
    Cond(Box<Expr>, Box<Expr>, Box<Expr>),
    /// A read behavior that fails with this message.
    Fail(String),
}

/// A node descriptor: id, optional label, and read behavior.
#[derive(Debug)]
pub struct Atom<T> {
    /// Unique identifier for this atom.
    pub id: AtomId,
    /// Optional label for diagnostics.
    pub debug_label: Option<String>,
    /// The value a primitive atom starts from, if any.
    pub initial: Option<T>,
    /// How a read produces this atom's value.
    pub read: ReadBehavior,
}

/// One step of a write behavior: evaluate the expression (with `Arg` bound
/// to the incoming value) and set the target atom to the result.
#[derive(Debug)]
pub struct WriteStep {
    pub target: Box<WritableAtom<Value>>,
    pub expr: Expr,
}

/// How writing a node applies an incoming value.
#[derive(Debug)]
pub enum WriteBehavior {
    /// Store the incoming value into this node's own cell.
    Direct,
    /// Run the given steps in sequence.
    Program(Vec<WriteStep>),
}

/// A mount hook: when the owning atom is mounted the store queues a mount
/// event carrying this token, and on unmount a cleanup event with it.
#[derive(Clone, Copy, Debug, PartialEq, Eq, Structural)]
pub struct MountHook {
    pub token: u64,
}

/// A node descriptor with a write behavior.
#[derive(Debug)]
pub struct WritableAtom<T> {
    /// Base atom with the read side.
    pub atom: Atom<T>,
    /// How a write applies an incoming value.
    pub write: WriteBehavior,
    /// Optional mount hook.
    pub on_mount: Option<MountHook>,
}

/// A primitive atom is a writable atom whose behaviors are the direct ones.
pub type PrimitiveAtom<T> = WritableAtom<T>;

// ---------------------------------------------------------------------------
// Mathematical views of the descriptor tree
// ---------------------------------------------------------------------------

/// The shape of an [`Expr`], over unbounded values.
pub enum ExprView {
    Lit(ValueView),
    Read(Box<AtomView>),
    ReadSelf,
    Arg,
    Plus(Box<ExprView>, Box<ExprView>),
    Times(Box<ExprView>, Box<ExprView>),
    Cond(Box<ExprView>, Box<ExprView>, Box<ExprView>),
    Fail(Seq<char>),
}

/// The shape of a [`ReadBehavior`].
pub enum ReadBehaviorView {
    Primitive,
    Derived(ExprView),
}

/// The engine-relevant shape of an [`Atom`]: the label plays no part in
/// what the store computes, so it is not part of the view.
pub struct AtomView {
    pub id: int,
    pub initial: Option<ValueView>,
    pub read: ReadBehaviorView,
}

/// The shape of a [`WriteStep`].
pub struct WriteStepView {
    pub target: WritableAtomView,
    pub expr: ExprView,
}

/// The shape of a [`WriteBehavior`].
pub enum WriteBehaviorView {
    Direct,
    Program(Seq<WriteStepView>),
}

/// The shape of a [`WritableAtom`].
pub struct WritableAtomView {
    pub atom: AtomView,
    pub write: WriteBehaviorView,
    pub on_mount: Option<u64>,
}

pub open spec fn expr_view(e: Expr) -> ExprView
    decreases e,
{
    match e {
        Expr::Lit(v) => ExprView::Lit(v@),
        Expr::Read(a) => ExprView::Read(Box::new(atom_view(*a))),
        Expr::ReadSelf => ExprView::ReadSelf,
        Expr::Arg => ExprView::Arg,
        Expr::Plus(a, b) => ExprView::Plus(Box::new(expr_view(*a)), Box::new(expr_view(*b))),
        Expr::Times(a, b) => ExprView::Times(Box::new(expr_view(*a)), Box::new(expr_view(*b))),
        Expr::Cond(c, t, f) => ExprView::Cond(
            Box::new(expr_view(*c)),
            Box::new(expr_view(*t)),
            Box::new(expr_view(*f)),
        ),
        Expr::Fail(m) => ExprView::Fail(m@),
    }
}

pub open spec fn read_behavior_view(b: ReadBehavior) -> ReadBehaviorView
    decreases b,
{
    match b {
        ReadBehavior::Primitive => ReadBehaviorView::Primitive,
        ReadBehavior::Derived(e) => ReadBehaviorView::Derived(expr_view(e)),
    }
}

pub open spec fn atom_view(a: Atom<Value>) -> AtomView
    decreases a,
{
    AtomView {
        id: a.id as int,
        initial: match a.initial {
            Some(v) => Some(v@),
            None => None,
        },
        read: read_behavior_view(a.read),
    }
}

pub open spec fn write_step_view(s: WriteStep) -> WriteStepView
    decreases s,
{
    WriteStepView { target: writable_atom_view(*s.target), expr: expr_view(s.expr) }
}

pub open spec fn write_steps_view(steps: Seq<WriteStep>) -> Seq<WriteStepView>
    decreases steps,
{
    if steps.len() == 0 {
        Seq::empty()
    } else {
        write_steps_view(steps.drop_last()).push(write_step_view(steps.last()))
    }
}

pub open spec fn write_behavior_view(b: WriteBehavior) -> WriteBehaviorView
    decreases b,
{
    match b {
        WriteBehavior::Direct => WriteBehaviorView::Direct,
        WriteBehavior::Program(steps) => WriteBehaviorView::Program(write_steps_view(steps@)),
    }
}

pub open spec fn writable_atom_view(a: WritableAtom<Value>) -> WritableAtomView
    decreases a,
{
    WritableAtomView {
        atom: atom_view(a.atom),
        write: write_behavior_view(a.write),
        on_mount: match a.on_mount {
            Some(h) => Some(h.token),
            None => None,
        },
    }
}

impl View for Expr {
    type V = ExprView;

    open spec fn view(&self) -> ExprView {
        expr_view(*self)
    }
}

impl View for Atom<Value> {
    type V = AtomView;

    open spec fn view(&self) -> AtomView {
        atom_view(*self)
    }
}

impl View for WritableAtom<Value> {
    type V = WritableAtomView;

    open spec fn view(&self) -> WritableAtomView {
        writable_atom_view(*self)
    }
}

// ---------------------------------------------------------------------------
// Cloning, exact where the payload allows it
// ---------------------------------------------------------------------------

impl Clone for Value {
    fn clone(&self) -> (r: Self)
        ensures
            r == *self,
    {
        match self {
            Value::Int(i) => Value::Int(*i),
            Value::Bool(b) => Value::Bool(*b),
            Value::Str(s) => Value::Str(s.clone()),
        }
    }
}

impl Clone for Expr {
    fn clone(&self) -> (r: Self)
        ensures
            r == *self,
        decreases self,
    {
        match self {
            Expr::Lit(v) => Expr::Lit(v.clone()),
            Expr::Read(a) => Expr::Read(Box::new((**a).clone())),
            Expr::ReadSelf => Expr::ReadSelf,
            Expr::Arg => Expr::Arg,
            Expr::Plus(a, b) => Expr::Plus(Box::new((**a).clone()), Box::new((**b).clone())),
            Expr::Times(a, b) => Expr::Times(Box::new((**a).clone()), Box::new((**b).clone())),
            Expr::Cond(c, t, f) => Expr::Cond(
                Box::new((**c).clone()),
                Box::new((**t).clone()),
                Box::new((**f).clone()),
            ),
            Expr::Fail(m) => Expr::Fail(m.clone()),
        }
    }
}

impl Clone for ReadBehavior {
    fn clone(&self) -> (r: Self)
        ensures
            r == *self,
        decreases self,
    {
        match self {
            ReadBehavior::Primitive => ReadBehavior::Primitive,
            ReadBehavior::Derived(e) => ReadBehavior::Derived(e.clone()),
        }
    }
}

impl<T: Clone> Clone for Atom<T> {
    /// Clones the descriptor; everything but the held initial value is kept
    /// exactly, and the initial value is cloned by `T::clone`.
    fn clone(&self) -> (r: Self)
        ensures
            r.id == self.id,
            r.debug_label == self.debug_label,
            r.read == self.read,
            r.initial is Some <==> self.initial is Some,
            self.initial is Some ==> cloned::<T>(self.initial->Some_0, r.initial->Some_0),
        decreases self,
    {
        Atom {
            id: self.id,
            debug_label: match &self.debug_label {
                Some(l) => Some(l.clone()),
                None => None,
            },
            initial: match &self.initial {
                Some(v) => Some(v.clone()),
                None => None,
            },
            read: self.read.clone(),
        }
    }
}

impl Clone for WriteStep {
    fn clone(&self) -> (r: Self)
        ensures
            write_step_view(r) == write_step_view(*self),
        decreases self,
    {
        WriteStep { target: Box::new((*self.target).clone()), expr: self.expr.clone() }
    }
}

/// The views of two step sequences agree exactly when they agree pointwise.
pub proof fn lemma_write_steps_view(steps: Seq<WriteStep>)
    ensures
        write_steps_view(steps).len() == steps.len(),
        forall|i: int|
            0 <= i < steps.len() ==> #[trigger] write_steps_view(steps)[i] == write_step_view(
                steps[i],
            ),
    decreases steps.len(),
{
    if steps.len() > 0 {
        lemma_write_steps_view(steps.drop_last());
    }
}

fn clone_write_steps(steps: &Vec<WriteStep>) -> (r: Vec<WriteStep>)
    ensures
        r@.len() == steps@.len(),
        forall|i: int|
            0 <= i < steps@.len() ==> #[trigger] write_step_view(r@[i]) == write_step_view(
                steps@[i],
            ),
    decreases steps@,
{
    let mut out: Vec<WriteStep> = Vec::new();
    let mut i: usize = 0;
    while i < steps.len()
        invariant
            i <= steps.len(),
            out@.len() == i as int,
            forall|j: int|
                0 <= j < i as int ==> #[trigger] write_step_view(out@[j]) == write_step_view(
                    steps@[j],
                ),
        decreases steps.len() - i,
    {
        out.push(steps[i].clone());
        i = i + 1;
    }
    out
}

impl Clone for WriteBehavior {
    fn clone(&self) -> (r: Self)
        ensures
            write_behavior_view(r) == write_behavior_view(*self),
        decreases self,
    {
        match self {
            WriteBehavior::Direct => WriteBehavior::Direct,
            WriteBehavior::Program(steps) => {
                let out = clone_write_steps(steps);
                proof {
                    lemma_write_steps_view(out@);
                    lemma_write_steps_view(steps@);
                    assert(write_steps_view(out@) =~= write_steps_view(steps@));
                }
                WriteBehavior::Program(out)
            },
        }
    }
}

impl<T: Clone> Clone for WritableAtom<T> {
    /// Clones the descriptor; the id, label, behaviors and hook are kept,
    /// and the initial value is cloned by `T::clone`.
    fn clone(&self) -> (r: Self)
        ensures
            r.atom.id == self.atom.id,
            r.atom.debug_label == self.atom.debug_label,
            r.atom.read == self.atom.read,
            r.atom.initial is Some <==> self.atom.initial is Some,
            self.atom.initial is Some ==> cloned::<T>(
                self.atom.initial->Some_0,
                r.atom.initial->Some_0,
            ),
            write_behavior_view(r.write) == write_behavior_view(self.write),
            r.on_mount == self.on_mount,
        decreases self,
    {
        WritableAtom { atom: self.atom.clone(), write: self.write.clone(), on_mount: self.on_mount }
    }
}

// ---------------------------------------------------------------------------
// Labels
// ---------------------------------------------------------------------------

/// Text that can serve as an atom's label.
pub trait IntoLabel: Sized {
    /// The characters the label will hold.
    spec fn label_view(self) -> Seq<char>;

    /// Turns `self` into the owned label text.
    fn into_label(self) -> (r: String)
        ensures
            r@ == self.label_view(),
    ;
}

impl IntoLabel for String {
    open spec fn label_view(self) -> Seq<char> {
        self@
    }

    fn into_label(self) -> (r: String) {
        self
    }
}

impl<'a> IntoLabel for &'a str {
    open spec fn label_view(self) -> Seq<char> {
        self@
    }

    fn into_label(self) -> (r: String) {
        self.to_owned()
    }
}

impl<'a> IntoLabel for &'a String {
    open spec fn label_view(self) -> Seq<char> {
        self@
    }

    fn into_label(self) -> (r: String) {
        self.clone()
    }
}

// ---------------------------------------------------------------------------
// Expression constructors
// ---------------------------------------------------------------------------

impl Expr {
    /// An expression that reads the given atom.
    pub fn read(a: &Atom<Value>) -> (r: Expr)
        ensures
            r@ == ExprView::Read(Box::new(a@)),
    {
        let copy = a.clone();
        proof {
            crate::store::lemma_clone_atom_view(*a, copy);
        }
        Expr::Read(Box::new(copy))
    }

    /// A constant expression.
    pub fn lit(v: Value) -> (r: Expr)
        ensures
            r@ == ExprView::Lit(v@),
    {
        Expr::Lit(v)
    }

    /// An expression that reads the node the behavior belongs to.
    pub fn read_self() -> (r: Expr)
        ensures
            r@ == ExprView::ReadSelf,
    {
        Expr::ReadSelf
    }

    /// The value handed to a write behavior.
    pub fn arg() -> (r: Expr)
        ensures
            r@ == ExprView::Arg,
    {
        Expr::Arg
    }

    /// Checked addition of two subexpressions.
    pub fn plus(self, rhs: Expr) -> (r: Expr)
        ensures
            r@ == ExprView::Plus(Box::new(self@), Box::new(rhs@)),
    {
        Expr::Plus(Box::new(self), Box::new(rhs))
    }

    /// Checked multiplication of two subexpressions.
    pub fn times(self, rhs: Expr) -> (r: Expr)
        ensures
            r@ == ExprView::Times(Box::new(self@), Box::new(rhs@)),
    {
        Expr::Times(Box::new(self), Box::new(rhs))
    }

    /// A conditional: evaluate `self` to a boolean and take one branch.
    pub fn cond(self, then_branch: Expr, else_branch: Expr) -> (r: Expr)
        ensures
            r@ == ExprView::Cond(
                Box::new(self@),
                Box::new(then_branch@),
                Box::new(else_branch@),
            ),
    {
        Expr::Cond(Box::new(self), Box::new(then_branch), Box::new(else_branch))
    }

    /// A read behavior that fails with the given message.
    pub fn fail(message: &str) -> (r: Expr)
        ensures
            r@ == ExprView::Fail(message@),
    {
        Expr::Fail(message.to_owned())
    }
}

/// One write step: set `target` to what `expr` evaluates to.
pub fn write_step(target: &WritableAtom<Value>, expr: Expr) -> (r: WriteStep)
    ensures
        write_step_view(r) == (WriteStepView { target: writable_atom_view(*target), expr: expr@ }),
{
    let copy = target.clone();
    proof {
        lemma_clone_writable_view(*target, copy);
    }
    WriteStep { target: Box::new(copy), expr }
}

/// A clone of a writable atom has the same view.
pub proof fn lemma_clone_writable_view(a: WritableAtom<Value>, b: WritableAtom<Value>)
    requires
        b.atom.id == a.atom.id,
        b.atom.read == a.atom.read,
        b.atom.initial is Some <==> a.atom.initial is Some,
        a.atom.initial is Some ==> cloned::<Value>(a.atom.initial->Some_0, b.atom.initial->Some_0),
        write_behavior_view(b.write) == write_behavior_view(a.write),
        b.on_mount == a.on_mount,
    ensures
        writable_atom_view(b) == writable_atom_view(a),
{
    if a.atom.initial is Some {
        let x = a.atom.initial->Some_0;
        let y = b.atom.initial->Some_0;
        if call_ensures(Value::clone, (&x,), y) {
            assert(y == x);
        }
    }
}

// ---------------------------------------------------------------------------
// Methods
// ---------------------------------------------------------------------------

/// The text [`Atom::to_string`] renders: `atom{id}`, with `:{label}`
/// appended when a label is set.
pub open spec fn spec_atom_string(id: int, label: Option<Seq<char>>) -> Seq<char> {
    match label {
        None => "atom"@ + spec_decimal(id as nat),
        Some(l) => "atom"@ + spec_decimal(id as nat) + ":"@ + l,
    }
}

impl<T> Atom<T> {
    /// The atom's unique id.
    pub fn id(&self) -> (r: AtomId)
        ensures
            r == self.id,
    {
        self.id
    }

    /// The atom's label, if one was set.
    pub fn debug_label(&self) -> (r: Option<&str>)
        ensures
            r is Some <==> self.debug_label is Some,
            r is Some ==> r->Some_0@ == self.debug_label->Some_0@,
    {
        match &self.debug_label {
            Some(l) => Some(l.as_str()),
            None => None,
        }
    }

    /// Sets the label, returning the relabelled atom.
    pub fn with_label<L: IntoLabel>(self, label: L) -> (r: Self)
        ensures
            r.id == self.id,
            r.initial == self.initial,
            r.read == self.read,
            r.debug_label is Some,
            r.debug_label->Some_0@ == label.label_view(),
    {
        Atom { debug_label: Some(label.into_label()), ..self }
    }

    /// Renders the atom as `atom{id}` or `atom{id}:{label}`.
    pub fn to_string(&self) -> (r: String)
        ensures
            r@ == spec_atom_string(
                self.id as int,
                match self.debug_label {
                    Some(l) => Some(l@),
                    None => None,
                },
            ),
    {
        let base = "atom".to_owned().concat(decimal_string(self.id as u64).as_str());
        match &self.debug_label {
            Some(l) => base.concat(":").concat(l.as_str()),
            None => base,
        }
    }
}

impl<T> WritableAtom<T> {
    /// The underlying read-side atom.
    pub fn as_atom(&self) -> (r: &Atom<T>)
        ensures
            r == self.atom,
    {
        &self.atom
    }

    /// The atom's unique id.
    pub fn id(&self) -> (r: AtomId)
        ensures
            r == self.atom.id,
    {
        self.atom.id
    }

    /// Sets the label, returning the relabelled atom.
    pub fn with_label<L: IntoLabel>(self, label: L) -> (r: Self)
        ensures
            r.atom.id == self.atom.id,
            r.atom.initial == self.atom.initial,
            r.atom.read == self.atom.read,
            r.atom.debug_label is Some,
            r.atom.debug_label->Some_0@ == label.label_view(),
            r.write == self.write,
            r.on_mount == self.on_mount,
    {
        WritableAtom {
            atom: Atom { debug_label: Some(label.into_label()), ..self.atom },
            ..self
        }
    }

    /// The atom's mount hook, if one was set.
    pub fn on_mount(&self) -> (r: Option<MountHook>)
        ensures
            r == self.on_mount,
    {
        self.on_mount
    }
}

// ---------------------------------------------------------------------------
// Factories
// ---------------------------------------------------------------------------

/// Creates a primitive atom holding `initial_value`.
pub fn atom<T: Clone + Send + Sync + 'static>(initial_value: T) -> (r: PrimitiveAtom<T>)
    ensures
        r.atom.id >= 1,
        r.atom.debug_label is None,
        r.atom.initial == Some(initial_value),
        r.atom.read == ReadBehavior::Primitive,
        r.write == WriteBehavior::Direct,
        r.on_mount is None,
{
    PrimitiveAtom {
        atom: Atom {
            id: next_atom_id(),
            debug_label: None,
            initial: Some(initial_value),
            read: ReadBehavior::Primitive,
        },
        write: WriteBehavior::Direct,
        on_mount: None,
    }
}

/// Creates a read-only derived atom computed by `read`.
pub fn atom_derived(read: Expr) -> (r: Atom<Value>)
    ensures
        r.id >= 1,
        r.debug_label is None,
        r.initial is None,
        r.read == ReadBehavior::Derived(read),
{
    Atom { id: next_atom_id(), debug_label: None, initial: None, read: ReadBehavior::Derived(read) }
}

/// Creates a derived atom with custom read and write behaviors.
pub fn atom_writable(read: Expr, write: Vec<WriteStep>) -> (r: WritableAtom<Value>)
    ensures
        r.atom.id >= 1,
        r.atom.debug_label is None,
        r.atom.initial is None,
        r.atom.read == ReadBehavior::Derived(read),
        r.write == WriteBehavior::Program(write),
        r.on_mount is None,
{
    WritableAtom {
        atom: Atom {
            id: next_atom_id(),
            debug_label: None,
            initial: None,
            read: ReadBehavior::Derived(read),
        },
        write: WriteBehavior::Program(write),
        on_mount: None,
    }
}

/// Creates a write-only atom: reads return the initial value, writes run
/// the given steps.
pub fn atom_write_only(initial_value: Value, write: Vec<WriteStep>) -> (r: WritableAtom<Value>)
    ensures
        r.atom.id >= 1,
        r.atom.debug_label is None,
        r.atom.initial == Some(initial_value),
        r.atom.read == ReadBehavior::Primitive,
        r.write == WriteBehavior::Program(write),
        r.on_mount is None,
{
    WritableAtom {
        atom: Atom {
            id: next_atom_id(),
            debug_label: None,
            initial: Some(initial_value),
            read: ReadBehavior::Primitive,
        },
        write: WriteBehavior::Program(write),
        on_mount: None,
    }
}

} // verus!
