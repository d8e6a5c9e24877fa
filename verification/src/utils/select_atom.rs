//! Selector nodes: derived atoms over a slice of another atom's value.
//!
//! The selector is an expression in which [`Expr::Arg`] stands for the
//! source atom's current value; the returned atom recomputes it through
//! the store's read path, so it updates only when the source does, and
//! its listeners fire only when the selected value actually changes.

use vstd::prelude::*;

use crate::atom::{
    atom_derived, atom_view, expr_view, Atom, AtomView, Expr, ExprView, ReadBehavior,
    ReadBehaviorView,
};
use crate::value::Value;

verus! {

/// The selector with `Arg` replaced by a read of the source atom.
pub open spec fn subst_source(e: ExprView, source: AtomView) -> ExprView
    decreases e,
{
    match e {
        ExprView::Lit(v) => ExprView::Lit(v),
        ExprView::Read(a) => ExprView::Read(a),
        ExprView::ReadSelf => ExprView::ReadSelf,
        ExprView::Arg => ExprView::Read(Box::new(source)),
        ExprView::Plus(x, y) => ExprView::Plus(
            Box::new(subst_source(*x, source)),
            Box::new(subst_source(*y, source)),
        ),
        ExprView::Times(x, y) => ExprView::Times(
            Box::new(subst_source(*x, source)),
            Box::new(subst_source(*y, source)),
        ),
        ExprView::Cond(c, t, f) => ExprView::Cond(
            Box::new(subst_source(*c, source)),
            Box::new(subst_source(*t, source)),
            Box::new(subst_source(*f, source)),
        ),
        ExprView::Fail(m) => ExprView::Fail(m),
    }
}

fn substitute(e: Expr, source: &Atom<Value>) -> (r: Expr)
    ensures
        r@ == subst_source(e@, source@),
    decreases e,
{
    match e {
        Expr::Arg => Expr::read(source),
        Expr::Plus(x, y) => Expr::Plus(
            Box::new(substitute(*x, source)),
            Box::new(substitute(*y, source)),
        ),
        Expr::Times(x, y) => Expr::Times(
            Box::new(substitute(*x, source)),
            Box::new(substitute(*y, source)),
        ),
        Expr::Cond(c, t, f) => Expr::Cond(
            Box::new(substitute(*c, source)),
            Box::new(substitute(*t, source)),
            Box::new(substitute(*f, source)),
        ),
        other => other,
    }
}

/// Creates a derived atom that selects a slice of `source_atom`'s value:
/// the selector expression is evaluated with `Arg` bound to the source's
/// current value, read through the store (so the source is a tracked
/// dependency of the selection).
pub fn select_atom(source_atom: &Atom<Value>, selector: Expr) -> (r: Atom<Value>)
    ensures
        r.id >= 1,
        r.debug_label is None,
        r.initial is None,
        atom_view(r).read == ReadBehaviorView::Derived(subst_source(selector@, source_atom@)),
{
    atom_derived(substitute(selector, source_atom))
}

/// [`select_atom`] under the store's built-in change detection, which
/// already compares selected values structurally.
pub fn select_atom_default(source_atom: &Atom<Value>, selector: Expr) -> (r: Atom<Value>)
    ensures
        r.id >= 1,
        r.debug_label is None,
        r.initial is None,
        atom_view(r).read == ReadBehaviorView::Derived(subst_source(selector@, source_atom@)),
{
    select_atom(source_atom, selector)
}

} // verus!
