//! The mathematical model of the store.
//!
//! Every public store operation is specified as a function from a
//! [`StoreModel`] to a [`StoreModel`]; the executable code is proved to
//! refine these functions exactly. The model mirrors the engine's data:
//! association sequences with distinct keys stand for its keyed tables.

use vstd::prelude::*;

use crate::atom::{AtomView, ExprView, ReadBehaviorView, WritableAtomView, WriteBehaviorView, WriteStepView};
use crate::error::ErrorView;
use crate::value::ValueView;

verus! {

// ---------------------------------------------------------------------------
// Association sequences
// ---------------------------------------------------------------------------

/// Whether the association sequence holds key `k`.
pub open spec fn assoc_has<V>(s: Seq<(int, V)>, k: int) -> bool {
    exists|i: int| 0 <= i < s.len() && s[i].0 == k
}

/// The value at key `k`, taking the first entry with that key.
pub open spec fn assoc_get<V>(s: Seq<(int, V)>, k: int) -> Option<V>
    decreases s.len(),
{
    if s.len() == 0 {
        None
    } else if s[0].0 == k {
        Some(s[0].1)
    } else {
        assoc_get(s.drop_first(), k)
    }
}

/// The sequence with key `k` bound to `v`: the first entry with key `k` is
/// replaced, or a new entry is appended.
pub open spec fn assoc_set<V>(s: Seq<(int, V)>, k: int, v: V) -> Seq<(int, V)>
    decreases s.len(),
{
    if s.len() == 0 {
        seq![(k, v)]
    } else if s[0].0 == k {
        seq![(k, v)] + s.drop_first()
    } else {
        seq![s[0]] + assoc_set(s.drop_first(), k, v)
    }
}

/// Keys are distinct, so lookups are unambiguous.
pub open spec fn assoc_wf<V>(s: Seq<(int, V)>) -> bool {
    forall|i: int, j: int| 0 <= i < j < s.len() ==> s[i].0 != s[j].0
}

pub proof fn lemma_assoc_get_has<V>(s: Seq<(int, V)>, k: int)
    ensures
        assoc_has(s, k) <==> assoc_get(s, k) is Some,
    decreases s.len(),
{
    if s.len() > 0 && s[0].0 != k {
        lemma_assoc_get_has(s.drop_first(), k);
        assert(assoc_has(s, k) ==> assoc_has(s.drop_first(), k)) by {
            if assoc_has(s, k) {
                let i = choose|i: int| 0 <= i < s.len() && s[i].0 == k;
                assert(s.drop_first()[i - 1] == s[i]);
            }
        }
        assert(assoc_has(s.drop_first(), k) ==> assoc_has(s, k)) by {
            if assoc_has(s.drop_first(), k) {
                let i = choose|i: int| 0 <= i < s.drop_first().len() && s.drop_first()[i].0 == k;
                assert(s[i + 1] == s.drop_first()[i]);
            }
        }
    }
}

pub proof fn lemma_assoc_set_get<V>(s: Seq<(int, V)>, k: int, v: V, q: int)
    ensures
        assoc_get(assoc_set(s, k, v), q) == if q == k {
            Some(v)
        } else {
            assoc_get(s, q)
        },
    decreases s.len(),
{
    let t = assoc_set(s, k, v);
    if s.len() == 0 {
        assert(t == seq![(k, v)]);
        assert(t[0] == (k, v));
        assert(t.drop_first() =~= Seq::<(int, V)>::empty());
    } else if s[0].0 == k {
        assert(t[0] == (k, v));
        assert(t.drop_first() =~= s.drop_first());
        if q != k {
            assert(assoc_get(t, q) == assoc_get(t.drop_first(), q));
            assert(assoc_get(s, q) == assoc_get(s.drop_first(), q));
        }
    } else {
        lemma_assoc_set_get(s.drop_first(), k, v, q);
        assert(t[0] == s[0]);
        assert(t.drop_first() =~= assoc_set(s.drop_first(), k, v));
        if q == s[0].0 {
            assert(assoc_get(t, q) == Some(t[0].1));
        } else {
            assert(assoc_get(t, q) == assoc_get(t.drop_first(), q));
            assert(assoc_get(s, q) == assoc_get(s.drop_first(), q));
        }
    }
}

pub proof fn lemma_assoc_set_has<V>(s: Seq<(int, V)>, k: int, v: V, q: int)
    ensures
        assoc_has(assoc_set(s, k, v), q) <==> (q == k || assoc_has(s, q)),
        assoc_wf(s) ==> assoc_wf(assoc_set(s, k, v)),
    decreases s.len(),
{
    lemma_assoc_get_has(s, q);
    lemma_assoc_get_has(assoc_set(s, k, v), q);
    lemma_assoc_set_get(s, k, v, q);
    if !(assoc_has(assoc_set(s, k, v), q) <==> (q == k || assoc_has(s, q))) {
        lemma_assoc_get_has(s, q);
    }
    // distinctness is preserved
    if s.len() > 0 {
        if s[0].0 == k {
            assert(assoc_set(s, k, v).drop_first() =~= s.drop_first());
            assert forall|i: int, j: int|
                0 <= i < j < assoc_set(s, k, v).len() && assoc_wf(s) implies assoc_set(s, k, v)[i].0
                != assoc_set(s, k, v)[j].0 by {
                assert(assoc_set(s, k, v)[0].0 == s[0].0);
                if i > 0 {
                    assert(assoc_set(s, k, v)[i] == s[i]);
                }
                if j > 0 {
                    assert(assoc_set(s, k, v)[j] == s[j]);
                }
            }
        } else {
            lemma_assoc_set_has(s.drop_first(), k, v, q);
            if assoc_wf(s) {
                assert(assoc_wf(s.drop_first())) by {
                    assert(forall|i: int, j: int|
                        0 <= i < j < s.drop_first().len() ==> s.drop_first()[i] == s[i + 1]
                            && s.drop_first()[j] == s[j + 1]);
                }
                let t = assoc_set(s, k, v);
                assert(t[0] == s[0]);
                assert(t.drop_first() =~= assoc_set(s.drop_first(), k, v));
                assert forall|i: int, j: int| 0 <= i < j < t.len() implies t[i].0 != t[j].0 by {
                    if i == 0 {
                        assert(t[j] == t.drop_first()[j - 1]);
                        lemma_assoc_member_keys(s.drop_first(), k, v, j - 1);
                    } else {
                        assert(t[i] == t.drop_first()[i - 1]);
                        assert(t[j] == t.drop_first()[j - 1]);
                        assert(assoc_wf(assoc_set(s.drop_first(), k, v)));
                    }
                }
            }
        }
    }
}

/// Every key in `assoc_set(s, k, v)` is `k` or a key of `s`.
pub proof fn lemma_assoc_member_keys<V>(s: Seq<(int, V)>, k: int, v: V, i: int)
    requires
        0 <= i < assoc_set(s, k, v).len(),
    ensures
        assoc_set(s, k, v)[i].0 == k || assoc_has(s, assoc_set(s, k, v)[i].0),
    decreases s.len(),
{
    let t = assoc_set(s, k, v);
    if s.len() == 0 {
    } else if s[0].0 == k {
        assert(t.drop_first() =~= s.drop_first());
        if i > 0 {
            assert(t[i] == s[i]);
        }
    } else {
        assert(t[0] == s[0]);
        assert(t.drop_first() =~= assoc_set(s.drop_first(), k, v));
        if i > 0 {
            lemma_assoc_member_keys(s.drop_first(), k, v, i - 1);
            if assoc_has(s.drop_first(), t[i].0) {
                let j = choose|j: int|
                    0 <= j < s.drop_first().len() && s.drop_first()[j].0 == t[i].0;
                assert(s[j + 1] == s.drop_first()[j]);
            }
        }
    }
}

/// A first-match index decides the lookup.
pub proof fn lemma_assoc_get_at_first<V>(s: Seq<(int, V)>, k: int, i: int)
    requires
        0 <= i < s.len(),
        s[i].0 == k,
        forall|j: int| 0 <= j < i ==> s[j].0 != k,
    ensures
        assoc_get(s, k) == Some(s[i].1),
    decreases i,
{
    if i > 0 {
        assert(forall|j: int|
            0 <= j < i - 1 ==> s.drop_first()[j] == s[j + 1] && s[j + 1].0 != k);
        assert(s.drop_first()[i - 1] == s[i]);
        lemma_assoc_get_at_first(s.drop_first(), k, i - 1);
    }
}

/// Without the key, the lookup is empty.
pub proof fn lemma_assoc_get_absent<V>(s: Seq<(int, V)>, k: int)
    requires
        forall|j: int| 0 <= j < s.len() ==> s[j].0 != k,
    ensures
        assoc_get(s, k) is None,
    decreases s.len(),
{
    if s.len() > 0 {
        assert(forall|j: int|
            0 <= j < s.drop_first().len() ==> s.drop_first()[j] == s[j + 1] && s[j + 1].0 != k);
        lemma_assoc_get_absent(s.drop_first(), k);
    }
}

/// Binding a key present first at `i` updates that entry in place.
pub proof fn lemma_assoc_set_at_first<V>(s: Seq<(int, V)>, k: int, v: V, i: int)
    requires
        0 <= i < s.len(),
        s[i].0 == k,
        forall|j: int| 0 <= j < i ==> s[j].0 != k,
    ensures
        assoc_set(s, k, v) == s.update(i, (k, v)),
    decreases i,
{
    let t = assoc_set(s, k, v);
    if i == 0 {
        assert(t =~= s.update(0, (k, v)));
    } else {
        assert(forall|j: int|
            0 <= j < i - 1 ==> s.drop_first()[j] == s[j + 1] && s[j + 1].0 != k);
        assert(s.drop_first()[i - 1] == s[i]);
        lemma_assoc_set_at_first(s.drop_first(), k, v, i - 1);
        assert(t =~= seq![s[0]] + s.drop_first().update(i - 1, (k, v)));
        assert(t =~= s.update(i, (k, v)));
    }
}

/// Binding an absent key appends a new entry.
pub proof fn lemma_assoc_set_absent<V>(s: Seq<(int, V)>, k: int, v: V)
    requires
        forall|j: int| 0 <= j < s.len() ==> s[j].0 != k,
    ensures
        assoc_set(s, k, v) == s.push((k, v)),
    decreases s.len(),
{
    if s.len() == 0 {
        assert(assoc_set(s, k, v) =~= s.push((k, v)));
    } else {
        assert(forall|j: int|
            0 <= j < s.drop_first().len() ==> s.drop_first()[j] == s[j + 1] && s[j + 1].0 != k);
        lemma_assoc_set_absent(s.drop_first(), k, v);
        assert(assoc_set(s, k, v) =~= s.push((k, v)));
    }
}

// ---------------------------------------------------------------------------
// Model data
// ---------------------------------------------------------------------------

/// The versioned state of one node.
pub struct CellModel {
    /// Monotonic version: grows by one on every (re)computation.
    pub epoch: nat,
    /// The cached value, or the error its computation produced.
    pub value: Option<Result<ValueView, ErrorView>>,
    /// The dependencies read during the last computation, each with the
    /// epoch it had at that moment. Rebuilt from scratch each recompute.
    pub deps: Seq<(int, nat)>,
}

/// The subscription record of one mounted node.
pub struct MountModel {
    /// Listener tokens, in subscription order.
    pub listeners: Seq<u64>,
    /// Ids of the node's recorded dependencies at mount bookkeeping time.
    pub deps: Seq<int>,
    /// Ids of mounted nodes that read this node.
    pub dependents: Seq<int>,
    /// The token of a mount hook whose cleanup is owed on unmount.
    pub cleanup: Option<u64>,
}

/// The whole store.
#[verifier::ext_equal]
pub struct StoreModel {
    /// Per-node state cells, keyed by node id.
    pub cells: Seq<(int, CellModel)>,
    /// Read behaviors seen so far, keyed by node id.
    pub registry: Seq<(int, AtomView)>,
    /// Write behaviors seen so far, keyed by node id.
    pub writables: Seq<(int, crate::atom::WriteBehaviorView)>,
    /// Mount records of currently observed nodes, keyed by node id.
    pub mounts: Seq<(int, MountModel)>,
    /// Mounted nodes whose cache a write made stale, pending recompute.
    pub invalidated: Seq<int>,
    /// Nodes whose value changed in the current cycle, pending notification.
    pub changed: Seq<int>,
    /// Listener tokens fired by finished flushes, for the caller to drain.
    pub notifications: Seq<u64>,
    /// Mount-hook events: `(token, true)` when mounted, `(token, false)`
    /// when its cleanup ran.
    pub lifecycle: Seq<(u64, bool)>,
    /// Mount-hook tokens seen so far, keyed by node id.
    pub hooks: Seq<(int, u64)>,
    /// The next listener token to hand out.
    pub next_listener: nat,
}

/// The next epoch: one more, capped at what the engine's counter can hold.
pub open spec fn bump_epoch(e: nat) -> nat {
    if e < u64::MAX as nat {
        e + 1
    } else {
        e
    }
}

/// The state of a never-yet-touched node.
pub open spec fn empty_cell() -> CellModel {
    CellModel { epoch: 0, value: None, deps: Seq::empty() }
}

/// The cell of node `id`, or the empty cell if none exists yet.
pub open spec fn cell_of(s: StoreModel, id: int) -> CellModel {
    match assoc_get(s.cells, id) {
        Some(c) => c,
        None => empty_cell(),
    }
}

/// The store with node `id`'s cell replaced.
pub open spec fn set_cell(s: StoreModel, id: int, c: CellModel) -> StoreModel {
    StoreModel { cells: assoc_set(s.cells, id, c), ..s }
}

/// The store after making sure node `id` has a cell.
pub open spec fn ensure_cell(s: StoreModel, id: int) -> StoreModel {
    if assoc_has(s.cells, id) {
        s
    } else {
        StoreModel { cells: s.cells.push((id, empty_cell())), ..s }
    }
}

/// The store after remembering `a`'s behavior (first registration wins)
/// and making sure it has a cell.
pub open spec fn register_atom(s: StoreModel, a: AtomView) -> StoreModel {
    let s1 = if assoc_has(s.registry, a.id) {
        s
    } else {
        StoreModel { registry: s.registry.push((a.id, a)), ..s }
    };
    ensure_cell(s1, a.id)
}

// ---------------------------------------------------------------------------
// Structural measures over the descriptor tree
// ---------------------------------------------------------------------------

pub open spec fn nat_max(a: nat, b: nat) -> nat {
    if a >= b {
        a
    } else {
        b
    }
}

pub open spec fn expr_height(e: ExprView) -> nat
    decreases e,
{
    match e {
        ExprView::Lit(_) => 1,
        ExprView::Read(a) => 1 + atom_height(*a),
        ExprView::ReadSelf => 1,
        ExprView::Arg => 1,
        ExprView::Plus(x, y) => 1 + nat_max(expr_height(*x), expr_height(*y)),
        ExprView::Times(x, y) => 1 + nat_max(expr_height(*x), expr_height(*y)),
        ExprView::Cond(c, t, f) => 1 + nat_max(
            expr_height(*c),
            nat_max(expr_height(*t), expr_height(*f)),
        ),
        ExprView::Fail(_) => 1,
    }
}

pub open spec fn atom_height(a: AtomView) -> nat
    decreases a,
{
    match a.read {
        ReadBehaviorView::Primitive => 1,
        ReadBehaviorView::Derived(e) => 1 + expr_height(e),
    }
}

/// The atom with id `id` embedded in `e`, if any.
pub open spec fn find_in_expr(e: ExprView, id: int) -> Option<AtomView>
    decreases e,
{
    match e {
        ExprView::Lit(_) => None,
        ExprView::Read(a) => if a.id == id {
            Some(*a)
        } else {
            find_in_atom(*a, id)
        },
        ExprView::ReadSelf => None,
        ExprView::Arg => None,
        ExprView::Plus(x, y) => if find_in_expr(*x, id) is Some {
            find_in_expr(*x, id)
        } else {
            find_in_expr(*y, id)
        },
        ExprView::Times(x, y) => if find_in_expr(*x, id) is Some {
            find_in_expr(*x, id)
        } else {
            find_in_expr(*y, id)
        },
        ExprView::Cond(c, t, f) => if find_in_expr(*c, id) is Some {
            find_in_expr(*c, id)
        } else if find_in_expr(*t, id) is Some {
            find_in_expr(*t, id)
        } else {
            find_in_expr(*f, id)
        },
        ExprView::Fail(_) => None,
    }
}

/// The atom with id `id` embedded in `a`'s read behavior, if any.
pub open spec fn find_in_atom(a: AtomView, id: int) -> Option<AtomView>
    decreases a,
{
    match a.read {
        ReadBehaviorView::Primitive => None,
        ReadBehaviorView::Derived(e) => find_in_expr(e, id),
    }
}

/// What is embedded in an expression is strictly lower than the expression.
pub proof fn lemma_find_height_expr(e: ExprView, id: int)
    ensures
        find_in_expr(e, id) is Some ==> atom_height(find_in_expr(e, id)->Some_0) < expr_height(e),
        find_in_expr(e, id) is Some ==> find_in_expr(e, id)->Some_0.id == id,
    decreases e,
{
    match e {
        ExprView::Read(a) => {
            if a.id != id {
                lemma_find_height_atom(*a, id);
            }
        },
        ExprView::Plus(x, y) => {
            lemma_find_height_expr(*x, id);
            lemma_find_height_expr(*y, id);
        },
        ExprView::Times(x, y) => {
            lemma_find_height_expr(*x, id);
            lemma_find_height_expr(*y, id);
        },
        ExprView::Cond(c, t, f) => {
            lemma_find_height_expr(*c, id);
            lemma_find_height_expr(*t, id);
            lemma_find_height_expr(*f, id);
        },
        _ => {},
    }
}

/// What is embedded in an atom's behavior is strictly lower than the atom.
pub proof fn lemma_find_height_atom(a: AtomView, id: int)
    ensures
        find_in_atom(a, id) is Some ==> atom_height(find_in_atom(a, id)->Some_0) < atom_height(a),
        find_in_atom(a, id) is Some ==> find_in_atom(a, id)->Some_0.id == id,
    decreases a,
{
    match a.read {
        ReadBehaviorView::Derived(e) => {
            lemma_find_height_expr(e, id);
        },
        ReadBehaviorView::Primitive => {},
    }
}

// ---------------------------------------------------------------------------
// The read path
// ---------------------------------------------------------------------------

/// Whether `deps` records node `m`.
pub open spec fn has_dep(deps: Seq<(int, nat)>, m: int) -> bool {
    exists|i: int| 0 <= i < deps.len() && deps[i].0 == m
}

/// Records into `n`'s cell that it read `m` at `m`'s current epoch.
/// A dependency already recorded during this computation is kept as it is.
pub open spec fn record_dep(s: StoreModel, n: int, m: int) -> StoreModel {
    let c = cell_of(s, n);
    if has_dep(c.deps, m) {
        s
    } else {
        set_cell(s, n, CellModel { deps: c.deps.push((m, cell_of(s, m).epoch)), ..c })
    }
}

/// The shape name of a value, for mismatch messages.
pub open spec fn shape_name(v: ValueView) -> Seq<char> {
    match v {
        ValueView::VInt(_) => "i64"@,
        ValueView::VBool(_) => "bool"@,
        ValueView::VStr(_) => "String"@,
    }
}

/// Reading node `a`: returns the cached value when it is fresh, and
/// otherwise recomputes, rebuilding the dependency record and growing the
/// epoch by one. `chain` holds the node ids currently being computed, for
/// cycle reporting.
pub open spec fn spec_read(s: StoreModel, a: AtomView, chain: Seq<int>) -> (StoreModel, Result<
    ValueView,
    ErrorView,
>)
    decreases atom_height(a), 1nat, 0nat,
{
    let s0 = register_atom(s, a);
    match a.read {
        ReadBehaviorView::Primitive => {
            let c = cell_of(s0, a.id);
            match c.value {
                Some(r) => (s0, r),
                None => match a.initial {
                    Some(v) => (
                        set_cell(
                            s0,
                            a.id,
                            CellModel {
                                epoch: bump_epoch(c.epoch),
                                value: Some(Ok(v)),
                                deps: Seq::empty(),
                            },
                        ),
                        Ok(v),
                    ),
                    None => (s0, Err(ErrorView::Uninitialized { atom_id: a.id })),
                },
            }
        },
        ReadBehaviorView::Derived(_) => {
            let c = cell_of(s0, a.id);
            if c.value is Some {
                let (s1, ok) = spec_revalidate(s0, a, c.deps, chain);
                if ok && cell_of(s1, a.id).value is Some {
                    (s1, cell_of(s1, a.id).value->Some_0)
                } else {
                    spec_recompute(s1, a, chain)
                }
            } else {
                spec_recompute(s0, a, chain)
            }
        },
    }
}

/// Brings each recorded dependency up to date through the read path, then
/// compares its epoch with the recorded one; true means every dependency
/// is unchanged, so the cached value is fresh.
pub open spec fn spec_revalidate(
    s: StoreModel,
    a: AtomView,
    deps: Seq<(int, nat)>,
    chain: Seq<int>,
) -> (StoreModel, bool)
    decreases atom_height(a), 0nat, 2 + deps.len(),
    via spec_revalidate_dec
{
    if deps.len() == 0 {
        (s, true)
    } else {
        let d = deps[0];
        match find_in_atom(a, d.0) {
            None => (s, false),
            Some(da) => {
                let (s1, _r) = spec_read(s, da, chain.push(a.id));
                if cell_of(s1, d.0).epoch == d.1 {
                    spec_revalidate(s1, a, deps.drop_first(), chain)
                } else {
                    (s1, false)
                }
            },
        }
    }
}

#[via_fn]
proof fn spec_revalidate_dec(s: StoreModel, a: AtomView, deps: Seq<(int, nat)>, chain: Seq<int>) {
    if deps.len() > 0 {
        lemma_find_height_atom(a, deps[0].0);
    }
}

/// Recomputing a derived node: clear its dependency record, evaluate its
/// expression, capture the outcome (value or error) and grow the epoch.
pub open spec fn spec_recompute(s: StoreModel, a: AtomView, chain: Seq<int>) -> (StoreModel, Result<
    ValueView,
    ErrorView,
>)
    decreases atom_height(a), 0nat, 1nat,
{
    match a.read {
        ReadBehaviorView::Derived(e) => {
            let c0 = cell_of(s, a.id);
            let s1 = set_cell(s, a.id, CellModel { deps: Seq::empty(), ..c0 });
            let (s2, r) = spec_eval(s1, a.id, true, e, chain.push(a.id), None);
            let c2 = cell_of(s2, a.id);
            let s3 = set_cell(
                s2,
                a.id,
                CellModel { epoch: bump_epoch(c2.epoch), value: Some(r), ..c2 },
            );
            (s3, r)
        },
        ReadBehaviorView::Primitive => (s, Err(ErrorView::Uninitialized { atom_id: a.id })),
    }
}

/// Evaluating an expression of node `self_id`: nested reads go through the
/// read path and are recorded as dependencies; errors propagate like
/// values; arithmetic is checked.
pub open spec fn spec_eval(
    s: StoreModel,
    self_id: int,
    track: bool,
    e: ExprView,
    chain: Seq<int>,
    incoming: Option<ValueView>,
) -> (StoreModel, Result<ValueView, ErrorView>)
    decreases expr_height(e), 2nat, 0nat,
{
    match e {
        ExprView::Lit(v) => (s, Ok(v)),
        ExprView::Read(m) => {
            let (s1, r) = spec_read(s, *m, chain);
            if track {
                (record_dep(s1, self_id, m.id), r)
            } else {
                (s1, r)
            }
        },
        ExprView::ReadSelf => (
            s,
            Err(
                ErrorView::CircularDependency {
                    atom_id: self_id,
                    dependency_chain: chain.push(self_id),
                },
            ),
        ),
        ExprView::Arg => match incoming {
            Some(v) => (s, Ok(v)),
            None => (
                s,
                Err(ErrorView::ReadError { atom_id: self_id, message: "no incoming value"@ }),
            ),
        },
        ExprView::Plus(x, y) => {
            let (s1, rx) = spec_eval(s, self_id, track, *x, chain, incoming);
            match rx {
                Err(e1) => (s1, Err(e1)),
                Ok(vx) => {
                    let (s2, ry) = spec_eval(s1, self_id, track, *y, chain, incoming);
                    match ry {
                        Err(e2) => (s2, Err(e2)),
                        Ok(vy) => (s2, spec_arith(self_id, true, vx, vy)),
                    }
                },
            }
        },
        ExprView::Times(x, y) => {
            let (s1, rx) = spec_eval(s, self_id, track, *x, chain, incoming);
            match rx {
                Err(e1) => (s1, Err(e1)),
                Ok(vx) => {
                    let (s2, ry) = spec_eval(s1, self_id, track, *y, chain, incoming);
                    match ry {
                        Err(e2) => (s2, Err(e2)),
                        Ok(vy) => (s2, spec_arith(self_id, false, vx, vy)),
                    }
                },
            }
        },
        ExprView::Cond(c, t, f) => {
            let (s1, rc) = spec_eval(s, self_id, track, *c, chain, incoming);
            match rc {
                Err(e1) => (s1, Err(e1)),
                Ok(vc) => match vc {
                    ValueView::VBool(b) => if b {
                        spec_eval(s1, self_id, track, *t, chain, incoming)
                    } else {
                        spec_eval(s1, self_id, track, *f, chain, incoming)
                    },
                    _ => (
                        s1,
                        Err(
                            ErrorView::TypeMismatch {
                                atom_id: self_id,
                                expected: "bool"@,
                                actual: shape_name(vc),
                            },
                        ),
                    ),
                },
            }
        },
        ExprView::Fail(m) => (s, Err(ErrorView::ReadError { atom_id: self_id, message: m })),
    }
}

/// The model of a store no operation has touched.
pub open spec fn empty_store_model() -> StoreModel {
    StoreModel {
        cells: Seq::empty(),
        registry: Seq::empty(),
        writables: Seq::empty(),
        mounts: Seq::empty(),
        invalidated: Seq::empty(),
        changed: Seq::empty(),
        notifications: Seq::empty(),
        lifecycle: Seq::empty(),
        hooks: Seq::empty(),
        next_listener: 1,
    }
}

/// A top-level read: the read path with an empty chain.
pub open spec fn spec_get(s: StoreModel, a: AtomView) -> (StoreModel, Result<
    ValueView,
    ErrorView,
>) {
    spec_read(s, a, Seq::empty())
}

// ---------------------------------------------------------------------------
// Invalidation: breadth-first over the dependent edges of mount records
// ---------------------------------------------------------------------------

/// The keys of an association sequence.
pub open spec fn keys_of<V>(s: Seq<(int, V)>) -> Seq<int> {
    s.map_values(|p: (int, V)| p.0)
}

/// How many keys are not yet marked.
pub open spec fn count_unmarked(keys: Seq<int>, marked: Seq<int>) -> nat
    decreases keys.len(),
{
    if keys.len() == 0 {
        0
    } else {
        count_unmarked(keys.drop_first(), marked) + if marked.contains(keys[0]) {
            0nat
        } else {
            1nat
        }
    }
}

/// Marking can only lower the count; marking a present, unmarked key
/// strictly lowers it.
pub proof fn lemma_count_unmarked_mark(keys: Seq<int>, marked: Seq<int>, k: int)
    ensures
        count_unmarked(keys, marked.push(k)) <= count_unmarked(keys, marked),
        keys.contains(k) && !marked.contains(k) ==> count_unmarked(keys, marked.push(k))
            < count_unmarked(keys, marked),
    decreases keys.len(),
{
    if keys.len() > 0 {
        lemma_count_unmarked_mark(keys.drop_first(), marked, k);
        if marked.contains(keys[0]) {
            assert(marked.push(k).contains(keys[0])) by {
                let i = choose|i: int| 0 <= i < marked.len() && marked[i] == keys[0];
                assert(marked.push(k)[i] == keys[0]);
            }
        }
        if keys.contains(k) && !marked.contains(k) {
            if keys[0] == k {
                assert(marked.push(k)[marked.len() as int] == k);
                assert(marked.push(k).contains(k));
            } else {
                let i = choose|i: int| 0 <= i < keys.len() && keys[i] == k;
                assert(keys.drop_first()[i - 1] == k);
                assert(keys.drop_first().contains(k));
            }
        }
    }
}

/// The first removable mount record (no listener, no dependent), if any.
pub open spec fn removable_index(mounts: Seq<(int, MountModel)>) -> Option<int>
    decreases mounts.len(),
{
    if mounts.len() == 0 {
        None
    } else if mounts[0].1.listeners.len() == 0 && mounts[0].1.dependents.len() == 0 {
        Some(0)
    } else {
        match removable_index(mounts.drop_first()) {
            Some(i) => Some(i + 1),
            None => None,
        }
    }
}

/// A first-match index decides removability.
pub proof fn lemma_removable_index_at_first(mounts: Seq<(int, MountModel)>, i: int)
    requires
        0 <= i < mounts.len(),
        mounts[i].1.listeners.len() == 0,
        mounts[i].1.dependents.len() == 0,
        forall|j: int|
            0 <= j < i ==> mounts[j].1.listeners.len() > 0 || mounts[j].1.dependents.len() > 0,
    ensures
        removable_index(mounts) == Some(i),
    decreases i,
{
    if i > 0 {
        assert(forall|j: int|
            0 <= j < i - 1 ==> mounts.drop_first()[j] == mounts[j + 1]);
        assert(mounts.drop_first()[i - 1] == mounts[i]);
        lemma_removable_index_at_first(mounts.drop_first(), i - 1);
    }
}

/// Without a removable record, the search is empty.
pub proof fn lemma_removable_index_absent(mounts: Seq<(int, MountModel)>)
    requires
        forall|j: int|
            0 <= j < mounts.len() ==> mounts[j].1.listeners.len() > 0
                || mounts[j].1.dependents.len() > 0,
    ensures
        removable_index(mounts) is None,
    decreases mounts.len(),
{
    if mounts.len() > 0 {
        assert(forall|j: int|
            0 <= j < mounts.drop_first().len() ==> mounts.drop_first()[j] == mounts[j + 1]);
        lemma_removable_index_absent(mounts.drop_first());
    }
}

pub proof fn lemma_removable_index_bounds(mounts: Seq<(int, MountModel)>)
    ensures
        removable_index(mounts) matches Some(i) ==> 0 <= i < mounts.len()
            && mounts[i].1.listeners.len() == 0 && mounts[i].1.dependents.len() == 0,
    decreases mounts.len(),
{
    if mounts.len() > 0 {
        lemma_removable_index_bounds(mounts.drop_first());
    }
}

/// The first occurrence of `x` removed from a token list.
pub open spec fn remove_token(s: Seq<u64>, x: u64) -> Seq<u64>
    decreases s.len(),
{
    if s.len() == 0 {
        s
    } else if s[0] == x {
        s.drop_first()
    } else {
        seq![s[0]] + remove_token(s.drop_first(), x)
    }
}

/// The first occurrence of `x` removed from an id list.
pub open spec fn remove_id(s: Seq<int>, x: int) -> Seq<int>
    decreases s.len(),
{
    if s.len() == 0 {
        s
    } else if s[0] == x {
        s.drop_first()
    } else {
        seq![s[0]] + remove_id(s.drop_first(), x)
    }
}

/// Marks every mounted, not yet invalidated node of `deps` as invalidated
/// and queues it for traversal.
pub open spec fn mark_new(s: StoreModel, work: Seq<int>, deps: Seq<int>) -> (StoreModel, Seq<int>)
    decreases deps.len(),
{
    if deps.len() == 0 {
        (s, work)
    } else {
        let d = deps[0];
        if assoc_has(s.mounts, d) && !s.invalidated.contains(d) {
            mark_new(
                StoreModel { invalidated: s.invalidated.push(d), ..s },
                work.push(d),
                deps.drop_first(),
            )
        } else {
            mark_new(s, work, deps.drop_first())
        }
    }
}

/// What marking does to the traversal measure.
pub proof fn lemma_mark_new(s: StoreModel, work: Seq<int>, deps: Seq<int>)
    ensures
        ({
            let (s1, w1) = mark_new(s, work, deps);
            &&& s1 == (StoreModel { invalidated: s1.invalidated, ..s })
            &&& w1.len() >= work.len()
            &&& count_unmarked(keys_of(s1.mounts), s1.invalidated) <= count_unmarked(
                keys_of(s.mounts),
                s.invalidated,
            )
            &&& (w1.len() == work.len() ==> s1 == s && w1 == work)
            &&& (w1.len() > work.len() ==> count_unmarked(keys_of(s1.mounts), s1.invalidated)
                < count_unmarked(keys_of(s.mounts), s.invalidated))
        }),
    decreases deps.len(),
{
    if deps.len() > 0 {
        let d = deps[0];
        if assoc_has(s.mounts, d) && !s.invalidated.contains(d) {
            let sm = StoreModel { invalidated: s.invalidated.push(d), ..s };
            lemma_mark_new(sm, work.push(d), deps.drop_first());
            assert(keys_of(s.mounts).contains(d)) by {
                let i = choose|i: int| 0 <= i < s.mounts.len() && s.mounts[i].0 == d;
                assert(keys_of(s.mounts)[i] == d);
            }
            lemma_count_unmarked_mark(keys_of(s.mounts), s.invalidated, d);
        } else {
            lemma_mark_new(s, work, deps.drop_first());
        }
    }
}

/// Breadth-first invalidation: take a node off the worklist and mark each
/// of its mounted, not yet invalidated dependents, until the list drains.
pub open spec fn spec_invalidate(s: StoreModel, work: Seq<int>) -> StoreModel
    decreases count_unmarked(keys_of(s.mounts), s.invalidated), work.len(),
    via spec_invalidate_dec
{
    if work.len() == 0 {
        s
    } else {
        let w = work.last();
        let rest = work.drop_last();
        match assoc_get(s.mounts, w) {
            None => spec_invalidate(s, rest),
            Some(mnt) => {
                let (s1, w1) = mark_new(s, rest, mnt.dependents);
                spec_invalidate(s1, w1)
            },
        }
    }
}

#[via_fn]
proof fn spec_invalidate_dec(s: StoreModel, work: Seq<int>) {
    if work.len() > 0 {
        let w = work.last();
        let rest = work.drop_last();
        match assoc_get(s.mounts, w) {
            None => {},
            Some(mnt) => {
                lemma_mark_new(s, rest, mnt.dependents);
            },
        }
    }
}

// ---------------------------------------------------------------------------
// The write path
// ---------------------------------------------------------------------------

/// The store after remembering `wa`'s behaviors (first registration wins)
/// and making sure it has a cell.
pub open spec fn register_writable(s: StoreModel, wa: WritableAtomView) -> StoreModel {
    let s1 = register_atom(s, wa.atom);
    let s2 = if assoc_has(s1.writables, wa.atom.id) {
        s1
    } else {
        StoreModel { writables: s1.writables.push((wa.atom.id, wa.write)), ..s1 }
    };
    match wa.on_mount {
        Some(t) => if assoc_has(s2.hooks, wa.atom.id) {
            s2
        } else {
            StoreModel { hooks: s2.hooks.push((wa.atom.id, t)), ..s2 }
        },
        None => s2,
    }
}

/// One direct mutation: store the value, grow the epoch, mark the node
/// changed, and invalidate its mounted dependents.
pub open spec fn apply_direct(s: StoreModel, id: int, v: ValueView) -> StoreModel {
    let c = cell_of(s, id);
    let s1 = set_cell(s, id, CellModel { epoch: bump_epoch(c.epoch), value: Some(Ok(v)), ..c });
    let s2 = if s1.changed.contains(id) {
        s1
    } else {
        StoreModel { changed: s1.changed.push(id), ..s1 }
    };
    spec_invalidate(s2, seq![id])
}

/// Structural measure of a write behavior tree.
pub open spec fn wa_height(wa: WritableAtomView) -> nat
    decreases wa,
{
    2 + wb_height(wa.write)
}

pub open spec fn wb_height(b: WriteBehaviorView) -> nat
    decreases b,
{
    match b {
        WriteBehaviorView::Direct => 0,
        WriteBehaviorView::Program(steps) => 1 + ws_height(steps),
    }
}

pub open spec fn ws_height(steps: Seq<WriteStepView>) -> nat
    decreases steps,
{
    if steps.len() == 0 {
        0
    } else {
        1 + wa_height(steps[0].target) + ws_height(steps.drop_first())
    }
}

/// Applying a writable atom's own write behavior to an incoming value:
/// directly for a primitive node, and by running its setter steps in
/// sequence otherwise. No flush happens here; the caller flushes once.
pub open spec fn spec_apply_write(s: StoreModel, wa: WritableAtomView, v: ValueView) -> (
    StoreModel,
    Result<(), ErrorView>,
)
    decreases wa_height(wa), 1nat,
{
    let s0 = register_writable(s, wa);
    match wa.write {
        WriteBehaviorView::Direct => (apply_direct(s0, wa.atom.id, v), Ok(())),
        WriteBehaviorView::Program(steps) => spec_run_steps(s0, wa.atom.id, steps, v),
    }
}

/// Runs setter steps in sequence: evaluate each step's expression with
/// `Arg` bound to the incoming value (reads untracked), then write the
/// result to the step's target. A failing step aborts the remaining steps;
/// mutations already applied stay (best-effort, not transactional).
pub open spec fn spec_run_steps(
    s: StoreModel,
    writer: int,
    steps: Seq<WriteStepView>,
    v: ValueView,
) -> (StoreModel, Result<(), ErrorView>)
    decreases ws_height(steps), 0nat,
{
    if steps.len() == 0 {
        (s, Ok(()))
    } else {
        let st = steps[0];
        let (s1, re) = spec_eval(s, st.target.atom.id, false, st.expr, Seq::empty(), Some(v));
        match re {
            Err(e) => (
                s1,
                Err(ErrorView::WriteError { atom_id: writer, message: crate::error::spec_message(e) }),
            ),
            Ok(val) => {
                let (s2, r2) = spec_apply_write(s1, st.target, val);
                match r2 {
                    Err(e2) => (s2, Err(e2)),
                    Ok(_) => spec_run_steps(s2, writer, steps.drop_first(), v),
                }
            },
        }
    }
}

/// A write through a writable atom: apply the write behavior, then flush.
pub open spec fn spec_set(s: StoreModel, wa: WritableAtomView, v: ValueView) -> (StoreModel, Result<
    (),
    ErrorView,
>) {
    let (s1, r) = spec_apply_write(s, wa, v);
    (spec_flush(s1), r)
}

/// A write addressed by id alone: the node must have a registered write
/// behavior, else nothing changes and the error says so.
pub open spec fn spec_set_dyn(s: StoreModel, id: int, v: ValueView) -> (StoreModel, Result<
    (),
    ErrorView,
>) {
    match assoc_get(s.writables, id) {
        None => (s, Err(ErrorView::NotWritable { atom_id: id })),
        Some(wb) => {
            let (s1, r) = match wb {
                WriteBehaviorView::Direct => (apply_direct(s, id, v), Ok(())),
                WriteBehaviorView::Program(steps) => spec_run_steps(s, id, steps, v),
            };
            (spec_flush(s1), r)
        },
    }
}

// ---------------------------------------------------------------------------
// The flush cycle
// ---------------------------------------------------------------------------

/// The cached outcomes the invalidated nodes held when the flush began.
pub open spec fn olds_of(s: StoreModel, ids: Seq<int>) -> Seq<
    Option<Result<ValueView, ErrorView>>,
> {
    Seq::new(ids.len(), |i: int| cell_of(s, ids[i]).value)
}

/// Removes `n` from the dependent set of `m`'s mount record, if one exists.
pub open spec fn remove_dependent_edge(s: StoreModel, m: int, n: int) -> StoreModel {
    match assoc_get(s.mounts, m) {
        None => s,
        Some(mnt) => StoreModel {
            mounts: assoc_set(
                s.mounts,
                m,
                MountModel { dependents: remove_id(mnt.dependents, n), ..mnt },
            ),
            ..s
        },
    }
}

/// Removes `n` from the dependent sets of the old dependencies it no
/// longer reads.
pub open spec fn drop_stale_edges(s: StoreModel, olds: Seq<int>, keep: Seq<int>, n: int) -> StoreModel
    decreases olds.len(),
{
    if olds.len() == 0 {
        s
    } else {
        let s1 = if keep.contains(olds[0]) {
            s
        } else {
            remove_dependent_edge(s, olds[0], n)
        };
        drop_stale_edges(s1, olds.drop_first(), keep, n)
    }
}

/// Refreshes a mounted node's edges after a recompute: its newly recorded
/// dependencies are mounted (transitively) and gain it as a dependent, its
/// record's dependency set is replaced, and dependencies it no longer
/// reads lose the edge. An unmounted node needs no bookkeeping.
pub open spec fn refresh_mount_edges(s: StoreModel, a: AtomView) -> StoreModel {
    if assoc_has(s.mounts, a.id) {
        let new_deps = cell_of(s, a.id).deps;
        let s1 = spec_mount_deps(s, a, new_deps);
        match assoc_get(s1.mounts, a.id) {
            None => s1,
            Some(m) => {
                let s2 = StoreModel {
                    mounts: assoc_set(
                        s1.mounts,
                        a.id,
                        MountModel { deps: dep_ids(new_deps), ..m },
                    ),
                    ..s1
                };
                drop_stale_edges(s2, m.deps, dep_ids(new_deps), a.id)
            },
        }
    } else {
        s
    }
}

/// Recomputes each invalidated node through the read path (which brings
/// dependencies up to date first and recomputes each node at most once),
/// marks a node changed when its outcome differs from what it held when
/// the flush began, and refreshes the mount edges of recomputed mounted
/// nodes so invalidation keeps following what is actually read.
pub open spec fn spec_flush_recompute(
    s: StoreModel,
    ids: Seq<int>,
    olds: Seq<Option<Result<ValueView, ErrorView>>>,
) -> StoreModel
    decreases ids.len(),
{
    if ids.len() == 0 || olds.len() == 0 {
        s
    } else {
        let id = ids[0];
        let s2 = match assoc_get(s.registry, id) {
            None => s,
            Some(a) => {
                let (s1, _r) = spec_read(s, a, Seq::empty());
                let sc = if cell_of(s1, id).value == olds[0] || s1.changed.contains(id) {
                    s1
                } else {
                    StoreModel { changed: s1.changed.push(id), ..s1 }
                };
                refresh_mount_edges(sc, a)
            },
        };
        spec_flush_recompute(s2, ids.drop_first(), olds.drop_first())
    }
}

/// Queues the listeners of every changed, mounted node, in order.
pub open spec fn spec_notify(s: StoreModel, ids: Seq<int>) -> StoreModel
    decreases ids.len(),
{
    if ids.len() == 0 {
        s
    } else {
        let s1 = match assoc_get(s.mounts, ids[0]) {
            None => s,
            Some(mnt) => StoreModel { notifications: s.notifications + mnt.listeners, ..s },
        };
        spec_notify(s1, ids.drop_first())
    }
}

/// One flush cycle: recompute what a write invalidated, queue the
/// listeners of every node whose value actually changed, unmount records
/// the edge refresh left unreferenced, and drain the cycle's working sets.
pub open spec fn spec_flush(s: StoreModel) -> StoreModel {
    let s1 = spec_flush_recompute(s, s.invalidated, olds_of(s, s.invalidated));
    let s2 = spec_notify(s1, s1.changed);
    let s3 = spec_sweep(s2);
    StoreModel { invalidated: Seq::empty(), changed: Seq::empty(), ..s3 }
}

// ---------------------------------------------------------------------------
// Mounting and subscriptions
// ---------------------------------------------------------------------------

/// The ids of a dependency record.
pub open spec fn dep_ids(deps: Seq<(int, nat)>) -> Seq<int> {
    deps.map_values(|p: (int, nat)| p.0)
}

/// Adds `n` to the dependent set of `m`'s mount record, if one exists.
pub open spec fn add_dependent_edge(s: StoreModel, m: int, n: int) -> StoreModel {
    match assoc_get(s.mounts, m) {
        None => s,
        Some(mnt) => if mnt.dependents.contains(n) {
            s
        } else {
            StoreModel {
                mounts: assoc_set(
                    s.mounts,
                    m,
                    MountModel { dependents: mnt.dependents.push(n), ..mnt },
                ),
                ..s
            }
        },
    }
}

/// Mounts `a`: creates its record (queueing its hook event), then
/// transitively mounts its recorded dependencies and records the edges.
pub open spec fn spec_mount(s: StoreModel, a: AtomView) -> StoreModel
    decreases atom_height(a), 1nat, 0nat,
{
    if assoc_has(s.mounts, a.id) {
        s
    } else {
        let record = MountModel {
            listeners: Seq::empty(),
            deps: dep_ids(cell_of(s, a.id).deps),
            dependents: Seq::empty(),
            cleanup: assoc_get(s.hooks, a.id),
        };
        let s1 = StoreModel {
            mounts: s.mounts.push((a.id, record)),
            lifecycle: match assoc_get(s.hooks, a.id) {
                Some(t) => s.lifecycle.push((t, true)),
                None => s.lifecycle,
            },
            ..s
        };
        spec_mount_deps(s1, a, cell_of(s, a.id).deps)
    }
}

/// Mounts each recorded dependency of `a` and adds `a` to its dependents.
pub open spec fn spec_mount_deps(s: StoreModel, a: AtomView, deps: Seq<(int, nat)>) -> StoreModel
    decreases atom_height(a), 0nat, deps.len(),
    via spec_mount_deps_dec
{
    if deps.len() == 0 {
        s
    } else {
        let d = deps[0].0;
        match find_in_atom(a, d) {
            None => spec_mount_deps(s, a, deps.drop_first()),
            Some(da) => {
                let s1 = spec_mount(s, da);
                let s2 = add_dependent_edge(s1, d, a.id);
                spec_mount_deps(s2, a, deps.drop_first())
            },
        }
    }
}

#[via_fn]
proof fn spec_mount_deps_dec(s: StoreModel, a: AtomView, deps: Seq<(int, nat)>) {
    if deps.len() > 0 {
        lemma_find_height_atom(a, deps[0].0);
    }
}

/// Unmounts, one at a time, every record that has no listener and no
/// dependent, removing its edges from the remaining records and queueing
/// its cleanup event, until every record is held by a listener or a
/// mounted dependent.
pub open spec fn spec_sweep(s: StoreModel) -> StoreModel
    decreases s.mounts.len(),
    via spec_sweep_dec
{
    match removable_index(s.mounts) {
        None => s,
        Some(i) => {
            let n = s.mounts[i].0;
            let record = s.mounts[i].1;
            let s1 = StoreModel {
                mounts: drop_dependent_everywhere(s.mounts.remove(i), n),
                lifecycle: match record.cleanup {
                    Some(t) => s.lifecycle.push((t, false)),
                    None => s.lifecycle,
                },
                ..s
            };
            spec_sweep(s1)
        },
    }
}

#[via_fn]
proof fn spec_sweep_dec(s: StoreModel) {
    lemma_removable_index_bounds(s.mounts);
}

/// Removes `n` from every record's dependent set.
pub open spec fn drop_dependent_everywhere(mounts: Seq<(int, MountModel)>, n: int) -> Seq<(
    int,
    MountModel,
)> {
    mounts.map_values(
        |p: (int, MountModel)|
            (p.0, MountModel { dependents: remove_id(p.1.dependents, n), ..p.1 }),
    )
}

/// A subscription: bring the node up to date, mount it (and, transitively,
/// what it reads), register a fresh listener token on it, and run a flush
/// so any pending work settles before the handle is returned.
pub open spec fn spec_sub(s: StoreModel, a: AtomView) -> (StoreModel, nat) {
    let (s1, _r) = spec_read(s, a, Seq::empty());
    let s2 = spec_mount(s1, a);
    let token = s2.next_listener;
    let s3 = match assoc_get(s2.mounts, a.id) {
        Some(m) => StoreModel {
            mounts: assoc_set(
                s2.mounts,
                a.id,
                MountModel { listeners: m.listeners.push(token as u64), ..m },
            ),
            next_listener: bump_epoch(s2.next_listener),
            ..s2
        },
        None => s2,
    };
    (spec_flush(s3), token)
}

/// Removing a subscription: drop one occurrence of the token, then sweep
/// records that are no longer held. Nothing happens when the node has no
/// record or the token is not registered, so the operation is idempotent.
pub open spec fn spec_unsub(s: StoreModel, id: int, token: u64) -> StoreModel {
    match assoc_get(s.mounts, id) {
        None => s,
        Some(m) => spec_sweep(
            StoreModel {
                mounts: assoc_set(
                    s.mounts,
                    id,
                    MountModel { listeners: remove_token(m.listeners, token), ..m },
                ),
                ..s
            },
        ),
    }
}

/// Checked integer arithmetic on two evaluated operands.
pub open spec fn spec_arith(self_id: int, is_plus: bool, vx: ValueView, vy: ValueView) -> Result<
    ValueView,
    ErrorView,
> {
    match (vx, vy) {
        (ValueView::VInt(a), ValueView::VInt(b)) => {
            let v = if is_plus {
                a + b
            } else {
                a * b
            };
            if i64::MIN as int <= v <= i64::MAX as int {
                Ok(ValueView::VInt(v))
            } else {
                Err(ErrorView::ReadError { atom_id: self_id, message: "integer overflow"@ })
            }
        },
        (ValueView::VInt(_), _) => Err(
            ErrorView::TypeMismatch { atom_id: self_id, expected: "i64"@, actual: shape_name(vy) },
        ),
        _ => Err(
            ErrorView::TypeMismatch { atom_id: self_id, expected: "i64"@, actual: shape_name(vx) },
        ),
    }
}

} // verus!
