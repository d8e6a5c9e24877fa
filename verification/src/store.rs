//! The store: the runtime that owns every node's state.
//!
//! Reads go through a lazy, epoch-checked path: a cached value is reused
//! exactly when every dependency recorded by the last computation, once
//! brought up to date itself, still has the epoch recorded for it;
//! otherwise the node's expression is re-evaluated, dependencies are
//! re-recorded from scratch, and the node's epoch grows by one.
//!
//! Every operation is proved to refine the corresponding function of
//! [`crate::model`], stated over the store's view.

use vstd::prelude::*;

use crate::atom::{
    atom_view, Atom, AtomId, AtomView, EpochNumber, Expr, ReadBehavior, WriteBehavior,
    WritableAtom, write_behavior_view, WriteBehaviorView,
};
use crate::error::{AtomError, ErrorView};
use crate::internals::{deps_view, ids_view, outcome_view, AtomState, Mounted};
use crate::atom::{lemma_write_steps_view, write_step_view, write_steps_view, WriteStep};
use crate::model::{
    assoc_get, assoc_has, bump_epoch, cell_of, count_unmarked, empty_store_model, ensure_cell,
    expr_height, atom_height, find_in_atom, find_in_expr, keys_of, lemma_assoc_get_absent,
    lemma_assoc_get_at_first, lemma_assoc_get_has, lemma_assoc_set_absent,
    lemma_assoc_set_at_first, lemma_find_height_atom, lemma_mark_new, mark_new, record_dep,
    register_atom, set_cell, shape_name, spec_apply_write, spec_arith, spec_eval, spec_flush,
    spec_flush_recompute, spec_get, spec_invalidate, spec_notify, spec_read, spec_recompute,
    spec_revalidate, spec_run_steps, spec_set, spec_set_dyn, wa_height, ws_height, CellModel,
    MountModel, StoreModel,
};
use crate::value::{Value, ValueView};

verus! {

/// The view of a result a read hands back.
pub open spec fn res_view(r: Result<Value, AtomError>) -> Result<ValueView, ErrorView> {
    match r {
        Ok(v) => Ok(v@),
        Err(e) => Err(e@),
    }
}

/// The view of an optional incoming value.
pub open spec fn opt_value_view(v: Option<&Value>) -> Option<ValueView> {
    match v {
        Some(x) => Some(x@),
        None => None,
    }
}

/// The view of a result a write hands back.
pub open spec fn unit_res_view(r: Result<(), AtomError>) -> Result<(), ErrorView> {
    match r {
        Ok(_) => Ok(()),
        Err(e) => Err(e@),
    }
}

/// The views of a list of captured outcomes.
pub open spec fn olds_view(s: Seq<Option<Result<Value, AtomError>>>) -> Seq<
    Option<Result<ValueView, ErrorView>>,
> {
    s.map_values(|o: Option<Result<Value, AtomError>>| outcome_view(o))
}

/// Equality of two errors, decided at the level of their views.
fn error_eq(a: &AtomError, b: &AtomError) -> (r: bool)
    ensures
        r == (a@ == b@),
{
    match (a, b) {
        (
            AtomError::Uninitialized { atom_id: i1 },
            AtomError::Uninitialized { atom_id: i2 },
        ) => i1 == i2,
        (
            AtomError::TypeMismatch { atom_id: i1, expected: e1, actual: a1 },
            AtomError::TypeMismatch { atom_id: i2, expected: e2, actual: a2 },
        ) => {
            let ex1: String = (*e1).to_owned();
            let ex2: String = (*e2).to_owned();
            i1 == i2 && ex1.eq(&ex2) && a1.eq(a2)
        },
        (
            AtomError::CircularDependency { atom_id: i1, dependency_chain: c1 },
            AtomError::CircularDependency { atom_id: i2, dependency_chain: c2 },
        ) => i1 == i2 && ids_eq(c1, c2),
        (
            AtomError::ReadError { atom_id: i1, message: m1 },
            AtomError::ReadError { atom_id: i2, message: m2 },
        ) => i1 == i2 && m1.eq(m2),
        (
            AtomError::WriteError { atom_id: i1, message: m1 },
            AtomError::WriteError { atom_id: i2, message: m2 },
        ) => i1 == i2 && m1.eq(m2),
        (
            AtomError::NotWritable { atom_id: i1 },
            AtomError::NotWritable { atom_id: i2 },
        ) => i1 == i2,
        (
            AtomError::AsyncError { atom_id: i1, message: m1 },
            AtomError::AsyncError { atom_id: i2, message: m2 },
        ) => i1 == i2 && m1.eq(m2),
        (AtomError::Cancelled { atom_id: i1 }, AtomError::Cancelled { atom_id: i2 }) => i1 == i2,
        (
            AtomError::StoreError { message: m1 },
            AtomError::StoreError { message: m2 },
        ) => m1.eq(m2),
        (AtomError::Generic(m1), AtomError::Generic(m2)) => m1.eq(m2),
        _ => false,
    }
}

/// Equality of two id lists, element by element.
fn ids_eq(a: &Vec<AtomId>, b: &Vec<AtomId>) -> (r: bool)
    ensures
        r == (ids_view(a@) == ids_view(b@)),
{
    if a.len() != b.len() {
        proof {
            assert(ids_view(a@).len() != ids_view(b@).len());
        }
        return false;
    }
    let mut i: usize = 0;
    while i < a.len()
        invariant
            i <= a.len(),
            a@.len() == b@.len(),
            forall|j: int| 0 <= j < i as int ==> ids_view(a@)[j] == ids_view(b@)[j],
        decreases a.len() - i,
    {
        if a[i] != b[i] {
            proof {
                assert(ids_view(a@)[i as int] != ids_view(b@)[i as int]);
            }
            return false;
        }
        i = i + 1;
    }
    proof {
        assert(ids_view(a@) =~= ids_view(b@));
    }
    true
}

/// Equality of two cached outcomes, decided at the level of their views.
fn outcome_eq(a: &Option<Result<Value, AtomError>>, b: &Option<Result<Value, AtomError>>) -> (r:
    bool)
    ensures
        r == (outcome_view(*a) == outcome_view(*b)),
{
    match (a, b) {
        (None, None) => true,
        (Some(Ok(x)), Some(Ok(y))) => x.value_eq(y),
        (Some(Err(x)), Some(Err(y))) => error_eq(x, y),
        _ => false,
    }
}

pub open spec fn cells_table_view(s: Seq<(AtomId, AtomState)>) -> Seq<(int, CellModel)> {
    s.map_values(|p: (AtomId, AtomState)| (p.0 as int, p.1@))
}

pub open spec fn registry_table_view(s: Seq<(AtomId, Atom<Value>)>) -> Seq<(int, AtomView)> {
    s.map_values(|p: (AtomId, Atom<Value>)| (p.0 as int, atom_view(p.1)))
}

pub open spec fn writables_table_view(s: Seq<(AtomId, WriteBehavior)>) -> Seq<(
    int,
    WriteBehaviorView,
)> {
    s.map_values(|p: (AtomId, WriteBehavior)| (p.0 as int, write_behavior_view(p.1)))
}

pub open spec fn mounts_table_view(s: Seq<(AtomId, Mounted)>) -> Seq<(int, MountModel)> {
    s.map_values(|p: (AtomId, Mounted)| (p.0 as int, p.1@))
}

pub open spec fn hooks_table_view(s: Seq<(AtomId, u64)>) -> Seq<(int, u64)> {
    s.map_values(|p: (AtomId, u64)| (p.0 as int, p.1))
}

/// The store: per-node state cells, the behaviors it has seen, mount
/// records for observed nodes, and the queues one flush cycle fills.
///
/// A state cell is created on a node's first read or write and kept for
/// the store's lifetime (retention is unbounded); a mount record exists
/// only while its node is observed, directly or transitively.
#[derive(Debug)]
pub struct Store {
    /// Per-node state, keyed by atom id.
    pub cells: Vec<(AtomId, AtomState)>,
    /// Read behaviors seen so far, keyed by atom id.
    pub registry: Vec<(AtomId, Atom<Value>)>,
    /// Write behaviors seen so far, keyed by atom id.
    pub writables: Vec<(AtomId, WriteBehavior)>,
    /// Mount records of observed nodes, keyed by atom id.
    pub mounted: Vec<(AtomId, Mounted)>,
    /// Mounted nodes made stale by the current write, pending recompute.
    pub invalidated: Vec<AtomId>,
    /// Nodes whose value changed in the current cycle.
    pub changed: Vec<AtomId>,
    /// Listener tokens fired by finished flushes; the caller drains them.
    pub notifications: Vec<u64>,
    /// Mount-hook events: `(token, true)` on mount, `(token, false)` on cleanup.
    pub lifecycle: Vec<(u64, bool)>,
    /// Mount-hook tokens seen so far, keyed by atom id.
    pub hooks: Vec<(AtomId, u64)>,
    /// The next listener token to hand out.
    pub next_listener: u64,
}

impl View for Store {
    type V = StoreModel;

    open spec fn view(&self) -> StoreModel {
        StoreModel {
            cells: cells_table_view(self.cells@),
            registry: registry_table_view(self.registry@),
            writables: writables_table_view(self.writables@),
            mounts: mounts_table_view(self.mounted@),
            invalidated: ids_view(self.invalidated@),
            changed: ids_view(self.changed@),
            notifications: self.notifications@,
            lifecycle: self.lifecycle@,
            hooks: hooks_table_view(self.hooks@),
            next_listener: self.next_listener as nat,
        }
    }
}

/// Clones a read outcome; the copy has the same view.
fn clone_outcome(r: &Result<Value, AtomError>) -> (out: Result<Value, AtomError>)
    ensures
        res_view(out) == res_view(*r),
{
    match r {
        Ok(v) => Ok(v.clone()),
        Err(e) => Err(e.clone()),
    }
}

/// Copies a dependency record.
fn copy_deps(src: &Vec<(AtomId, EpochNumber)>) -> (out: Vec<(AtomId, EpochNumber)>)
    ensures
        out@ == src@,
{
    let mut out: Vec<(AtomId, EpochNumber)> = Vec::new();
    let mut i: usize = 0;
    while i < src.len()
        invariant
            i <= src.len(),
            out@ == src@.take(i as int),
        decreases src.len() - i,
    {
        out.push(src[i]);
        i = i + 1;
    }
    proof {
        assert(out@ =~= src@);
    }
    out
}

/// Copies an id list.
pub(crate) fn copy_ids(src: &Vec<AtomId>) -> (out: Vec<AtomId>)
    ensures
        out@ == src@,
{
    let mut out: Vec<AtomId> = Vec::new();
    let mut i: usize = 0;
    while i < src.len()
        invariant
            i <= src.len(),
            out@ == src@.take(i as int),
        decreases src.len() - i,
    {
        out.push(src[i]);
        i = i + 1;
    }
    proof {
        assert(out@ =~= src@);
    }
    out
}

/// Whether the dependency record holds node `m`.
fn deps_contain(v: &Vec<(AtomId, EpochNumber)>, m: AtomId) -> (r: bool)
    ensures
        r == crate::model::has_dep(deps_view(v@), m as int),
{
    let mut j: usize = 0;
    while j < v.len()
        invariant
            j <= v.len(),
            forall|q: int| 0 <= q < j as int ==> v@[q].0 != m,
        decreases v.len() - j,
    {
        if v[j].0 == m {
            proof {
                assert(deps_view(v@)[j as int].0 == m as int);
            }
            return true;
        }
        j = j + 1;
    }
    proof {
        if crate::model::has_dep(deps_view(v@), m as int) {
            let q = choose|q: int|
                0 <= q < deps_view(v@).len() && deps_view(v@)[q].0 == m as int;
            assert(v@[q].0 == m);
        }
    }
    false
}

/// The next epoch, capped at the counter's range.
fn bump(e: EpochNumber) -> (r: EpochNumber)
    ensures
        r as nat == bump_epoch(e as nat),
{
    if e < u64::MAX {
        e + 1
    } else {
        e
    }
}

/// The shape name of a value, for mismatch messages.
fn shape_label(v: &Value) -> (r: &'static str)
    ensures
        r@ == shape_name(v@),
{
    match v {
        Value::Int(_) => "i64",
        Value::Bool(_) => "bool",
        Value::Str(_) => "String",
    }
}

/// The atom with id `id` embedded in `e`, if any.
fn find_in_expr_exec<'a>(e: &'a Expr, id: AtomId) -> (r: Option<&'a Atom<Value>>)
    ensures
        r is Some ==> find_in_expr(e@, id as int) == Some(r->Some_0@),
        r is None ==> find_in_expr(e@, id as int) is None,
    decreases e,
{
    match e {
        Expr::Read(a) => {
            if a.id == id {
                Some(&**a)
            } else {
                find_in_atom_exec(&**a, id)
            }
        },
        Expr::Plus(x, y) => {
            match find_in_expr_exec(&**x, id) {
                Some(m) => Some(m),
                None => find_in_expr_exec(&**y, id),
            }
        },
        Expr::Times(x, y) => {
            match find_in_expr_exec(&**x, id) {
                Some(m) => Some(m),
                None => find_in_expr_exec(&**y, id),
            }
        },
        Expr::Cond(c, t, f) => {
            match find_in_expr_exec(&**c, id) {
                Some(m) => Some(m),
                None => match find_in_expr_exec(&**t, id) {
                    Some(m) => Some(m),
                    None => find_in_expr_exec(&**f, id),
                },
            }
        },
        _ => None,
    }
}

/// The atom with id `id` embedded in `a`'s read behavior, if any.
fn find_in_atom_exec<'a>(a: &'a Atom<Value>, id: AtomId) -> (r: Option<&'a Atom<Value>>)
    ensures
        r is Some ==> find_in_atom(a@, id as int) == Some(r->Some_0@),
        r is None ==> find_in_atom(a@, id as int) is None,
    decreases a,
{
    match &a.read {
        ReadBehavior::Primitive => None,
        ReadBehavior::Derived(e) => find_in_expr_exec(e, id),
    }
}

/// Checked integer arithmetic on two evaluated operands.
fn arith(self_id: AtomId, is_plus: bool, vx: &Value, vy: &Value) -> (r: Result<Value, AtomError>)
    ensures
        res_view(r) == spec_arith(self_id as int, is_plus, vx@, vy@),
{
    match (vx, vy) {
        (Value::Int(a), Value::Int(b)) => {
            let sum = if is_plus {
                a.checked_add(*b)
            } else {
                a.checked_mul(*b)
            };
            match sum {
                Some(v) => Ok(Value::Int(v)),
                None => Err(
                    AtomError::ReadError {
                        atom_id: self_id,
                        message: "integer overflow".to_owned(),
                    },
                ),
            }
        },
        (Value::Int(_), other) => Err(
            AtomError::TypeMismatch {
                atom_id: self_id,
                expected: "i64",
                actual: shape_label(other).to_owned(),
            },
        ),
        (other, _) => Err(
            AtomError::TypeMismatch {
                atom_id: self_id,
                expected: "i64",
                actual: shape_label(other).to_owned(),
            },
        ),
    }
}

impl Store {
    /// A store with no state at all.
    pub fn new() -> (r: Store)
        ensures
            r@ == empty_store_model(),
    {
        let r = Store {
            cells: Vec::new(),
            registry: Vec::new(),
            writables: Vec::new(),
            mounted: Vec::new(),
            invalidated: Vec::new(),
            changed: Vec::new(),
            notifications: Vec::new(),
            lifecycle: Vec::new(),
            hooks: Vec::new(),
            next_listener: 1,
        };
        proof {
            assert(r@.cells =~= empty_store_model().cells);
            assert(r@.registry =~= empty_store_model().registry);
            assert(r@.writables =~= empty_store_model().writables);
            assert(r@.mounts =~= empty_store_model().mounts);
            assert(r@.invalidated =~= empty_store_model().invalidated);
            assert(r@.changed =~= empty_store_model().changed);
            assert(r@.hooks =~= empty_store_model().hooks);
        }
        r
    }

    /// The index of node `id`'s cell, by first match.
    fn cell_index(&self, id: AtomId) -> (r: Option<usize>)
        ensures
            match r {
                Some(i) => i < self.cells@.len() && self.cells@[i as int].0 == id && (forall|
                    j: int,
                |
                    0 <= j < i as int ==> self.cells@[j].0 != id) && assoc_get(
                    self@.cells,
                    id as int,
                ) == Some(self.cells@[i as int].1@),
                None => !assoc_has(self@.cells, id as int) && assoc_get(self@.cells, id as int)
                    is None,
            },
    {
        let mut i: usize = 0;
        while i < self.cells.len()
            invariant
                i <= self.cells.len(),
                forall|j: int| 0 <= j < i as int ==> self.cells@[j].0 != id,
            decreases self.cells.len() - i,
        {
            if self.cells[i].0 == id {
                proof {
                    assert(cells_table_view(self.cells@)[i as int] == (id as int,
                    self.cells@[i as int].1@));
                    assert(forall|j: int|
                        0 <= j < i as int ==> cells_table_view(self.cells@)[j].0 != id as int);
                    lemma_assoc_get_at_first(cells_table_view(self.cells@), id as int, i as int);
                }
                return Some(i);
            }
            i = i + 1;
        }
        proof {
            assert(forall|j: int|
                0 <= j < self.cells@.len() ==> cells_table_view(self.cells@)[j].0 != id as int);
            lemma_assoc_get_absent(cells_table_view(self.cells@), id as int);
            lemma_assoc_get_has(cells_table_view(self.cells@), id as int);
        }
        None
    }

    /// Replaces (or creates) node `id`'s cell.
    fn put_cell(&mut self, id: AtomId, st: AtomState)
        ensures
            final(self)@ == set_cell(old(self)@, id as int, st@),
    {
        let ghost pre = self@.cells;
        match self.cell_index(id) {
            Some(i) => {
                proof {
                    lemma_assoc_set_at_first(pre, id as int, st@, i as int);
                }
                self.cells.set(i, (id, st));
                proof {
                    assert(final(self)@.cells =~= pre.update(i as int, (id as int, st@)));
                }
            },
            None => {
                proof {
                    assert(forall|j: int| 0 <= j < pre.len() ==> pre[j].0 != id as int) by {
                        lemma_assoc_get_has(pre, id as int);
                        assert forall|j: int| 0 <= j < pre.len() implies pre[j].0 != id as int by {
                            if pre[j].0 == id as int {
                                assert(assoc_has(pre, id as int));
                            }
                        }
                    }
                    lemma_assoc_set_absent(pre, id as int, st@);
                }
                self.cells.push((id, st));
                proof {
                    assert(final(self)@.cells =~= pre.push((id as int, st@)));
                }
            },
        }
    }

    /// Makes sure node `id` has a cell.
    fn ensure_cell_exec(&mut self, id: AtomId)
        ensures
            final(self)@ == ensure_cell(old(self)@, id as int),
    {
        match self.cell_index(id) {
            Some(i) => {
                proof {
                    assert(self@.cells[i as int].0 == id as int);
                    assert(assoc_has(self@.cells, id as int));
                }
            },
            None => {
                let ghost pre = self@.cells;
                self.cells.push((id, AtomState::new()));
                proof {
                    assert(final(self)@.cells =~= pre.push((id as int, crate::model::empty_cell())));
                }
            },
        }
    }

    /// Whether `a`'s id is already registered.
    fn registry_has(&self, id: AtomId) -> (r: bool)
        ensures
            r == assoc_has(self@.registry, id as int),
    {
        let mut i: usize = 0;
        while i < self.registry.len()
            invariant
                i <= self.registry.len(),
                forall|j: int| 0 <= j < i as int ==> self.registry@[j].0 != id,
            decreases self.registry.len() - i,
        {
            if self.registry[i].0 == id {
                proof {
                    assert(self@.registry[i as int].0 == id as int);
                }
                return true;
            }
            i = i + 1;
        }
        proof {
            assert(!assoc_has(self@.registry, id as int)) by {
                if assoc_has(self@.registry, id as int) {
                    let j = choose|j: int|
                        0 <= j < self@.registry.len() && self@.registry[j].0 == id as int;
                    assert(self.registry@[j].0 == id);
                }
            }
        }
        false
    }

    /// Remembers `a`'s behavior (first registration wins) and makes sure it
    /// has a cell.
    fn register(&mut self, a: &Atom<Value>)
        ensures
            final(self)@ == register_atom(old(self)@, a@),
    {
        if !self.registry_has(a.id) {
            let ghost pre = self@.registry;
            let copy = a.clone();
            proof {
                lemma_clone_atom_view(*a, copy);
            }
            self.registry.push((a.id, copy));
            proof {
                assert(self@.registry =~= pre.push((a.id as int, a@)));
            }
        }
        self.ensure_cell_exec(a.id);
    }

    /// The current epoch of node `id` (zero when it has no cell).
    fn cell_epoch(&self, id: AtomId) -> (r: EpochNumber)
        ensures
            r as nat == cell_of(self@, id as int).epoch,
    {
        match self.cell_index(id) {
            Some(i) => self.cells[i].1.epoch,
            None => 0,
        }
    }

    /// Whether node `id` holds a cached outcome.
    fn cell_has_value(&self, id: AtomId) -> (r: bool)
        ensures
            r == (cell_of(self@, id as int).value is Some),
    {
        match self.cell_index(id) {
            Some(i) => self.cells[i].1.value.is_some(),
            None => false,
        }
    }

    /// A copy of node `id`'s cached outcome.
    fn cell_value_clone(&self, id: AtomId) -> (r: Option<Result<Value, AtomError>>)
        ensures
            outcome_view(r) == cell_of(self@, id as int).value,
    {
        match self.cell_index(id) {
            Some(i) => match &self.cells[i].1.value {
                Some(o) => Some(clone_outcome(o)),
                None => None,
            },
            None => None,
        }
    }

    /// A copy of node `id`'s recorded dependencies.
    fn cell_deps_snapshot(&self, id: AtomId) -> (r: Vec<(AtomId, EpochNumber)>)
        ensures
            deps_view(r@) == cell_of(self@, id as int).deps,
    {
        match self.cell_index(id) {
            Some(i) => copy_deps(&self.cells[i].1.dependencies),
            None => {
                proof {
                    assert(deps_view(Seq::<(AtomId, EpochNumber)>::empty())
                        =~= Seq::<(int, nat)>::empty());
                }
                Vec::new()
            },
        }
    }

    /// Drops node `id`'s recorded dependencies, keeping value and epoch.
    fn clear_cell_deps(&mut self, id: AtomId)
        ensures
            final(self)@ == set_cell(
                old(self)@,
                id as int,
                CellModel { deps: Seq::empty(), ..cell_of(old(self)@, id as int) },
            ),
    {
        let st = match self.cell_index(id) {
            Some(i) => {
                let cell = &self.cells[i].1;
                AtomState {
                    dependencies: Vec::new(),
                    epoch: cell.epoch,
                    value: match &cell.value {
                        Some(o) => Some(clone_outcome(o)),
                        None => None,
                    },
                }
            },
            None => AtomState::new(),
        };
        proof {
            assert(deps_view(Seq::<(AtomId, EpochNumber)>::empty()) =~= Seq::<(int, nat)>::empty());
        }
        self.put_cell(id, st);
    }

    /// Captures a computation's outcome into node `id`'s cell and grows the
    /// epoch, keeping the dependencies the computation recorded.
    fn capture_outcome(&mut self, id: AtomId, r: Result<Value, AtomError>)
        ensures
            final(self)@ == set_cell(
                old(self)@,
                id as int,
                CellModel {
                    epoch: bump_epoch(cell_of(old(self)@, id as int).epoch),
                    value: Some(res_view(r)),
                    ..cell_of(old(self)@, id as int)
                },
            ),
    {
        let (epoch, deps) = match self.cell_index(id) {
            Some(i) => {
                let cell = &self.cells[i].1;
                (cell.epoch, copy_deps(&cell.dependencies))
            },
            None => {
                proof {
                    assert(deps_view(Seq::<(AtomId, EpochNumber)>::empty())
                        =~= Seq::<(int, nat)>::empty());
                }
                (0u64, Vec::new())
            },
        };
        let st = AtomState { dependencies: deps, epoch: bump(epoch), value: Some(r) };
        self.put_cell(id, st);
    }

    /// Records into `n`'s cell that it read `m` at `m`'s current epoch; a
    /// dependency already recorded during this computation is kept as it is.
    fn record_dep_exec(&mut self, n: AtomId, m: AtomId)
        ensures
            final(self)@ == record_dep(old(self)@, n as int, m as int),
    {
        let epoch_m = self.cell_epoch(m);
        let (mut st, already) = match self.cell_index(n) {
            Some(i) => {
                let cell = &self.cells[i].1;
                let found = deps_contain(&cell.dependencies, m);
                (
                    AtomState {
                        dependencies: copy_deps(&cell.dependencies),
                        epoch: cell.epoch,
                        value: match &cell.value {
                            Some(o) => Some(clone_outcome(o)),
                            None => None,
                        },
                    },
                    found,
                )
            },
            None => {
                proof {
                    assert(deps_view(Seq::<(AtomId, EpochNumber)>::empty())
                        =~= Seq::<(int, nat)>::empty());
                }
                (AtomState::new(), false)
            },
        };
        if !already {
            st.dependencies.push((m, epoch_m));
            proof {
                assert(st@.deps =~= cell_of(old(self)@, n as int).deps.push(
                    (m as int, epoch_m as nat),
                ));
            }
            self.put_cell(n, st);
        }
    }

    /// Reads node `a` through the read path; `chain` holds the node ids
    /// currently being computed, for cycle reporting.
    fn read_node(&mut self, a: &Atom<Value>, chain: &mut Vec<AtomId>) -> (r: Result<
        Value,
        AtomError,
    >)
        ensures
            final(self)@ == spec_read(old(self)@, a@, ids_view(old(chain)@)).0,
            res_view(r) == spec_read(old(self)@, a@, ids_view(old(chain)@)).1,
            final(chain)@ == old(chain)@,
        decreases atom_height(a@), 1nat, 0nat,
    {
        let ghost s_pre = self@;
        let ghost ch = ids_view(chain@);
        self.register(a);
        let ghost s0 = self@;
        proof {
            assert(s0 == register_atom(s_pre, a@));
        }
        match &a.read {
            ReadBehavior::Primitive => {
                proof {
                    assert(a@.read is Primitive);
                }
                match self.cell_value_clone(a.id) {
                    Some(r) => r,
                    None => match &a.initial {
                        Some(v) => {
                            proof {
                                assert(a@.initial == Some(v@));
                            }
                            let epoch = self.cell_epoch(a.id);
                            let st = AtomState {
                                dependencies: Vec::new(),
                                epoch: bump(epoch),
                                value: Some(Ok(v.clone())),
                            };
                            proof {
                                assert(st@.deps =~= Seq::<(int, nat)>::empty());
                                assert(st@ == (CellModel {
                                    epoch: bump_epoch(cell_of(s0, a.id as int).epoch),
                                    value: Some(Ok(v@)),
                                    deps: Seq::empty(),
                                }));
                            }
                            self.put_cell(a.id, st);
                            Ok(v.clone())
                        },
                        None => {
                            proof {
                                assert(a@.initial is None);
                            }
                            Err(AtomError::Uninitialized { atom_id: a.id })
                        },
                    },
                }
            },
            ReadBehavior::Derived(_) => {
                proof {
                    assert(a@.read is Derived);
                }
                if self.cell_has_value(a.id) {
                    let deps = self.cell_deps_snapshot(a.id);
                    proof {
                        assert(deps_view(deps@).skip(0) =~= cell_of(s0, a.id as int).deps);
                    }
                    let ok = self.revalidate_deps(a, &deps, 0, chain);
                    let ghost s1 = self@;
                    proof {
                        assert((s1, ok) == spec_revalidate(
                            s0,
                            a@,
                            cell_of(s0, a.id as int).deps,
                            ch,
                        ));
                    }
                    if ok {
                        match self.cell_value_clone(a.id) {
                            Some(r) => {
                                proof {
                                    assert(cell_of(s1, a.id as int).value == Some(res_view(r)));
                                }
                                r
                            },
                            None => self.recompute_node(a, chain),
                        }
                    } else {
                        self.recompute_node(a, chain)
                    }
                } else {
                    self.recompute_node(a, chain)
                }
            },
        }
    }

    /// Brings each recorded dependency (from `idx` on) up to date and
    /// compares its epoch with the recorded one; true means the cached
    /// value is fresh.
    fn revalidate_deps(
        &mut self,
        a: &Atom<Value>,
        deps: &Vec<(AtomId, EpochNumber)>,
        idx: usize,
        chain: &mut Vec<AtomId>,
    ) -> (r: bool)
        requires
            idx <= deps@.len(),
        ensures
            final(self)@ == spec_revalidate(
                old(self)@,
                a@,
                deps_view(deps@).skip(idx as int),
                ids_view(old(chain)@),
            ).0,
            r == spec_revalidate(
                old(self)@,
                a@,
                deps_view(deps@).skip(idx as int),
                ids_view(old(chain)@),
            ).1,
            final(chain)@ == old(chain)@,
        decreases atom_height(a@), 0nat, 2 + deps@.len() - idx,
    {
        let ghost dseq = deps_view(deps@).skip(idx as int);
        if idx == deps.len() {
            proof {
                assert(dseq.len() == 0);
            }
            true
        } else {
            let (d, e) = deps[idx];
            proof {
                assert(dseq[0] == (d as int, e as nat));
            }
            match find_in_atom_exec(a, d) {
                None => false,
                Some(da) => {
                    proof {
                        lemma_find_height_atom(a@, d as int);
                    }
                    let ghost chain0 = chain@;
                    chain.push(a.id);
                    proof {
                        assert(ids_view(chain@) =~= ids_view(chain0).push(a.id as int));
                    }
                    let _ignored = self.read_node(da, chain);
                    chain.pop();
                    proof {
                        assert(chain@ =~= chain0);
                    }
                    let cur = self.cell_epoch(d);
                    if cur == e {
                        proof {
                            assert(dseq.drop_first() =~= deps_view(deps@).skip(idx as int + 1));
                        }
                        self.revalidate_deps(a, deps, idx + 1, chain)
                    } else {
                        false
                    }
                },
            }
        }
    }

    /// Recomputes a derived node: clears its dependency record, evaluates
    /// its expression, captures the outcome and grows the epoch.
    fn recompute_node(&mut self, a: &Atom<Value>, chain: &mut Vec<AtomId>) -> (r: Result<
        Value,
        AtomError,
    >)
        ensures
            final(self)@ == spec_recompute(old(self)@, a@, ids_view(old(chain)@)).0,
            res_view(r) == spec_recompute(old(self)@, a@, ids_view(old(chain)@)).1,
            final(chain)@ == old(chain)@,
        decreases atom_height(a@), 0nat, 1nat,
    {
        match &a.read {
            ReadBehavior::Derived(e) => {
                self.clear_cell_deps(a.id);
                let ghost chain0 = chain@;
                chain.push(a.id);
                proof {
                    assert(ids_view(chain@) =~= ids_view(chain0).push(a.id as int));
                }
                let r = self.eval_expr(a.id, true, e, chain, None);
                chain.pop();
                proof {
                    assert(chain@ =~= chain0);
                }
                self.capture_outcome(a.id, clone_outcome(&r));
                r
            },
            ReadBehavior::Primitive => Err(AtomError::Uninitialized { atom_id: a.id }),
        }
    }

    /// Evaluates an expression of node `self_id`: nested reads go through
    /// the read path and are recorded as dependencies; errors propagate
    /// like values; arithmetic is checked.
    fn eval_expr(
        &mut self,
        self_id: AtomId,
        track: bool,
        e: &Expr,
        chain: &mut Vec<AtomId>,
        incoming: Option<&Value>,
    ) -> (r: Result<Value, AtomError>)
        ensures
            final(self)@ == spec_eval(
                old(self)@,
                self_id as int,
                track,
                e@,
                ids_view(old(chain)@),
                opt_value_view(incoming),
            ).0,
            res_view(r) == spec_eval(
                old(self)@,
                self_id as int,
                track,
                e@,
                ids_view(old(chain)@),
                opt_value_view(incoming),
            ).1,
            final(chain)@ == old(chain)@,
        decreases expr_height(e@), 2nat, 0nat,
    {
        match e {
            Expr::Lit(v) => Ok(v.clone()),
            Expr::Read(m) => {
                let r = self.read_node(&**m, chain);
                if track {
                    self.record_dep_exec(self_id, m.id);
                }
                r
            },
            Expr::ReadSelf => {
                let mut ids = copy_ids(chain);
                ids.push(self_id);
                proof {
                    assert(ids_view(ids@) =~= ids_view(chain@).push(self_id as int));
                    assert(ids_view(ids@).map_values(|x: int| x)
                        =~= ids_view(ids@));
                }
                let err = AtomError::CircularDependency {
                    atom_id: self_id,
                    dependency_chain: ids,
                };
                proof {
                    assert(err@->CircularDependency_dependency_chain =~= ids_view(chain@).push(
                        self_id as int,
                    ));
                }
                Err(err)
            },
            Expr::Arg => match incoming {
                Some(v) => Ok(v.clone()),
                None => Err(
                    AtomError::ReadError {
                        atom_id: self_id,
                        message: "no incoming value".to_owned(),
                    },
                ),
            },
            Expr::Plus(x, y) => {
                let rx = self.eval_expr(self_id, track, &**x, chain, incoming);
                match rx {
                    Err(e1) => Err(e1),
                    Ok(vx) => {
                        let ry = self.eval_expr(self_id, track, &**y, chain, incoming);
                        match ry {
                            Err(e2) => Err(e2),
                            Ok(vy) => arith(self_id, true, &vx, &vy),
                        }
                    },
                }
            },
            Expr::Times(x, y) => {
                let rx = self.eval_expr(self_id, track, &**x, chain, incoming);
                match rx {
                    Err(e1) => Err(e1),
                    Ok(vx) => {
                        let ry = self.eval_expr(self_id, track, &**y, chain, incoming);
                        match ry {
                            Err(e2) => Err(e2),
                            Ok(vy) => arith(self_id, false, &vx, &vy),
                        }
                    },
                }
            },
            Expr::Cond(c, t, f) => {
                let rc = self.eval_expr(self_id, track, &**c, chain, incoming);
                match rc {
                    Err(e1) => Err(e1),
                    Ok(vc) => match vc {
                        Value::Bool(b) => {
                            if b {
                                self.eval_expr(self_id, track, &**t, chain, incoming)
                            } else {
                                self.eval_expr(self_id, track, &**f, chain, incoming)
                            }
                        },
                        other => Err(
                            AtomError::TypeMismatch {
                                atom_id: self_id,
                                expected: "bool",
                                actual: shape_label(&other).to_owned(),
                            },
                        ),
                    },
                }
            },
            Expr::Fail(m) => Err(AtomError::ReadError { atom_id: self_id, message: m.clone() }),
        }
    }

    /// Reads the atom's current value, computing and caching as needed.
    pub fn get(&mut self, atom: &Atom<Value>) -> (r: Result<Value, AtomError>)
        ensures
            final(self)@ == spec_get(old(self)@, atom@).0,
            res_view(r) == spec_get(old(self)@, atom@).1,
    {
        let mut chain: Vec<AtomId> = Vec::new();
        proof {
            assert(ids_view(chain@) =~= Seq::<int>::empty());
        }
        self.read_node(atom, &mut chain)
    }

    /// The current epoch of a node: zero until its first computation, and
    /// grown by one on each one since.
    pub fn epoch_of(&self, atom_id: AtomId) -> (r: EpochNumber)
        ensures
            r as nat == cell_of(self@, atom_id as int).epoch,
    {
        self.cell_epoch(atom_id)
    }

    /// Whether the writables table holds `id`.
    fn writables_has(&self, id: AtomId) -> (r: bool)
        ensures
            r == assoc_has(self@.writables, id as int),
    {
        let mut i: usize = 0;
        while i < self.writables.len()
            invariant
                i <= self.writables.len(),
                forall|j: int| 0 <= j < i as int ==> self.writables@[j].0 != id,
            decreases self.writables.len() - i,
        {
            if self.writables[i].0 == id {
                proof {
                    assert(self@.writables[i as int].0 == id as int);
                }
                return true;
            }
            i = i + 1;
        }
        proof {
            if assoc_has(self@.writables, id as int) {
                let j = choose|j: int|
                    0 <= j < self@.writables.len() && self@.writables[j].0 == id as int;
                assert(self.writables@[j].0 == id);
            }
        }
        false
    }

    /// Whether the hooks table holds `id`.
    fn hooks_has(&self, id: AtomId) -> (r: bool)
        ensures
            r == assoc_has(self@.hooks, id as int),
    {
        let mut i: usize = 0;
        while i < self.hooks.len()
            invariant
                i <= self.hooks.len(),
                forall|j: int| 0 <= j < i as int ==> self.hooks@[j].0 != id,
            decreases self.hooks.len() - i,
        {
            if self.hooks[i].0 == id {
                proof {
                    assert(self@.hooks[i as int].0 == id as int);
                }
                return true;
            }
            i = i + 1;
        }
        proof {
            if assoc_has(self@.hooks, id as int) {
                let j = choose|j: int|
                    0 <= j < self@.hooks.len() && self@.hooks[j].0 == id as int;
                assert(self.hooks@[j].0 == id);
            }
        }
        false
    }

    /// The hook token of node `id`, if a mount hook was registered for it.
    fn hook_lookup(&self, id: AtomId) -> (r: Option<u64>)
        ensures
            r == assoc_get(self@.hooks, id as int),
    {
        let mut i: usize = 0;
        while i < self.hooks.len()
            invariant
                i <= self.hooks.len(),
                forall|j: int| 0 <= j < i as int ==> self.hooks@[j].0 != id,
            decreases self.hooks.len() - i,
        {
            if self.hooks[i].0 == id {
                proof {
                    assert(forall|j: int|
                        0 <= j < i as int ==> self@.hooks[j].0 != id as int);
                    assert(self@.hooks[i as int] == (id as int, self.hooks@[i as int].1));
                    lemma_assoc_get_at_first(self@.hooks, id as int, i as int);
                }
                return Some(self.hooks[i].1);
            }
            i = i + 1;
        }
        proof {
            assert(forall|j: int|
                0 <= j < self@.hooks.len() ==> self@.hooks[j].0 != id as int);
            lemma_assoc_get_absent(self@.hooks, id as int);
        }
        None
    }

    /// The index of node `id`'s mount record, by first match.
    fn mounts_index(&self, id: AtomId) -> (r: Option<usize>)
        ensures
            match r {
                Some(i) => i < self.mounted@.len() && self.mounted@[i as int].0 == id && (forall|
                    j: int,
                |
                    0 <= j < i as int ==> self.mounted@[j].0 != id) && assoc_get(
                    self@.mounts,
                    id as int,
                ) == Some(self.mounted@[i as int].1@),
                None => !assoc_has(self@.mounts, id as int) && assoc_get(self@.mounts, id as int)
                    is None,
            },
    {
        let mut i: usize = 0;
        while i < self.mounted.len()
            invariant
                i <= self.mounted.len(),
                forall|j: int| 0 <= j < i as int ==> self.mounted@[j].0 != id,
            decreases self.mounted.len() - i,
        {
            if self.mounted[i].0 == id {
                proof {
                    assert(self@.mounts[i as int] == (id as int, self.mounted@[i as int].1@));
                    assert(forall|j: int|
                        0 <= j < i as int ==> self@.mounts[j].0 != id as int);
                    lemma_assoc_get_at_first(self@.mounts, id as int, i as int);
                }
                return Some(i);
            }
            i = i + 1;
        }
        proof {
            assert(forall|j: int|
                0 <= j < self@.mounts.len() ==> self@.mounts[j].0 != id as int);
            lemma_assoc_get_absent(self@.mounts, id as int);
            lemma_assoc_get_has(self@.mounts, id as int);
        }
        None
    }

    /// Whether node `id` has a mount record.
    fn mounts_has(&self, id: AtomId) -> (r: bool)
        ensures
            r == assoc_has(self@.mounts, id as int),
    {
        match self.mounts_index(id) {
            Some(i) => {
                proof {
                    assert(self@.mounts[i as int].0 == id as int);
                }
                true
            },
            None => false,
        }
    }

    /// Replaces (or creates) node `id`'s mount record.
    fn put_mount(&mut self, id: AtomId, m: Mounted)
        ensures
            final(self)@ == (StoreModel {
                mounts: crate::model::assoc_set(old(self)@.mounts, id as int, m@),
                ..old(self)@
            }),
    {
        let ghost pre = self@.mounts;
        match self.mounts_index(id) {
            Some(i) => {
                proof {
                    lemma_assoc_set_at_first(pre, id as int, m@, i as int);
                }
                self.mounted.set(i, (id, m));
                proof {
                    assert(self@.mounts =~= pre.update(i as int, (id as int, m@)));
                }
            },
            None => {
                proof {
                    assert(forall|j: int| 0 <= j < pre.len() ==> pre[j].0 != id as int) by {
                        assert forall|j: int| 0 <= j < pre.len() implies pre[j].0 != id as int by {
                            if pre[j].0 == id as int {
                                assert(assoc_has(pre, id as int));
                            }
                        }
                    }
                    lemma_assoc_set_absent(pre, id as int, m@);
                }
                self.mounted.push((id, m));
                proof {
                    assert(self@.mounts =~= pre.push((id as int, m@)));
                }
            },
        }
    }

    /// Remembers the behaviors of a writable atom (first registration wins)
    /// and makes sure it has a cell.
    fn register_writable(&mut self, wa: &WritableAtom<Value>)
        ensures
            final(self)@ == crate::model::register_writable(old(self)@, wa@),
    {
        self.register(&wa.atom);
        if !self.writables_has(wa.atom.id) {
            let ghost pre = self@.writables;
            let behavior = wa.write.clone();
            self.writables.push((wa.atom.id, behavior));
            proof {
                assert(self@.writables =~= pre.push((wa.atom.id as int, wa@.write)));
            }
        }
        match &wa.on_mount {
            Some(h) => {
                if !self.hooks_has(wa.atom.id) {
                    let ghost pre = self@.hooks;
                    self.hooks.push((wa.atom.id, h.token));
                    proof {
                        assert(self@.hooks =~= pre.push((wa.atom.id as int, h.token)));
                    }
                }
            },
            None => {},
        }
    }

    /// Marks node `id` changed, once.
    fn mark_changed(&mut self, id: AtomId)
        ensures
            final(self)@ == if old(self)@.changed.contains(id as int) {
                old(self)@
            } else {
                StoreModel { changed: old(self)@.changed.push(id as int), ..old(self)@ }
            },
    {
        if !crate::internals::contains_id(&self.changed, id) {
            let ghost pre = self@.changed;
            self.changed.push(id);
            proof {
                assert(self@.changed =~= pre.push(id as int));
            }
        }
    }

    /// Marks every mounted, not yet invalidated node of `deps` (from `idx`
    /// on) as invalidated and queues it for traversal.
    fn mark_new_exec(&mut self, work: &mut Vec<AtomId>, deps: &Vec<AtomId>, idx: usize)
        requires
            idx <= deps@.len(),
        ensures
            final(self)@ == mark_new(
                old(self)@,
                ids_view(old(work)@),
                ids_view(deps@).skip(idx as int),
            ).0,
            ids_view(final(work)@) == mark_new(
                old(self)@,
                ids_view(old(work)@),
                ids_view(deps@).skip(idx as int),
            ).1,
        decreases deps@.len() - idx,
    {
        let ghost dseq = ids_view(deps@).skip(idx as int);
        if idx == deps.len() {
            proof {
                assert(dseq.len() == 0);
            }
        } else {
            let d = deps[idx];
            proof {
                assert(dseq[0] == d as int);
                assert(dseq.drop_first() =~= ids_view(deps@).skip(idx as int + 1));
            }
            let is_mounted = self.mounts_has(d);
            if is_mounted && !crate::internals::contains_id(&self.invalidated, d) {
                let ghost pre_inv = self@.invalidated;
                let ghost pre_work = ids_view(work@);
                self.invalidated.push(d);
                work.push(d);
                proof {
                    assert(self@.invalidated =~= pre_inv.push(d as int));
                    assert(ids_view(work@) =~= pre_work.push(d as int));
                }
                self.mark_new_exec(work, deps, idx + 1);
            } else {
                self.mark_new_exec(work, deps, idx + 1);
            }
        }
    }

    /// Breadth-first invalidation over the mounted dependents of the
    /// worklist's nodes.
    fn invalidate_rec(&mut self, work: &mut Vec<AtomId>)
        ensures
            final(self)@ == spec_invalidate(old(self)@, ids_view(old(work)@)),
        decreases count_unmarked(keys_of(self@.mounts), self@.invalidated), work@.len(),
    {
        if work.len() == 0 {
            return ;
        }
        let ghost pre = self@;
        let ghost work0 = ids_view(work@);
        let w = match work.pop() {
            Some(w) => w,
            None => {
                return ;
            },
        };
        proof {
            assert(work0.last() == w as int);
            assert(ids_view(work@) =~= work0.drop_last());
        }
        match self.mounts_index(w) {
            None => {
                self.invalidate_rec(work);
            },
            Some(i) => {
                let dependents = copy_ids(&self.mounted[i].1.dependents);
                proof {
                    assert(ids_view(dependents@) == assoc_get(
                        pre.mounts,
                        w as int,
                    )->Some_0.dependents);
                    assert(ids_view(dependents@).skip(0) =~= ids_view(dependents@));
                }
                self.mark_new_exec(work, &dependents, 0);
                proof {
                    lemma_mark_new(pre, work0.drop_last(), ids_view(dependents@));
                }
                self.invalidate_rec(work);
            },
        }
    }

    /// Marks all mounted dependents of a changed node as stale.
    fn invalidate_dependents(&mut self, atom_id: AtomId)
        ensures
            final(self)@ == spec_invalidate(old(self)@, seq![atom_id as int]),
    {
        let mut work: Vec<AtomId> = Vec::new();
        work.push(atom_id);
        proof {
            assert(ids_view(work@) =~= seq![atom_id as int]);
        }
        self.invalidate_rec(&mut work);
    }

    /// One direct mutation: store the value, grow the epoch, mark the node
    /// changed, and invalidate its mounted dependents.
    fn apply_direct_exec(&mut self, id: AtomId, v: Value)
        ensures
            final(self)@ == crate::model::apply_direct(old(self)@, id as int, v@),
    {
        let (epoch, deps) = match self.cell_index(id) {
            Some(i) => {
                let cell = &self.cells[i].1;
                (cell.epoch, copy_deps(&cell.dependencies))
            },
            None => {
                proof {
                    assert(deps_view(Seq::<(AtomId, EpochNumber)>::empty())
                        =~= Seq::<(int, nat)>::empty());
                }
                (0u64, Vec::new())
            },
        };
        let st = AtomState { dependencies: deps, epoch: bump(epoch), value: Some(Ok(v)) };
        self.put_cell(id, st);
        self.mark_changed(id);
        self.invalidate_dependents(id);
    }

    /// Applies a writable atom's own write behavior to an incoming value.
    fn apply_write(&mut self, wa: &WritableAtom<Value>, v: &Value) -> (r: Result<(), AtomError>)
        ensures
            final(self)@ == spec_apply_write(old(self)@, wa@, v@).0,
            unit_res_view(r) == spec_apply_write(old(self)@, wa@, v@).1,
        decreases wa_height(wa@), 1nat,
    {
        self.register_writable(wa);
        match &wa.write {
            WriteBehavior::Direct => {
                proof {
                    assert(wa@.write is Direct);
                }
                self.apply_direct_exec(wa.atom.id, v.clone());
                Ok(())
            },
            WriteBehavior::Program(steps) => {
                proof {
                    assert(wa@.write == WriteBehaviorView::Program(write_steps_view(steps@)));
                    assert(write_steps_view(steps@).skip(0) =~= write_steps_view(steps@));
                }
                self.run_steps(wa.atom.id, steps, 0, v)
            },
        }
    }

    /// Runs setter steps in sequence: evaluate each step's expression with
    /// `Arg` bound to the incoming value, then write the result to the
    /// step's target. A failing step aborts the remaining steps; mutations
    /// already applied stay (best-effort, not transactional).
    fn run_steps(&mut self, writer: AtomId, steps: &Vec<WriteStep>, idx: usize, v: &Value) -> (r:
        Result<(), AtomError>)
        requires
            idx <= steps@.len(),
        ensures
            final(self)@ == spec_run_steps(
                old(self)@,
                writer as int,
                write_steps_view(steps@).skip(idx as int),
                v@,
            ).0,
            unit_res_view(r) == spec_run_steps(
                old(self)@,
                writer as int,
                write_steps_view(steps@).skip(idx as int),
                v@,
            ).1,
        decreases ws_height(write_steps_view(steps@).skip(idx as int)), 2nat,
    {
        let ghost sseq = write_steps_view(steps@).skip(idx as int);
        proof {
            lemma_write_steps_view(steps@);
        }
        if idx == steps.len() {
            proof {
                assert(sseq.len() == 0);
            }
            Ok(())
        } else {
            let st = &steps[idx];
            proof {
                assert(sseq[0] == write_step_view(steps@[idx as int]));
                assert(sseq.drop_first() =~= write_steps_view(steps@).skip(idx as int + 1));
                assert(sseq.len() > 0);
                assert(ws_height(sseq) == 1 + wa_height(sseq[0].target) + ws_height(
                    sseq.drop_first(),
                ));
            }
            let mut chain: Vec<AtomId> = Vec::new();
            proof {
                assert(ids_view(chain@) =~= Seq::<int>::empty());
            }
            let re = self.eval_expr(st.target.atom.id, false, &st.expr, &mut chain, Some(v));
            match re {
                Err(e) => {
                    let message = e.to_string();
                    Err(AtomError::WriteError { atom_id: writer, message })
                },
                Ok(val) => {
                    match self.apply_write(&st.target, &val) {
                        Err(e2) => Err(e2),
                        Ok(_) => self.run_steps(writer, steps, idx + 1, v),
                    }
                },
            }
        }
    }

    /// Applies a value or update to a writable node: for a primitive node
    /// the value is stored directly; a custom write behavior runs to
    /// completion. The cascade — invalidation, recomputation, notification
    /// — then runs to a fixed point before this returns.
    pub fn set(&mut self, atom: &WritableAtom<Value>, value: Value) -> (r: Result<(), AtomError>)
        ensures
            final(self)@ == spec_set(old(self)@, atom@, value@).0,
            unit_res_view(r) == spec_set(old(self)@, atom@, value@).1,
    {
        let r = self.apply_write(atom, &value);
        self.flush();
        r
    }

    /// A write addressed by id alone: rejected with Not-Writable before any
    /// mutation when no write behavior is registered for the node.
    pub fn set_registered(&mut self, atom_id: AtomId, value: Value) -> (r: Result<(), AtomError>)
        ensures
            final(self)@ == spec_set_dyn(old(self)@, atom_id as int, value@).0,
            unit_res_view(r) == spec_set_dyn(old(self)@, atom_id as int, value@).1,
    {
        let behavior = match self.writable_clone(atom_id) {
            None => {
                return Err(AtomError::NotWritable { atom_id });
            },
            Some(b) => b,
        };
        let r = match &behavior {
            WriteBehavior::Direct => {
                self.apply_direct_exec(atom_id, value);
                Ok(())
            },
            WriteBehavior::Program(steps) => {
                proof {
                    assert(write_steps_view(steps@).skip(0) =~= write_steps_view(steps@));
                }
                let v = value;
                self.run_steps(atom_id, steps, 0, &v)
            },
        };
        self.flush();
        r
    }

    /// A copy of node `id`'s registered write behavior.
    fn writable_clone(&self, id: AtomId) -> (r: Option<WriteBehavior>)
        ensures
            match r {
                Some(b) => assoc_get(self@.writables, id as int) == Some(write_behavior_view(b)),
                None => assoc_get(self@.writables, id as int) is None,
            },
    {
        let mut i: usize = 0;
        while i < self.writables.len()
            invariant
                i <= self.writables.len(),
                forall|j: int| 0 <= j < i as int ==> self.writables@[j].0 != id,
            decreases self.writables.len() - i,
        {
            if self.writables[i].0 == id {
                proof {
                    assert(self@.writables[i as int] == (
                        id as int,
                        write_behavior_view(self.writables@[i as int].1),
                    ));
                    assert(forall|j: int|
                        0 <= j < i as int ==> self@.writables[j].0 != id as int);
                    lemma_assoc_get_at_first(self@.writables, id as int, i as int);
                }
                return Some(self.writables[i].1.clone());
            }
            i = i + 1;
        }
        proof {
            assert(forall|j: int|
                0 <= j < self@.writables.len() ==> self@.writables[j].0 != id as int);
            lemma_assoc_get_absent(self@.writables, id as int);
        }
        None
    }

    /// A copy of node `id`'s registered read behavior.
    fn registry_clone(&self, id: AtomId) -> (r: Option<Atom<Value>>)
        ensures
            match r {
                Some(a) => assoc_get(self@.registry, id as int) == Some(a@),
                None => assoc_get(self@.registry, id as int) is None,
            },
    {
        let mut i: usize = 0;
        while i < self.registry.len()
            invariant
                i <= self.registry.len(),
                forall|j: int| 0 <= j < i as int ==> self.registry@[j].0 != id,
            decreases self.registry.len() - i,
        {
            if self.registry[i].0 == id {
                proof {
                    assert(self@.registry[i as int] == (
                        id as int,
                        atom_view(self.registry@[i as int].1),
                    ));
                    assert(forall|j: int|
                        0 <= j < i as int ==> self@.registry[j].0 != id as int);
                    lemma_assoc_get_at_first(self@.registry, id as int, i as int);
                }
                let copy = self.registry[i].1.clone();
                proof {
                    lemma_clone_atom_view(self.registry@[i as int].1, copy);
                }
                return Some(copy);
            }
            i = i + 1;
        }
        proof {
            assert(forall|j: int|
                0 <= j < self@.registry.len() ==> self@.registry[j].0 != id as int);
            lemma_assoc_get_absent(self@.registry, id as int);
        }
        None
    }

    /// Recomputes each invalidated node (from `idx` on) through the read
    /// path and marks those whose outcome differs from what they held when
    /// the flush began.
    fn flush_recompute_rec(
        &mut self,
        ids: &Vec<AtomId>,
        olds: &Vec<Option<Result<Value, AtomError>>>,
        idx: usize,
    )
        requires
            idx <= ids@.len(),
            olds@.len() == ids@.len(),
        ensures
            final(self)@ == spec_flush_recompute(
                old(self)@,
                ids_view(ids@).skip(idx as int),
                olds_view(olds@).skip(idx as int),
            ),
        decreases ids@.len() - idx,
    {
        let ghost iseq = ids_view(ids@).skip(idx as int);
        let ghost oseq = olds_view(olds@).skip(idx as int);
        if idx == ids.len() {
            proof {
                assert(iseq.len() == 0);
            }
            return ;
        }
        let id = ids[idx];
        proof {
            assert(iseq[0] == id as int);
            assert(oseq[0] == outcome_view(olds@[idx as int]));
            assert(iseq.drop_first() =~= ids_view(ids@).skip(idx as int + 1));
            assert(oseq.drop_first() =~= olds_view(olds@).skip(idx as int + 1));
        }
        match self.registry_clone(id) {
            None => {},
            Some(a) => {
                let mut chain: Vec<AtomId> = Vec::new();
                proof {
                    assert(ids_view(chain@) =~= Seq::<int>::empty());
                }
                let _r = self.read_node(&a, &mut chain);
                let now = self.cell_value_clone(id);
                let same = outcome_eq(&now, &olds[idx]);
                if !same && !crate::internals::contains_id(&self.changed, id) {
                    let ghost pre = self@.changed;
                    self.changed.push(id);
                    proof {
                        assert(self@.changed =~= pre.push(id as int));
                    }
                }
                self.refresh_mount_edges_exec(&a);
            },
        }
        self.flush_recompute_rec(ids, olds, idx + 1);
    }

    /// Queues the listeners of every changed, mounted node, in order.
    fn notify_rec(&mut self, ids: &Vec<AtomId>, idx: usize)
        requires
            idx <= ids@.len(),
        ensures
            final(self)@ == spec_notify(old(self)@, ids_view(ids@).skip(idx as int)),
        decreases ids@.len() - idx,
    {
        let ghost iseq = ids_view(ids@).skip(idx as int);
        if idx == ids.len() {
            proof {
                assert(iseq.len() == 0);
            }
            return ;
        }
        let id = ids[idx];
        proof {
            assert(iseq[0] == id as int);
            assert(iseq.drop_first() =~= ids_view(ids@).skip(idx as int + 1));
        }
        match self.mounts_index(id) {
            None => {},
            Some(i) => {
                let tokens = self.mounted[i].1.notify_listeners();
                let ghost pre = self@.notifications;
                let ghost toks = tokens@;
                let mut j: usize = 0;
                while j < tokens.len()
                    invariant
                        j <= tokens.len(),
                        tokens@ == toks,
                        self@ == (StoreModel {
                            notifications: pre + toks.take(j as int),
                            ..old(self)@
                        }),
                    decreases tokens.len() - j,
                {
                    let ghost mid = self@.notifications;
                    self.notifications.push(tokens[j]);
                    proof {
                        assert(self@.notifications =~= pre + toks.take(j as int + 1));
                    }
                    j = j + 1;
                }
                proof {
                    assert(toks.take(toks.len() as int) =~= toks);
                }
            },
        }
        self.notify_rec(ids, idx + 1);
    }

    /// One flush cycle: recompute what a write invalidated, queue the
    /// listeners of every node whose value actually changed, and drain the
    /// cycle's working sets.
    fn flush(&mut self)
        ensures
            final(self)@ == spec_flush(old(self)@),
    {
        let ids = copy_ids(&self.invalidated);
        let mut olds: Vec<Option<Result<Value, AtomError>>> = Vec::new();
        let mut i: usize = 0;
        while i < ids.len()
            invariant
                i <= ids.len(),
                self == old(self),
                ids@ == self.invalidated@,
                olds@.len() == i as int,
                forall|j: int|
                    0 <= j < i as int ==> olds_view(olds@)[j] == cell_of(
                        self@,
                        ids_view(ids@)[j],
                    ).value,
            decreases ids.len() - i,
        {
            let o = self.cell_value_clone(ids[i]);
            let ghost pre = olds@;
            olds.push(o);
            proof {
                assert forall|j: int|
                    0 <= j < i as int + 1 implies olds_view(olds@)[j] == cell_of(
                    self@,
                    ids_view(ids@)[j],
                ).value by {
                    if j < i as int {
                        assert(olds@[j] == pre[j]);
                        assert(olds_view(pre)[j] == outcome_view(pre[j]));
                    } else {
                        assert(olds@[j] == o);
                    }
                }
            }
            i = i + 1;
        }
        proof {
            assert(olds_view(olds@) =~= crate::model::olds_of(self@, ids_view(ids@)));
            assert(ids_view(ids@).skip(0) =~= ids_view(ids@));
            assert(olds_view(olds@).skip(0) =~= olds_view(olds@));
        }
        self.flush_recompute_rec(&ids, &olds, 0);
        let ch = copy_ids(&self.changed);
        proof {
            assert(ids_view(ch@).skip(0) =~= ids_view(ch@));
        }
        self.notify_rec(&ch, 0);
        self.sweep();
        self.invalidated = Vec::new();
        self.changed = Vec::new();
        proof {
            assert(self@.invalidated =~= Seq::<int>::empty());
            assert(self@.changed =~= Seq::<int>::empty());
        }
    }

    /// Adds `n` to the dependent set of `m`'s mount record, if one exists.
    fn add_dependent_edge_exec(&mut self, m: AtomId, n: AtomId)
        ensures
            final(self)@ == crate::model::add_dependent_edge(old(self)@, m as int, n as int),
    {
        match self.mounts_index(m) {
            None => {},
            Some(i) => {
                let mut rec = clone_mounted(&self.mounted[i].1);
                rec.add_dependent(n);
                if crate::internals::contains_id(&self.mounted[i].1.dependents, n) {
                } else {
                    self.put_mount(m, rec);
                }
            },
        }
    }

    /// Mounts node `a`: creates its record (queueing its hook event), then
    /// transitively mounts its recorded dependencies and records the edges.
    fn mount_node(&mut self, a: &Atom<Value>)
        ensures
            final(self)@ == crate::model::spec_mount(old(self)@, a@),
        decreases atom_height(a@), 1nat, 0nat,
    {
        if self.mounts_has(a.id) {
            return ;
        }
        let deps = self.cell_deps_snapshot(a.id);
        let hook = self.hook_lookup(a.id);
        let mut dep_id_vec: Vec<AtomId> = Vec::new();
        let mut i: usize = 0;
        while i < deps.len()
            invariant
                i <= deps.len(),
                dep_id_vec@.len() == i as int,
                forall|j: int| 0 <= j < i as int ==> dep_id_vec@[j] == deps@[j].0,
            decreases deps.len() - i,
        {
            dep_id_vec.push(deps[i].0);
            i = i + 1;
        }
        proof {
            assert(ids_view(dep_id_vec@) =~= crate::model::dep_ids(deps_view(deps@)));
        }
        let rec = Mounted {
            listeners: Vec::new(),
            dependencies: dep_id_vec,
            dependents: Vec::new(),
            cleanup: hook,
        };
        let ghost pre_mounts = self@.mounts;
        let ghost pre_life = self@.lifecycle;
        self.mounted.push((a.id, rec));
        proof {
            assert(rec@.listeners =~= Seq::<u64>::empty());
            assert(rec@.dependents =~= Seq::<int>::empty());
            assert(self@.mounts =~= pre_mounts.push((a.id as int, rec@)));
        }
        match hook {
            Some(t) => {
                self.lifecycle.push((t, true));
                proof {
                    assert(self@.lifecycle =~= pre_life.push((t, true)));
                }
            },
            None => {},
        }
        proof {
            assert(deps_view(deps@).skip(0) =~= deps_view(deps@));
        }
        self.mount_deps(a, &deps, 0);
    }

    /// Mounts each recorded dependency of `a` (from `idx` on) and adds `a`
    /// to its dependents.
    fn mount_deps(&mut self, a: &Atom<Value>, deps: &Vec<(AtomId, EpochNumber)>, idx: usize)
        requires
            idx <= deps@.len(),
        ensures
            final(self)@ == crate::model::spec_mount_deps(
                old(self)@,
                a@,
                deps_view(deps@).skip(idx as int),
            ),
        decreases atom_height(a@), 0nat, deps@.len() - idx,
    {
        let ghost dseq = deps_view(deps@).skip(idx as int);
        if idx == deps.len() {
            proof {
                assert(dseq.len() == 0);
            }
            return ;
        }
        let d = deps[idx].0;
        proof {
            assert(dseq[0] == (d as int, deps@[idx as int].1 as nat));
            assert(dseq.drop_first() =~= deps_view(deps@).skip(idx as int + 1));
        }
        match find_in_atom_exec(a, d) {
            None => {
                self.mount_deps(a, deps, idx + 1);
            },
            Some(da) => {
                proof {
                    lemma_find_height_atom(a@, d as int);
                }
                self.mount_node(da);
                self.add_dependent_edge_exec(d, a.id);
                self.mount_deps(a, deps, idx + 1);
            },
        }
    }

    /// Removes `n` from the dependent set of `m`'s mount record, if one
    /// exists.
    fn remove_dependent_edge_exec(&mut self, m: AtomId, n: AtomId)
        ensures
            final(self)@ == crate::model::remove_dependent_edge(old(self)@, m as int, n as int),
    {
        match self.mounts_index(m) {
            None => {},
            Some(i) => {
                let mut rec = clone_mounted(&self.mounted[i].1);
                rec.remove_dependent(n);
                self.put_mount(m, rec);
            },
        }
    }

    /// Removes `n` from the dependent sets of the old dependencies (from
    /// `idx` on) it no longer reads.
    fn drop_stale_edges_exec(&mut self, olds: &Vec<AtomId>, keep: &Vec<AtomId>, idx: usize, n: AtomId)
        requires
            idx <= olds@.len(),
        ensures
            final(self)@ == crate::model::drop_stale_edges(
                old(self)@,
                ids_view(olds@).skip(idx as int),
                ids_view(keep@),
                n as int,
            ),
        decreases olds@.len() - idx,
    {
        let ghost oseq = ids_view(olds@).skip(idx as int);
        if idx == olds.len() {
            proof {
                assert(oseq.len() == 0);
            }
            return ;
        }
        let d = olds[idx];
        proof {
            assert(oseq[0] == d as int);
            assert(oseq.drop_first() =~= ids_view(olds@).skip(idx as int + 1));
        }
        if !crate::internals::contains_id(keep, d) {
            self.remove_dependent_edge_exec(d, n);
        }
        self.drop_stale_edges_exec(olds, keep, idx + 1, n);
    }

    /// Refreshes a mounted node's edges after a recompute: newly recorded
    /// dependencies are mounted and gain it as a dependent, its record's
    /// dependency set is replaced, and dropped dependencies lose the edge.
    fn refresh_mount_edges_exec(&mut self, a: &Atom<Value>)
        ensures
            final(self)@ == crate::model::refresh_mount_edges(old(self)@, a@),
    {
        if !self.mounts_has(a.id) {
            return ;
        }
        let deps = self.cell_deps_snapshot(a.id);
        proof {
            assert(deps_view(deps@).skip(0) =~= deps_view(deps@));
        }
        self.mount_deps(a, &deps, 0);
        match self.mounts_index(a.id) {
            None => {},
            Some(i) => {
                let old_edges = copy_ids(&self.mounted[i].1.dependencies);
                let mut rec = clone_mounted(&self.mounted[i].1);
                let mut dep_id_vec: Vec<AtomId> = Vec::new();
                let mut k: usize = 0;
                while k < deps.len()
                    invariant
                        k <= deps.len(),
                        dep_id_vec@.len() == k as int,
                        forall|j: int| 0 <= j < k as int ==> dep_id_vec@[j] == deps@[j].0,
                    decreases deps.len() - k,
                {
                    dep_id_vec.push(deps[k].0);
                    k = k + 1;
                }
                proof {
                    assert(ids_view(dep_id_vec@) =~= crate::model::dep_ids(deps_view(deps@)));
                }
                let keep = copy_ids(&dep_id_vec);
                rec.dependencies = dep_id_vec;
                self.put_mount(a.id, rec);
                self.drop_stale_edges_exec(&old_edges, &keep, 0, a.id);
                proof {
                    assert(ids_view(old_edges@).skip(0) =~= ids_view(old_edges@));
                }
            },
        }
    }

    /// The index of the first mount record with no listener and no
    /// dependent, if any.
    fn find_removable(&self) -> (r: Option<usize>)
        ensures
            match r {
                Some(i) => crate::model::removable_index(self@.mounts) == Some(i as int),
                None => crate::model::removable_index(self@.mounts) is None,
            },
    {
        let mut i: usize = 0;
        while i < self.mounted.len()
            invariant
                i <= self.mounted.len(),
                forall|j: int|
                    0 <= j < i as int ==> self@.mounts[j].1.listeners.len() > 0
                        || self@.mounts[j].1.dependents.len() > 0,
            decreases self.mounted.len() - i,
        {
            let rec = &self.mounted[i].1;
            if rec.listeners.len() == 0 && rec.dependents.len() == 0 {
                proof {
                    assert(self@.mounts[i as int].1.listeners.len() == 0);
                    assert(self@.mounts[i as int].1.dependents.len() == 0);
                    crate::model::lemma_removable_index_at_first(self@.mounts, i as int);
                }
                return Some(i);
            }
            proof {
                assert(self@.mounts[i as int].1.listeners.len() > 0
                    || self@.mounts[i as int].1.dependents.len() > 0);
            }
            i = i + 1;
        }
        proof {
            crate::model::lemma_removable_index_absent(self@.mounts);
        }
        None
    }

    /// Unmounts, one at a time, every record no listener or mounted
    /// dependent holds, removing its edges and queueing its cleanup event.
    fn sweep(&mut self)
        ensures
            final(self)@ == crate::model::spec_sweep(old(self)@),
        decreases self.mounted@.len(),
    {
        let i = match self.find_removable() {
            None => {
                return ;
            },
            Some(i) => i,
        };
        proof {
            crate::model::lemma_removable_index_bounds(old(self)@.mounts);
        }
        let n = self.mounted[i].0;
        let cleanup = self.mounted[i].1.cleanup;
        let ghost pre = self@;
        self.mounted.remove(i);
        proof {
            assert(self@.mounts =~= pre.mounts.remove(i as int));
        }
        let ghost removed = self@.mounts;
        let mut k: usize = 0;
        while k < self.mounted.len()
            invariant
                k <= self.mounted.len(),
                self.mounted@.len() == removed.len(),
                self@ == (StoreModel { mounts: self@.mounts, ..pre }),
                forall|j: int|
                    0 <= j < k as int ==> self@.mounts[j]
                        == crate::model::drop_dependent_everywhere(removed, n as int)[j],
                forall|j: int| k as int <= j < removed.len() ==> self@.mounts[j] == removed[j],
            decreases self.mounted.len() - k,
        {
            let key = self.mounted[k].0;
            let mut rec = clone_mounted(&self.mounted[k].1);
            rec.remove_dependent(n);
            let ghost prek = self@.mounts;
            self.mounted.set(k, (key, rec));
            proof {
                assert(self@.mounts =~= prek.update(k as int, (key as int, rec@)));
                assert(self@.mounts[k as int]
                    == crate::model::drop_dependent_everywhere(removed, n as int)[k as int]);
            }
            k = k + 1;
        }
        proof {
            assert(self@.mounts =~= crate::model::drop_dependent_everywhere(removed, n as int));
        }
        match cleanup {
            Some(t) => {
                let ghost pre_life = self@.lifecycle;
                self.lifecycle.push((t, false));
                proof {
                    assert(self@.lifecycle =~= pre_life.push((t, false)));
                }
            },
            None => {},
        }
        self.sweep();
    }

    /// Registers interest in a node: brings it up to date, mounts it (and,
    /// transitively, what it reads), and hands back a handle whose token
    /// the flush queues whenever the node's value changes.
    pub fn sub(&mut self, atom: &Atom<Value>) -> (r: Unsubscribe)
        ensures
            final(self)@ == crate::model::spec_sub(old(self)@, atom@).0,
            r.atom_id == atom.id,
            r.listener as nat == crate::model::spec_sub(old(self)@, atom@).1,
    {
        let mut chain: Vec<AtomId> = Vec::new();
        proof {
            assert(ids_view(chain@) =~= Seq::<int>::empty());
        }
        let _current = self.read_node(atom, &mut chain);
        self.mount_node(atom);
        let token = self.next_listener;
        match self.mounts_index(atom.id) {
            Some(i) => {
                let mut rec = clone_mounted(&self.mounted[i].1);
                rec.add_listener(token);
                self.put_mount(atom.id, rec);
                self.next_listener = bump(self.next_listener);
            },
            None => {},
        }
        self.flush();
        Unsubscribe { atom_id: atom.id, listener: token }
    }

    /// Mounts a writable atom's hook (so mount events carry its token) and
    /// subscribes to its read side.
    pub fn sub_writable(&mut self, atom: &WritableAtom<Value>) -> (r: Unsubscribe)
        ensures
            final(self)@ == crate::model::spec_sub(
                crate::model::register_writable(old(self)@, atom@),
                atom@.atom,
            ).0,
            r.atom_id == atom.atom.id,
            r.listener as nat == crate::model::spec_sub(
                crate::model::register_writable(old(self)@, atom@),
                atom@.atom,
            ).1,
    {
        self.register_writable(atom);
        self.sub(&atom.atom)
    }

    /// Removes the handle's listener; when its node is left with no
    /// listener and no mounted dependent, the node (and, transitively, its
    /// no-longer-held dependencies) is unmounted and cleanup events are
    /// queued. Using the same handle again has no further effect.
    pub fn unsub(&mut self, handle: &Unsubscribe)
        ensures
            final(self)@ == crate::model::spec_unsub(
                old(self)@,
                handle.atom_id as int,
                handle.listener,
            ),
    {
        match self.mounts_index(handle.atom_id) {
            None => {},
            Some(i) => {
                let mut rec = clone_mounted(&self.mounted[i].1);
                let _none_left = rec.remove_listener(handle.listener);
                self.put_mount(handle.atom_id, rec);
                self.sweep();
            },
        }
    }

    /// Drains the listener tokens queued by finished flushes, in order.
    pub fn take_notifications(&mut self) -> (r: Vec<u64>)
        ensures
            r@ == old(self)@.notifications,
            final(self)@ == (StoreModel { notifications: Seq::empty(), ..old(self)@ }),
    {
        let r = copy_tokens(&self.notifications);
        self.notifications = Vec::new();
        proof {
            assert(self@.notifications =~= Seq::<u64>::empty());
        }
        r
    }

    /// Drains the queued mount-hook events: `(token, true)` for a mount,
    /// `(token, false)` for a cleanup, in the order they were queued.
    pub fn take_mount_events(&mut self) -> (r: Vec<(u64, bool)>)
        ensures
            r@ == old(self)@.lifecycle,
            final(self)@ == (StoreModel { lifecycle: Seq::empty(), ..old(self)@ }),
    {
        let mut out: Vec<(u64, bool)> = Vec::new();
        let mut i: usize = 0;
        while i < self.lifecycle.len()
            invariant
                i <= self.lifecycle.len(),
                self == old(self),
                out@ == self.lifecycle@.take(i as int),
            decreases self.lifecycle.len() - i,
        {
            out.push(self.lifecycle[i]);
            i = i + 1;
        }
        proof {
            assert(out@ =~= old(self)@.lifecycle);
        }
        self.lifecycle = Vec::new();
        proof {
            assert(self@.lifecycle =~= Seq::<(u64, bool)>::empty());
        }
        out
    }
}

/// An unsubscribe handle: the node and listener token one `sub` call
/// registered.
#[derive(Clone, Copy, Debug, PartialEq, Eq, Structural)]
pub struct Unsubscribe {
    pub atom_id: AtomId,
    pub listener: u64,
}

/// Copies a token list.
fn copy_tokens(src: &Vec<u64>) -> (out: Vec<u64>)
    ensures
        out@ == src@,
{
    let mut out: Vec<u64> = Vec::new();
    let mut i: usize = 0;
    while i < src.len()
        invariant
            i <= src.len(),
            out@ == src@.take(i as int),
        decreases src.len() - i,
    {
        out.push(src[i]);
        i = i + 1;
    }
    proof {
        assert(out@ =~= src@);
    }
    out
}

/// Clones a mount record; the copy has the same view.
fn clone_mounted(m: &Mounted) -> (r: Mounted)
    ensures
        r@ == m@,
{
    Mounted {
        listeners: copy_tokens(&m.listeners),
        dependencies: copy_ids(&m.dependencies),
        dependents: copy_ids(&m.dependents),
        cleanup: m.cleanup,
    }
}

/// A clone of an atom has the same view.
pub proof fn lemma_clone_atom_view(a: Atom<Value>, b: Atom<Value>)
    requires
        b.id == a.id,
        b.read == a.read,
        b.initial is Some <==> a.initial is Some,
        a.initial is Some ==> cloned::<Value>(a.initial->Some_0, b.initial->Some_0),
    ensures
        atom_view(b) == atom_view(a),
{
    if a.initial is Some {
        let x = a.initial->Some_0;
        let y = b.initial->Some_0;
        if call_ensures(Value::clone, (&x,), y) {
            assert(y == x);
        }
    }
}

} // verus!
