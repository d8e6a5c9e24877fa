//! Laws the store obeys, stated and proved over the model.

use vstd::prelude::*;

use crate::atom::{AtomView, ExprView, ReadBehaviorView, WritableAtomView};
use crate::error::ErrorView;
use crate::model::{
    assoc_get, assoc_has, bump_epoch, cell_of, lemma_assoc_get_has, lemma_assoc_set_get,
    lemma_assoc_set_has, register_atom, register_writable, set_cell, spec_eval, spec_get,
    spec_invalidate, spec_notify, spec_read, spec_recompute, spec_revalidate, spec_set, spec_sweep,
    spec_unsub, CellModel, StoreModel,
};
use crate::value::ValueView;

verus! {

/// Registering twice is registering once.
proof fn lemma_register_idempotent(s: StoreModel, a: AtomView)
    ensures
        register_atom(register_atom(s, a), a) == register_atom(s, a),
{
    let s1 = register_atom(s, a);
    assert(assoc_has(s1.registry, a.id)) by {
        if !assoc_has(s.registry, a.id) {
            assert(s1.registry[s.registry.len() as int] == (a.id, a));
        }
    }
    assert(assoc_has(s1.cells, a.id)) by {
        if !assoc_has(ensure_cell_pre(s, a).cells, a.id) {
            assert(s1.cells[s1.cells.len() - 1].0 == a.id);
        } else {
            let i = choose|i: int|
                0 <= i < ensure_cell_pre(s, a).cells.len() && ensure_cell_pre(s, a).cells[i].0
                    == a.id;
            assert(s1.cells[i].0 == a.id);
        }
    }
}

/// The store `register_atom` runs `ensure_cell` on.
spec fn ensure_cell_pre(s: StoreModel, a: AtomView) -> StoreModel {
    if assoc_has(s.registry, a.id) {
        s
    } else {
        StoreModel { registry: s.registry.push((a.id, a)), ..s }
    }
}

/// Without mount records, notification queues nothing.
proof fn lemma_notify_no_mounts(s: StoreModel, ids: Seq<int>)
    requires
        s.mounts.len() == 0,
    ensures
        spec_notify(s, ids) == s,
    decreases ids.len(),
{
    if ids.len() > 0 {
        lemma_assoc_get_has(s.mounts, ids[0]);
        lemma_notify_no_mounts(s, ids.drop_first());
    }
}

/// Without mount records, invalidation marks nothing.
proof fn lemma_invalidate_no_mounts(s: StoreModel, work: Seq<int>)
    requires
        s.mounts.len() == 0,
    ensures
        spec_invalidate(s, work) == s,
    decreases work.len(),
{
    if work.len() > 0 {
        lemma_assoc_get_has(s.mounts, work.last());
        lemma_invalidate_no_mounts(s, work.drop_last());
    }
}

/// In a store with no subscriptions and no pending recomputes, writing a
/// value to a primitive node and reading the node immediately after
/// returns exactly that value — the most recently set one, whatever was
/// set before — and the read changes nothing, so any sequence of writes
/// ends with a read of the last one.
pub proof fn lemma_set_then_get(s: StoreModel, wa: WritableAtomView, v: ValueView)
    requires
        wa.write is Direct,
        wa.atom.read is Primitive,
        s.mounts.len() == 0,
        s.invalidated.len() == 0,
    ensures
        ({
            let (s1, r) = spec_set(s, wa, v);
            &&& r == Ok::<(), ErrorView>(())
            &&& spec_get(s1, wa.atom).1 == Ok::<ValueView, ErrorView>(v)
            &&& spec_get(s1, wa.atom).0 == s1
            &&& s1.mounts.len() == 0
            &&& s1.invalidated.len() == 0
        }),
{
    let s0 = register_writable(s, wa);
    let id = wa.atom.id;
    let c = cell_of(s0, id);
    let sc = set_cell(s0, id, CellModel { epoch: bump_epoch(c.epoch), value: Some(Ok(v)), ..c });
    let s2 = if sc.changed.contains(id) {
        sc
    } else {
        StoreModel { changed: sc.changed.push(id), ..sc }
    };
    assert(seq![id].drop_last() =~= Seq::<int>::empty());
    assert(spec_invalidate(s2, seq![id]) == s2) by {
        lemma_assoc_get_has(s2.mounts, id);
        lemma_invalidate_no_mounts(s2, Seq::<int>::empty());
    }
    let s3 = s2;
    // the write itself
    assert(crate::model::spec_apply_write(s, wa, v) == (s3, Ok::<(), ErrorView>(())));
    // the flush is a no-op but for draining the changed set
    assert(s3.invalidated.len() == 0);
    assert(crate::model::spec_flush_recompute(s3, s3.invalidated, crate::model::olds_of(s3, s3.invalidated)) == s3);
    lemma_notify_no_mounts(s3, s3.changed);
    let s4 = StoreModel { invalidated: Seq::empty(), changed: Seq::empty(), ..s3 };
    assert(spec_set(s, wa, v) == (s4, Ok::<(), ErrorView>(())));
    // reading back: the node is registered, its cell holds the value
    assert(assoc_has(s4.registry, id)) by {
        if !assoc_has(s.registry, id) {
            assert(s0.registry[s.registry.len() as int] == (id, wa.atom));
        } else {
            let i = choose|i: int| 0 <= i < s.registry.len() && s.registry[i].0 == id;
            assert(s0.registry[i].0 == id);
        }
    }
    lemma_assoc_set_has(
        s0.cells,
        id,
        CellModel { epoch: bump_epoch(c.epoch), value: Some(Ok(v)), ..c },
        id,
    );
    assert(register_atom(s4, wa.atom) == s4);
    lemma_assoc_set_get(
        s0.cells,
        id,
        CellModel { epoch: bump_epoch(c.epoch), value: Some(Ok(v)), ..c },
        id,
    );
    assert(cell_of(s4, id).value == Some(Ok::<ValueView, ErrorView>(v)));
    assert(spec_read(s4, wa.atom, Seq::empty()) == (s4, Ok::<ValueView, ErrorView>(v)));
}

/// Notification: when a write changes a watched node, the finished flush
/// queues exactly that node's listeners, each once, in subscription
/// order. Stated for a quiet cycle: nothing else pending, and no mounted
/// node reading the written one.
pub proof fn lemma_direct_write_notifies(s: StoreModel, wa: WritableAtomView, v: ValueView)
    requires
        wa.write is Direct,
        s.invalidated.len() == 0,
        s.changed.len() == 0,
        assoc_get(s.mounts, wa.atom.id) is Some,
        assoc_get(s.mounts, wa.atom.id)->Some_0.dependents.len() == 0,
    ensures
        spec_set(s, wa, v).0.notifications == s.notifications + assoc_get(
            s.mounts,
            wa.atom.id,
        )->Some_0.listeners,
{
    let m = assoc_get(s.mounts, wa.atom.id)->Some_0;
    let id = wa.atom.id;
    let s0 = register_writable(s, wa);
    let c = cell_of(s0, id);
    let sc = set_cell(s0, id, CellModel { epoch: bump_epoch(c.epoch), value: Some(Ok(v)), ..c });
    assert(!sc.changed.contains(id));
    let s2 = StoreModel { changed: sc.changed.push(id), ..sc };
    // invalidation reaches only the (empty) dependent set
    assert(seq![id].drop_last() =~= Seq::<int>::empty());
    assert(seq![id].last() == id);
    assert(assoc_get(s2.mounts, id) == Some(m));
    assert(crate::model::mark_new(s2, Seq::<int>::empty(), m.dependents) == (
        s2,
        Seq::<int>::empty(),
    ));
    assert(spec_invalidate(s2, Seq::<int>::empty()) == s2);
    assert(spec_invalidate(s2, seq![id]) == s2);
    assert(crate::model::spec_apply_write(s, wa, v) == (s2, Ok::<(), ErrorView>(())));
    // the flush has nothing to recompute and one node to announce
    assert(s2.invalidated.len() == 0);
    assert(crate::model::spec_flush_recompute(
        s2,
        s2.invalidated,
        crate::model::olds_of(s2, s2.invalidated),
    ) == s2);
    assert(s2.changed =~= seq![id]);
    let sn = StoreModel { notifications: s2.notifications + m.listeners, ..s2 };
    assert(seq![id].drop_first() =~= Seq::<int>::empty());
    assert(spec_notify(sn, Seq::<int>::empty()) == sn);
    assert(spec_notify(s2, s2.changed) == sn);
    lemma_sweep_fields(sn);
}

/// Subscribing to a fresh primitive node on a quiet store computes and
/// caches its value and creates exactly one mount record — the node's own,
/// holding the fresh token as its one listener and no edges.
pub proof fn lemma_sub_primitive(s: StoreModel, a: AtomView)
    requires
        a.read is Primitive,
        a.initial is Some,
        s.mounts.len() == 0,
        s.invalidated.len() == 0,
        s.changed.len() == 0,
        !assoc_has(s.cells, a.id),
        !assoc_has(s.hooks, a.id),
    ensures
        ({
            let (s1, token) = crate::model::spec_sub(s, a);
            &&& token == s.next_listener
            &&& s1.mounts.len() == 1
            &&& s1.mounts[0].0 == a.id
            &&& s1.mounts[0].1.listeners == seq![token as u64]
            &&& s1.mounts[0].1.dependents == Seq::<int>::empty()
            &&& cell_of(s1, a.id).value == Some(Ok::<ValueView, ErrorView>(a.initial->Some_0))
        }),
{
    let v = a.initial->Some_0;
    // the subscription's read caches the initial value at epoch one
    let s0 = register_atom(s, a);
    lemma_assoc_get_has(s.cells, a.id);
    assert(cell_of(s0, a.id) == crate::model::empty_cell()) by {
        assert(s0.cells == s.cells.push((a.id, crate::model::empty_cell())));
        assert(forall|j: int| 0 <= j < s.cells.len() ==> s0.cells[j] == s.cells[j]);
        assert(s0.cells[s.cells.len() as int] == (a.id, crate::model::empty_cell()));
        crate::model::lemma_assoc_get_at_first(s0.cells, a.id, s.cells.len() as int);
    }
    let captured = CellModel { epoch: 1, value: Some(Ok(v)), deps: Seq::empty() };
    let sr = set_cell(s0, a.id, captured);
    assert(spec_read(s, a, Seq::empty()) == (sr, Ok::<ValueView, ErrorView>(v)));
    lemma_assoc_set_get(s0.cells, a.id, captured, a.id);
    assert(cell_of(sr, a.id) == captured);
    // mounting creates the node's record; there are no recorded deps
    lemma_assoc_get_has(sr.mounts, a.id);
    let record = crate::model::MountModel {
        listeners: Seq::empty(),
        deps: crate::model::dep_ids(captured.deps),
        dependents: Seq::empty(),
        cleanup: assoc_get(sr.hooks, a.id),
    };
    assert(record.cleanup is None) by {
        lemma_assoc_get_has(s.hooks, a.id);
    }
    let sm = StoreModel { mounts: sr.mounts.push((a.id, record)), ..sr };
    assert(crate::model::spec_mount(sr, a) == sm);
    // the fresh token becomes the record's one listener
    let token = sm.next_listener;
    assert(token == s.next_listener);
    assert(sm.mounts.len() == 1);
    assert(sm.mounts[0] == (a.id, record));
    assert(assoc_get(sm.mounts, a.id) == Some(record));
    let record2 = crate::model::MountModel {
        listeners: record.listeners.push(token as u64),
        ..record
    };
    let s3 = StoreModel {
        mounts: crate::model::assoc_set(sm.mounts, a.id, record2),
        next_listener: bump_epoch(sm.next_listener),
        ..sm
    };
    crate::model::lemma_assoc_set_at_first(sm.mounts, a.id, record2, 0);
    assert(s3.mounts =~= seq![(a.id, record2)]);
    // the closing flush finds nothing pending and nothing to sweep
    assert(s3.invalidated.len() == 0);
    assert(crate::model::spec_flush_recompute(
        s3,
        s3.invalidated,
        crate::model::olds_of(s3, s3.invalidated),
    ) == s3);
    assert(s3.changed.len() == 0);
    assert(spec_notify(s3, s3.changed) == s3);
    assert(crate::model::removable_index(s3.mounts.drop_first()) is None) by {
        assert(s3.mounts.drop_first() =~= Seq::<(int, crate::model::MountModel)>::empty());
    }
    assert(crate::model::removable_index(s3.mounts) is None);
    assert(spec_sweep(s3) == s3);
    let s4 = StoreModel { invalidated: Seq::empty(), changed: Seq::empty(), ..s3 };
    assert(crate::model::spec_sub(s, a) == (s4, token));
    assert(record2.listeners =~= seq![token as u64]);
    assert(cell_of(s4, a.id) == captured);
}

// ---------------------------------------------------------------------------
// Epoch monotonicity
// ---------------------------------------------------------------------------

/// No node's epoch is lower in `s2` than in `s1`.
pub open spec fn epochs_le(s1: StoreModel, s2: StoreModel) -> bool {
    forall|id: int| #[trigger] cell_of(s2, id).epoch >= cell_of(s1, id).epoch
}

/// Appending an entry leaves present keys' lookups alone and gives absent
/// keys the new binding.
proof fn lemma_assoc_get_push<V>(s: Seq<(int, V)>, k0: int, v0: V, k: int)
    ensures
        assoc_get(s.push((k0, v0)), k) == match assoc_get(s, k) {
            Some(v) => Some(v),
            None => if k == k0 {
                Some(v0)
            } else {
                None
            },
        },
    decreases s.len(),
{
    let t = s.push((k0, v0));
    if s.len() == 0 {
        assert(t[0] == (k0, v0));
        assert(t.drop_first() =~= Seq::<(int, V)>::empty());
    } else {
        assert(t[0] == s[0]);
        assert(t.drop_first() =~= s.drop_first().push((k0, v0)));
        lemma_assoc_get_push(s.drop_first(), k0, v0, k);
    }
}

/// Registering a node never lowers an epoch.
proof fn lemma_register_epochs(s: StoreModel, a: AtomView)
    ensures
        epochs_le(s, register_atom(s, a)),
{
    let s1 = register_atom(s, a);
    assert forall|id: int| cell_of(s1, id).epoch >= cell_of(s, id).epoch by {
        if !assoc_has(ensure_cell_pre(s, a).cells, a.id) {
            lemma_assoc_get_push(s.cells, a.id, crate::model::empty_cell(), id);
            lemma_assoc_get_has(s.cells, a.id);
        }
    }
}

/// Replacing one cell with one of no lower epoch never lowers an epoch.
proof fn lemma_set_cell_epochs(s: StoreModel, id: int, c: CellModel)
    requires
        c.epoch >= cell_of(s, id).epoch,
    ensures
        epochs_le(s, set_cell(s, id, c)),
{
    let s1 = set_cell(s, id, c);
    assert forall|q: int| cell_of(s1, q).epoch >= cell_of(s, q).epoch by {
        lemma_assoc_set_get(s.cells, id, c, q);
    }
}

/// Monotonicity composes.
proof fn lemma_epochs_le_trans(s1: StoreModel, s2: StoreModel, s3: StoreModel)
    requires
        epochs_le(s1, s2),
        epochs_le(s2, s3),
    ensures
        epochs_le(s1, s3),
{
    assert forall|id: int| cell_of(s3, id).epoch >= cell_of(s1, id).epoch by {
        assert(cell_of(s2, id).epoch >= cell_of(s1, id).epoch);
        assert(cell_of(s3, id).epoch >= cell_of(s2, id).epoch);
    }
}

/// Reading never lowers any node's epoch.
pub proof fn lemma_read_epochs_monotone(s: StoreModel, a: AtomView, chain: Seq<int>)
    ensures
        epochs_le(s, spec_read(s, a, chain).0),
    decreases crate::model::atom_height(a), 1nat, 0nat,
{
    let s0 = register_atom(s, a);
    lemma_register_epochs(s, a);
    match a.read {
        ReadBehaviorView::Primitive => {
            let c = cell_of(s0, a.id);
            match c.value {
                Some(_) => {},
                None => match a.initial {
                    Some(v) => {
                        lemma_set_cell_epochs(
                            s0,
                            a.id,
                            CellModel {
                                epoch: bump_epoch(c.epoch),
                                value: Some(Ok(v)),
                                deps: Seq::empty(),
                            },
                        );
                        lemma_epochs_le_trans(s, s0, spec_read(s, a, chain).0);
                    },
                    None => {},
                },
            }
        },
        ReadBehaviorView::Derived(_) => {
            let c = cell_of(s0, a.id);
            if c.value is Some {
                lemma_revalidate_epochs_monotone(s0, a, c.deps, chain);
                let (s1, ok) = spec_revalidate(s0, a, c.deps, chain);
                if ok && cell_of(s1, a.id).value is Some {
                    lemma_epochs_le_trans(s, s0, s1);
                } else {
                    lemma_recompute_epochs_monotone(s1, a, chain);
                    lemma_epochs_le_trans(s, s0, s1);
                    lemma_epochs_le_trans(s, s1, spec_recompute(s1, a, chain).0);
                }
            } else {
                lemma_recompute_epochs_monotone(s0, a, chain);
                lemma_epochs_le_trans(s, s0, spec_recompute(s0, a, chain).0);
            }
        },
    }
}

proof fn lemma_revalidate_epochs_monotone(
    s: StoreModel,
    a: AtomView,
    deps: Seq<(int, nat)>,
    chain: Seq<int>,
)
    ensures
        epochs_le(s, spec_revalidate(s, a, deps, chain).0),
    decreases crate::model::atom_height(a), 0nat, 2 + deps.len(),
{
    if deps.len() == 0 {
    } else {
        let d = deps[0];
        match crate::model::find_in_atom(a, d.0) {
            None => {},
            Some(da) => {
                crate::model::lemma_find_height_atom(a, d.0);
                lemma_read_epochs_monotone(s, da, chain.push(a.id));
                let (s1, _r) = spec_read(s, da, chain.push(a.id));
                if cell_of(s1, d.0).epoch == d.1 {
                    lemma_revalidate_epochs_monotone(s1, a, deps.drop_first(), chain);
                    lemma_epochs_le_trans(s, s1, spec_revalidate(s1, a, deps.drop_first(), chain).0);
                }
            },
        }
    }
}

proof fn lemma_recompute_epochs_monotone(s: StoreModel, a: AtomView, chain: Seq<int>)
    ensures
        epochs_le(s, spec_recompute(s, a, chain).0),
    decreases crate::model::atom_height(a), 0nat, 1nat,
{
    match a.read {
        ReadBehaviorView::Derived(e) => {
            let c0 = cell_of(s, a.id);
            let s1 = set_cell(s, a.id, CellModel { deps: Seq::empty(), ..c0 });
            lemma_assoc_set_get(s.cells, a.id, CellModel { deps: Seq::empty(), ..c0 }, a.id);
            lemma_set_cell_epochs(s, a.id, CellModel { deps: Seq::empty(), ..c0 });
            lemma_eval_epochs_monotone(s1, a.id, true, e, chain.push(a.id), None);
            let (s2, r) = spec_eval(s1, a.id, true, e, chain.push(a.id), None);
            let c2 = cell_of(s2, a.id);
            lemma_set_cell_epochs(s2, a.id, CellModel { epoch: bump_epoch(c2.epoch), value: Some(r), ..c2 });
            lemma_epochs_le_trans(s, s1, s2);
            lemma_epochs_le_trans(s, s2, spec_recompute(s, a, chain).0);
        },
        ReadBehaviorView::Primitive => {},
    }
}

proof fn lemma_eval_epochs_monotone(
    s: StoreModel,
    self_id: int,
    track: bool,
    e: ExprView,
    chain: Seq<int>,
    incoming: Option<ValueView>,
)
    ensures
        epochs_le(s, spec_eval(s, self_id, track, e, chain, incoming).0),
    decreases crate::model::expr_height(e), 2nat, 0nat,
{
    match e {
        ExprView::Read(m) => {
            lemma_read_epochs_monotone(s, *m, chain);
            let (s1, _r) = spec_read(s, *m, chain);
            if track {
                let c = cell_of(s1, self_id);
                if !crate::model::has_dep(c.deps, m.id) {
                    lemma_set_cell_epochs(
                        s1,
                        self_id,
                        CellModel { deps: c.deps.push((m.id, cell_of(s1, m.id).epoch)), ..c },
                    );
                }
                lemma_epochs_le_trans(s, s1, spec_eval(s, self_id, track, e, chain, incoming).0);
            }
        },
        ExprView::Plus(x, y) => {
            lemma_eval_epochs_monotone(s, self_id, track, *x, chain, incoming);
            let (s1, rx) = spec_eval(s, self_id, track, *x, chain, incoming);
            if rx is Ok {
                lemma_eval_epochs_monotone(s1, self_id, track, *y, chain, incoming);
                lemma_epochs_le_trans(s, s1, spec_eval(s1, self_id, track, *y, chain, incoming).0);
            }
        },
        ExprView::Times(x, y) => {
            lemma_eval_epochs_monotone(s, self_id, track, *x, chain, incoming);
            let (s1, rx) = spec_eval(s, self_id, track, *x, chain, incoming);
            if rx is Ok {
                lemma_eval_epochs_monotone(s1, self_id, track, *y, chain, incoming);
                lemma_epochs_le_trans(s, s1, spec_eval(s1, self_id, track, *y, chain, incoming).0);
            }
        },
        ExprView::Cond(c, t, f) => {
            lemma_eval_epochs_monotone(s, self_id, track, *c, chain, incoming);
            let (s1, rc) = spec_eval(s, self_id, track, *c, chain, incoming);
            match rc {
                Ok(ValueView::VBool(b)) => {
                    if b {
                        lemma_eval_epochs_monotone(s1, self_id, track, *t, chain, incoming);
                        lemma_epochs_le_trans(
                            s,
                            s1,
                            spec_eval(s1, self_id, track, *t, chain, incoming).0,
                        );
                    } else {
                        lemma_eval_epochs_monotone(s1, self_id, track, *f, chain, incoming);
                        lemma_epochs_le_trans(
                            s,
                            s1,
                            spec_eval(s1, self_id, track, *f, chain, incoming).0,
                        );
                    }
                },
                _ => {},
            }
        },
        _ => {},
    }
}

/// Mounting touches only mount records and the event queue, never a cell.
proof fn lemma_mount_cells(s: StoreModel, a: AtomView)
    ensures
        crate::model::spec_mount(s, a).cells == s.cells,
    decreases crate::model::atom_height(a), 1nat, 0nat,
{
    if !assoc_has(s.mounts, a.id) {
        let record = crate::model::MountModel {
            listeners: Seq::empty(),
            deps: crate::model::dep_ids(cell_of(s, a.id).deps),
            dependents: Seq::empty(),
            cleanup: assoc_get(s.hooks, a.id),
        };
        let s1 = StoreModel {
            mounts: s.mounts.push((a.id, record)),
            lifecycle: match assoc_get(s.hooks, a.id) {
                Some(t) => s.lifecycle.push((t, true)),
                None => s.lifecycle,
            },
            ..s
        };
        lemma_mount_deps_cells(s1, a, cell_of(s, a.id).deps);
    }
}

proof fn lemma_mount_deps_cells(s: StoreModel, a: AtomView, deps: Seq<(int, nat)>)
    ensures
        crate::model::spec_mount_deps(s, a, deps).cells == s.cells,
    decreases crate::model::atom_height(a), 0nat, deps.len(),
{
    if deps.len() > 0 {
        let d = deps[0].0;
        match crate::model::find_in_atom(a, d) {
            None => {
                lemma_mount_deps_cells(s, a, deps.drop_first());
            },
            Some(da) => {
                crate::model::lemma_find_height_atom(a, d);
                lemma_mount_cells(s, da);
                let s1 = crate::model::spec_mount(s, da);
                let s2 = crate::model::add_dependent_edge(s1, d, a.id);
                assert(s2.cells == s1.cells);
                lemma_mount_deps_cells(s2, a, deps.drop_first());
            },
        }
    }
}

/// Dropping stale dependent edges touches no cell.
proof fn lemma_drop_stale_cells(s: StoreModel, olds: Seq<int>, keep: Seq<int>, n: int)
    ensures
        crate::model::drop_stale_edges(s, olds, keep, n).cells == s.cells,
    decreases olds.len(),
{
    if olds.len() > 0 {
        let s1 = if keep.contains(olds[0]) {
            s
        } else {
            crate::model::remove_dependent_edge(s, olds[0], n)
        };
        assert(s1.cells == s.cells);
        lemma_drop_stale_cells(s1, olds.drop_first(), keep, n);
    }
}

/// Refreshing mount edges touches no cell.
proof fn lemma_refresh_cells(s: StoreModel, a: AtomView)
    ensures
        crate::model::refresh_mount_edges(s, a).cells == s.cells,
{
    if assoc_has(s.mounts, a.id) {
        let new_deps = cell_of(s, a.id).deps;
        lemma_mount_deps_cells(s, a, new_deps);
        let s1 = crate::model::spec_mount_deps(s, a, new_deps);
        match assoc_get(s1.mounts, a.id) {
            None => {},
            Some(m) => {
                let s2 = StoreModel {
                    mounts: crate::model::assoc_set(
                        s1.mounts,
                        a.id,
                        crate::model::MountModel { deps: crate::model::dep_ids(new_deps), ..m },
                    ),
                    ..s1
                };
                lemma_drop_stale_cells(s2, m.deps, crate::model::dep_ids(new_deps), a.id);
            },
        }
    }
}

/// Sweeping touches only mount records and the event queue.
proof fn lemma_sweep_fields(s: StoreModel)
    ensures
        spec_sweep(s).cells == s.cells,
        spec_sweep(s).notifications == s.notifications,
    decreases s.mounts.len(),
{
    crate::model::lemma_removable_index_bounds(s.mounts);
    match crate::model::removable_index(s.mounts) {
        None => {},
        Some(i) => {
            let n = s.mounts[i].0;
            let record = s.mounts[i].1;
            let s1 = StoreModel {
                mounts: crate::model::drop_dependent_everywhere(s.mounts.remove(i), n),
                lifecycle: match record.cleanup {
                    Some(t) => s.lifecycle.push((t, false)),
                    None => s.lifecycle,
                },
                ..s
            };
            lemma_sweep_fields(s1);
        },
    }
}

/// Invalidation only marks nodes; it touches no cell.
proof fn lemma_invalidate_cells(s: StoreModel, work: Seq<int>)
    ensures
        spec_invalidate(s, work).cells == s.cells,
    decreases crate::model::count_unmarked(crate::model::keys_of(s.mounts), s.invalidated),
            work.len(),
{
    if work.len() > 0 {
        let w = work.last();
        let rest = work.drop_last();
        match assoc_get(s.mounts, w) {
            None => {
                lemma_invalidate_cells(s, rest);
            },
            Some(mnt) => {
                crate::model::lemma_mark_new(s, rest, mnt.dependents);
                let (s1, w1) = crate::model::mark_new(s, rest, mnt.dependents);
                lemma_invalidate_cells(s1, w1);
            },
        }
    }
}

/// A direct write never lowers any node's epoch.
proof fn lemma_apply_direct_epochs(s: StoreModel, id: int, v: ValueView)
    ensures
        epochs_le(s, crate::model::apply_direct(s, id, v)),
{
    let c = cell_of(s, id);
    let s1 = set_cell(s, id, CellModel { epoch: bump_epoch(c.epoch), value: Some(Ok(v)), ..c });
    lemma_set_cell_epochs(s, id, CellModel { epoch: bump_epoch(c.epoch), value: Some(Ok(v)), ..c });
    let s2 = if s1.changed.contains(id) {
        s1
    } else {
        StoreModel { changed: s1.changed.push(id), ..s1 }
    };
    lemma_invalidate_cells(s2, seq![id]);
    assert(epochs_le(s1, crate::model::apply_direct(s, id, v)));
    lemma_epochs_le_trans(s, s1, crate::model::apply_direct(s, id, v));
}

/// Applying a write behavior never lowers any node's epoch.
proof fn lemma_apply_write_epochs(s: StoreModel, wa: WritableAtomView, v: ValueView)
    ensures
        epochs_le(s, crate::model::spec_apply_write(s, wa, v).0),
    decreases crate::model::wa_height(wa), 1nat,
{
    let s0 = register_writable(s, wa);
    assert(epochs_le(s, s0)) by {
        lemma_register_epochs(s, wa.atom);
        let sr = register_atom(s, wa.atom);
        assert(s0.cells == sr.cells);
        assert forall|id: int| cell_of(s0, id).epoch >= cell_of(s, id).epoch by {
            assert(cell_of(s0, id) == cell_of(sr, id));
        }
    }
    match wa.write {
        crate::atom::WriteBehaviorView::Direct => {
            lemma_apply_direct_epochs(s0, wa.atom.id, v);
            lemma_epochs_le_trans(s, s0, crate::model::spec_apply_write(s, wa, v).0);
        },
        crate::atom::WriteBehaviorView::Program(steps) => {
            lemma_run_steps_epochs(s0, wa.atom.id, steps, v);
            lemma_epochs_le_trans(s, s0, crate::model::spec_apply_write(s, wa, v).0);
        },
    }
}

proof fn lemma_run_steps_epochs(
    s: StoreModel,
    writer: int,
    steps: Seq<crate::atom::WriteStepView>,
    v: ValueView,
)
    ensures
        epochs_le(s, crate::model::spec_run_steps(s, writer, steps, v).0),
    decreases crate::model::ws_height(steps), 0nat,
{
    if steps.len() > 0 {
        let st = steps[0];
        lemma_eval_epochs_monotone(s, st.target.atom.id, false, st.expr, Seq::empty(), Some(v));
        let (s1, re) = spec_eval(s, st.target.atom.id, false, st.expr, Seq::empty(), Some(v));
        match re {
            Err(_) => {},
            Ok(val) => {
                lemma_apply_write_epochs(s1, st.target, val);
                let (s2, r2) = crate::model::spec_apply_write(s1, st.target, val);
                lemma_epochs_le_trans(s, s1, s2);
                match r2 {
                    Err(_) => {},
                    Ok(_) => {
                        lemma_run_steps_epochs(s2, writer, steps.drop_first(), v);
                        lemma_epochs_le_trans(
                            s,
                            s2,
                            crate::model::spec_run_steps(s2, writer, steps.drop_first(), v).0,
                        );
                    },
                }
            },
        }
    }
}

/// The flush never lowers any node's epoch.
proof fn lemma_flush_epochs(s: StoreModel)
    ensures
        epochs_le(s, crate::model::spec_flush(s)),
{
    lemma_flush_recompute_epochs(s, s.invalidated, crate::model::olds_of(s, s.invalidated));
    let s1 = crate::model::spec_flush_recompute(s, s.invalidated, crate::model::olds_of(s, s.invalidated));
    lemma_notify_cells(s1, s1.changed);
    let s2 = spec_notify(s1, s1.changed);
    lemma_sweep_fields(s2);
    assert(spec_sweep(s2).cells == s1.cells);
    assert(epochs_le(s1, crate::model::spec_flush(s))) by {
        assert forall|q: int|
            cell_of(crate::model::spec_flush(s), q).epoch >= cell_of(s1, q).epoch by {
            assert(cell_of(crate::model::spec_flush(s), q) == cell_of(s1, q));
        }
    }
    lemma_epochs_le_trans(s, s1, crate::model::spec_flush(s));
}

proof fn lemma_notify_cells(s: StoreModel, ids: Seq<int>)
    ensures
        spec_notify(s, ids).cells == s.cells,
    decreases ids.len(),
{
    if ids.len() > 0 {
        match assoc_get(s.mounts, ids[0]) {
            None => {
                lemma_notify_cells(s, ids.drop_first());
            },
            Some(mnt) => {
                lemma_notify_cells(
                    StoreModel { notifications: s.notifications + mnt.listeners, ..s },
                    ids.drop_first(),
                );
            },
        }
    }
}

proof fn lemma_flush_recompute_epochs(
    s: StoreModel,
    ids: Seq<int>,
    olds: Seq<Option<Result<ValueView, ErrorView>>>,
)
    ensures
        epochs_le(s, crate::model::spec_flush_recompute(s, ids, olds)),
    decreases ids.len(),
{
    if ids.len() > 0 && olds.len() > 0 {
        let id = ids[0];
        let s2 = match assoc_get(s.registry, id) {
            None => s,
            Some(a) => {
                lemma_read_epochs_monotone(s, a, Seq::empty());
                let (s1, _r) = spec_read(s, a, Seq::empty());
                let sc = if cell_of(s1, id).value == olds[0] || s1.changed.contains(id) {
                    s1
                } else {
                    StoreModel { changed: s1.changed.push(id), ..s1 }
                };
                crate::model::refresh_mount_edges(sc, a)
            },
        };
        assert(epochs_le(s, s2)) by {
            match assoc_get(s.registry, id) {
                None => {},
                Some(a) => {
                    let (s1, _r) = spec_read(s, a, Seq::empty());
                    let sc = if cell_of(s1, id).value == olds[0] || s1.changed.contains(id) {
                        s1
                    } else {
                        StoreModel { changed: s1.changed.push(id), ..s1 }
                    };
                    lemma_refresh_cells(sc, a);
                    assert(s2.cells == s1.cells);
                    assert forall|q: int| cell_of(s2, q).epoch >= cell_of(s, q).epoch by {
                        assert(cell_of(s2, q) == cell_of(s1, q));
                    }
                },
            }
        }
        lemma_flush_recompute_epochs(s2, ids.drop_first(), olds.drop_first());
        lemma_epochs_le_trans(s, s2, crate::model::spec_flush_recompute(s2, ids.drop_first(), olds.drop_first()));
    }
}

/// Epochs are monotonic: no store operation ever lowers a node's version.
/// (Reads are covered by `lemma_read_epochs_monotone`.)
pub proof fn lemma_set_epochs_monotone(s: StoreModel, wa: WritableAtomView, v: ValueView)
    ensures
        epochs_le(s, spec_set(s, wa, v).0),
{
    lemma_apply_write_epochs(s, wa, v);
    let (s1, _r) = crate::model::spec_apply_write(s, wa, v);
    lemma_flush_epochs(s1);
    lemma_epochs_le_trans(s, s1, spec_set(s, wa, v).0);
}

/// Functional purity of recomputation: whenever a derived node is
/// recomputed, the value captured in its cell is exactly the evaluation of
/// its read behavior, and the dependency record holds exactly the reads
/// that evaluation performed.
pub proof fn lemma_recompute_purity(s: StoreModel, a: AtomView, chain: Seq<int>)
    requires
        a.read is Derived,
    ensures
        ({
            let e = a.read->Derived_0;
            let c0 = cell_of(s, a.id);
            let s1 = set_cell(s, a.id, CellModel { deps: Seq::empty(), ..c0 });
            let (s2, r) = spec_eval(s1, a.id, true, e, chain.push(a.id), None);
            let (s3, out) = spec_recompute(s, a, chain);
            &&& out == r
            &&& cell_of(s3, a.id).value == Some(r)
            &&& cell_of(s3, a.id).deps == cell_of(s2, a.id).deps
            &&& cell_of(s3, a.id).epoch == bump_epoch(cell_of(s2, a.id).epoch)
        }),
{
    let e = a.read->Derived_0;
    let c0 = cell_of(s, a.id);
    let s1 = set_cell(s, a.id, CellModel { deps: Seq::empty(), ..c0 });
    let (s2, r) = spec_eval(s1, a.id, true, e, chain.push(a.id), None);
    let c2 = cell_of(s2, a.id);
    lemma_assoc_set_get(
        s2.cells,
        a.id,
        CellModel { epoch: bump_epoch(c2.epoch), value: Some(r), ..c2 },
        a.id,
    );
}

/// Reading a primitive node twice with nothing in between returns the same
/// value both times, and the second read changes nothing — in particular,
/// the node's epoch stays as it was.
pub proof fn lemma_get_idempotent_primitive(s: StoreModel, a: AtomView)
    requires
        a.read is Primitive,
    ensures
        ({
            let (s1, r1) = spec_get(s, a);
            let (s2, r2) = spec_get(s1, a);
            &&& s2 == s1
            &&& r2 == r1
            &&& cell_of(s2, a.id).epoch == cell_of(s1, a.id).epoch
        }),
{
    let s0 = register_atom(s, a);
    lemma_register_idempotent(s, a);
    let c = cell_of(s0, a.id);
    match c.value {
        Some(_) => {},
        None => {
            match a.initial {
                Some(v) => {
                    let c1 = CellModel {
                        epoch: bump_epoch(c.epoch),
                        value: Some(Ok(v)),
                        deps: Seq::empty(),
                    };
                    let s1 = set_cell(s0, a.id, c1);
                    assert(assoc_has(s1.registry, a.id)) by {
                        assert(assoc_has(s0.registry, a.id)) by {
                            if !assoc_has(s.registry, a.id) {
                                assert(s0.registry[s.registry.len() as int] == (a.id, a));
                            }
                        }
                    }
                    lemma_assoc_set_has(s0.cells, a.id, c1, a.id);
                    assert(register_atom(s1, a) == s1);
                    lemma_assoc_set_get(s0.cells, a.id, c1, a.id);
                    assert(cell_of(s1, a.id).value == Some(Ok::<ValueView, ErrorView>(v)));
                },
                None => {},
            }
        },
    }
}

/// Whether an expression performs no reads at all.
pub open spec fn reads_nothing(e: ExprView) -> bool
    decreases e,
{
    match e {
        ExprView::Lit(_) => true,
        ExprView::Read(_) => false,
        ExprView::ReadSelf => true,
        ExprView::Arg => true,
        ExprView::Plus(x, y) => reads_nothing(*x) && reads_nothing(*y),
        ExprView::Times(x, y) => reads_nothing(*x) && reads_nothing(*y),
        ExprView::Cond(c, t, f) => reads_nothing(*c) && reads_nothing(*t) && reads_nothing(*f),
        ExprView::Fail(_) => true,
    }
}

/// Evaluating a read-free expression leaves the store as it was.
proof fn lemma_eval_reads_nothing(
    s: StoreModel,
    self_id: int,
    track: bool,
    e: ExprView,
    chain: Seq<int>,
    incoming: Option<ValueView>,
)
    requires
        reads_nothing(e),
    ensures
        spec_eval(s, self_id, track, e, chain, incoming).0 == s,
    decreases crate::model::expr_height(e), 2nat, 0nat,
{
    match e {
        ExprView::Plus(x, y) => {
            lemma_eval_reads_nothing(s, self_id, track, *x, chain, incoming);
            let (s1, rx) = spec_eval(s, self_id, track, *x, chain, incoming);
            lemma_eval_reads_nothing(s1, self_id, track, *y, chain, incoming);
        },
        ExprView::Times(x, y) => {
            lemma_eval_reads_nothing(s, self_id, track, *x, chain, incoming);
            let (s1, rx) = spec_eval(s, self_id, track, *x, chain, incoming);
            lemma_eval_reads_nothing(s1, self_id, track, *y, chain, incoming);
        },
        ExprView::Cond(c, t, f) => {
            lemma_eval_reads_nothing(s, self_id, track, *c, chain, incoming);
            let (s1, rc) = spec_eval(s, self_id, track, *c, chain, incoming);
            lemma_eval_reads_nothing(s1, self_id, track, *t, chain, incoming);
            lemma_eval_reads_nothing(s1, self_id, track, *f, chain, incoming);
        },
        _ => {},
    }
}

/// The first read of a read-free derived node: when the cache is missing
/// or its dependency record is stale, the node recomputes once; either
/// way the read ends with a cached outcome, an empty dependency record,
/// and the node registered.
proof fn first_read_shape(s: StoreModel, a: AtomView)
    requires
        a.read is Derived,
        reads_nothing(a.read->Derived_0),
    ensures
        ({
            let (s1, r1) = spec_get(s, a);
            &&& register_atom(s1, a) == s1
            &&& cell_of(s1, a.id).value == Some(r1)
            &&& cell_of(s1, a.id).deps.len() == 0
        }),
{
    let e = a.read->Derived_0;
    let s0 = register_atom(s, a);
    lemma_register_idempotent(s, a);
    let c = cell_of(s0, a.id);
    let empty_chain = Seq::<int>::empty();
    assert(assoc_has(s0.registry, a.id)) by {
        if !assoc_has(s.registry, a.id) {
            assert(s0.registry[s.registry.len() as int] == (a.id, a));
        }
    }
    if c.value is Some && c.deps.len() == 0 {
        // fresh at once: the read returns the cached outcome unchanged
        assert(spec_revalidate(s0, a, c.deps, empty_chain) == (s0, true));
        assert(spec_get(s, a) == (s0, c.value->Some_0));
    } else {
        // the read recomputes: characterize the recompute
        let cleared = CellModel { deps: Seq::<(int, nat)>::empty(), ..c };
        let sb1 = set_cell(s0, a.id, cleared);
        lemma_eval_reads_nothing(sb1, a.id, true, e, empty_chain.push(a.id), None);
        let (sb2, r) = spec_eval(sb1, a.id, true, e, empty_chain.push(a.id), None);
        assert(sb2 == sb1);
        lemma_assoc_set_get(s0.cells, a.id, cleared, a.id);
        let cb2 = cell_of(sb2, a.id);
        assert(cb2 == cleared);
        let captured = CellModel { epoch: bump_epoch(cb2.epoch), value: Some(r), ..cb2 };
        lemma_assoc_set_get(sb2.cells, a.id, captured, a.id);
        let (s3, out) = spec_recompute(s0, a, empty_chain);
        assert(out == r);
        assert(cell_of(s3, a.id) == captured);
        lemma_assoc_set_has(s0.cells, a.id, cleared, a.id);
        lemma_assoc_set_has(sb2.cells, a.id, captured, a.id);
        assert(register_atom(s3, a) == s3);
        if c.value is Some {
            // the stale path: revalidation fails on the first recorded
            // dependency, because a read-free behavior embeds no atom
            lemma_find_nothing(e, c.deps[0].0);
            assert(spec_revalidate(s0, a, c.deps, empty_chain) == (s0, false));
            assert(spec_get(s, a) == (s3, r));
        } else {
            assert(spec_get(s, a) == (s3, r));
        }
    }
}

/// Reading a derived node whose behavior performs no reads twice with
/// nothing in between returns the same outcome both times, and the second
/// read changes nothing — in particular, the node's epoch stays as it was.
pub proof fn lemma_get_idempotent_closed_derived(s: StoreModel, a: AtomView)
    requires
        a.read is Derived,
        reads_nothing(a.read->Derived_0),
    ensures
        ({
            let (s1, r1) = spec_get(s, a);
            let (s2, r2) = spec_get(s1, a);
            &&& s2 == s1
            &&& r2 == r1
            &&& cell_of(s2, a.id).epoch == cell_of(s1, a.id).epoch
        }),
{
    first_read_shape(s, a);
    let (s1, r1) = spec_get(s, a);
    // the second read finds a registered node with a cached outcome and an
    // empty dependency record, so it returns the cache and changes nothing
    assert(register_atom(s1, a) == s1);
    assert(spec_revalidate(s1, a, cell_of(s1, a.id).deps, Seq::<int>::empty()) == (s1, true));
    assert(spec_get(s1, a) == (s1, r1));
}

// ---------------------------------------------------------------------------
// Unsubscribe idempotence
// ---------------------------------------------------------------------------

/// How often `t` occurs in a token list.
pub open spec fn token_count(s: Seq<u64>, t: u64) -> nat
    decreases s.len(),
{
    if s.len() == 0 {
        0
    } else {
        token_count(s.drop_first(), t) + if s[0] == t {
            1nat
        } else {
            0nat
        }
    }
}

proof fn lemma_token_count_contains(s: Seq<u64>, t: u64)
    ensures
        s.contains(t) <==> token_count(s, t) > 0,
    decreases s.len(),
{
    if s.len() > 0 {
        lemma_token_count_contains(s.drop_first(), t);
        if s.contains(t) && s[0] != t {
            let i = choose|i: int| 0 <= i < s.len() && s[i] == t;
            assert(s.drop_first()[i - 1] == t);
        }
        if s.drop_first().contains(t) {
            let i = choose|i: int| 0 <= i < s.drop_first().len() && s.drop_first()[i] == t;
            assert(s[i + 1] == t);
        }
    }
}

proof fn lemma_remove_token_count(s: Seq<u64>, t: u64)
    ensures
        token_count(crate::model::remove_token(s, t), t) == if token_count(s, t) > 0 {
            (token_count(s, t) - 1) as nat
        } else {
            0nat
        },
        token_count(s, t) == 0 ==> crate::model::remove_token(s, t) == s,
    decreases s.len(),
{
    if s.len() > 0 {
        lemma_remove_token_count(s.drop_first(), t);
        if s[0] != t {
            let r = crate::model::remove_token(s, t);
            assert(r[0] == s[0]);
            assert(r.drop_first() =~= crate::model::remove_token(s.drop_first(), t));
            if token_count(s.drop_first(), t) == 0 {
                assert(r =~= s);
            }
        }
    }
}

/// Binding a key to the value it already holds changes nothing.
proof fn lemma_assoc_set_same<V>(s: Seq<(int, V)>, k: int, v: V)
    requires
        assoc_get(s, k) == Some(v),
    ensures
        crate::model::assoc_set(s, k, v) == s,
    decreases s.len(),
{
    if s.len() > 0 {
        if s[0].0 == k {
            assert(s[0] == (k, v));
            assert(crate::model::assoc_set(s, k, v) =~= s);
        } else {
            lemma_assoc_set_same(s.drop_first(), k, v);
            assert(crate::model::assoc_set(s, k, v) =~= s);
        }
    }
}

/// With distinct keys, any entry decides the lookup.
proof fn lemma_assoc_get_unique<V>(s: Seq<(int, V)>, j: int)
    requires
        crate::model::assoc_wf(s),
        0 <= j < s.len(),
    ensures
        assoc_get(s, s[j].0) == Some(s[j].1),
{
    assert(forall|i: int| 0 <= i < j ==> s[i].0 != s[j].0);
    crate::model::lemma_assoc_get_at_first(s, s[j].0, j);
}

/// Removing an entry keeps the keys distinct.
proof fn lemma_assoc_wf_remove<V>(s: Seq<(int, V)>, i: int)
    requires
        crate::model::assoc_wf(s),
        0 <= i < s.len(),
    ensures
        crate::model::assoc_wf(s.remove(i)),
{
    let t = s.remove(i);
    assert forall|p: int, q: int| 0 <= p < q < t.len() implies t[p].0 != t[q].0 by {
        let p0 = if p < i {
            p
        } else {
            p + 1
        };
        let q0 = if q < i {
            q
        } else {
            q + 1
        };
        assert(t[p] == s[p0]);
        assert(t[q] == s[q0]);
    }
}

/// One sweep pass keeps keys distinct and preserves each surviving
/// record's listener list.
proof fn lemma_sweep_preserves(s: StoreModel)
    requires
        crate::model::assoc_wf(s.mounts),
    ensures
        crate::model::assoc_wf(spec_sweep(s).mounts),
        forall|k: int| #[trigger]
            assoc_get(spec_sweep(s).mounts, k) is Some ==> assoc_get(s.mounts, k) is Some
                && assoc_get(spec_sweep(s).mounts, k)->Some_0.listeners == assoc_get(
                s.mounts,
                k,
            )->Some_0.listeners,
    decreases s.mounts.len(),
{
    crate::model::lemma_removable_index_bounds(s.mounts);
    match crate::model::removable_index(s.mounts) {
        None => {},
        Some(i) => {
            let n = s.mounts[i].0;
            let record = s.mounts[i].1;
            let removed = s.mounts.remove(i);
            let mounts1 = crate::model::drop_dependent_everywhere(removed, n);
            lemma_assoc_wf_remove(s.mounts, i);
            assert(crate::model::assoc_wf(mounts1)) by {
                assert(forall|j: int|
                    0 <= j < mounts1.len() ==> mounts1[j].0 == removed[j].0);
            }
            let s1 = StoreModel {
                mounts: mounts1,
                lifecycle: match record.cleanup {
                    Some(t) => s.lifecycle.push((t, false)),
                    None => s.lifecycle,
                },
                ..s
            };
            lemma_sweep_preserves(s1);
            assert forall|k: int| #[trigger]
                assoc_get(mounts1, k) is Some implies assoc_get(s.mounts, k) is Some && assoc_get(
                mounts1,
                k,
            )->Some_0.listeners == assoc_get(s.mounts, k)->Some_0.listeners by {
                crate::model::lemma_assoc_get_has(mounts1, k);
                let j = choose|j: int| 0 <= j < mounts1.len() && mounts1[j].0 == k;
                lemma_assoc_get_unique(mounts1, j);
                let j0 = if j < i {
                    j
                } else {
                    j + 1
                };
                assert(removed[j] == s.mounts[j0]);
                assert(mounts1[j].1.listeners == removed[j].1.listeners);
                lemma_assoc_get_unique(s.mounts, j0);
            }
        },
    }
}

/// A swept store has nothing left to sweep.
proof fn lemma_sweep_fixpoint(s: StoreModel)
    ensures
        crate::model::removable_index(spec_sweep(s).mounts) is None,
        spec_sweep(spec_sweep(s)) == spec_sweep(s),
    decreases s.mounts.len(),
{
    crate::model::lemma_removable_index_bounds(s.mounts);
    match crate::model::removable_index(s.mounts) {
        None => {},
        Some(i) => {
            let n = s.mounts[i].0;
            let record = s.mounts[i].1;
            let s1 = StoreModel {
                mounts: crate::model::drop_dependent_everywhere(s.mounts.remove(i), n),
                lifecycle: match record.cleanup {
                    Some(t) => s.lifecycle.push((t, false)),
                    None => s.lifecycle,
                },
                ..s
            };
            lemma_sweep_fixpoint(s1);
        },
    }
}

/// Unsubscribe idempotence: using the same handle a second time changes
/// nothing. Stated for stores whose mount table has distinct keys and
/// registers the handle's token at most once — which is how subscriptions
/// hand tokens out.
pub proof fn lemma_unsub_idempotent(s: StoreModel, id: int, token: u64)
    requires
        crate::model::assoc_wf(s.mounts),
        assoc_get(s.mounts, id) matches Some(m) ==> token_count(m.listeners, token) <= 1,
    ensures
        spec_unsub(spec_unsub(s, id, token), id, token) == spec_unsub(s, id, token),
{
    match assoc_get(s.mounts, id) {
        None => {},
        Some(m) => {
            let m1 = crate::model::MountModel {
                listeners: crate::model::remove_token(m.listeners, token),
                ..m
            };
            let s_mid = StoreModel {
                mounts: crate::model::assoc_set(s.mounts, id, m1),
                ..s
            };
            let s1 = spec_sweep(s_mid);
            assert(spec_unsub(s, id, token) == s1);
            lemma_remove_token_count(m.listeners, token);
            assert(token_count(m1.listeners, token) == 0);
            lemma_assoc_set_has(s.mounts, id, m1, id);
            lemma_sweep_preserves(s_mid);
            lemma_sweep_fixpoint(s_mid);
            match assoc_get(s1.mounts, id) {
                None => {},
                Some(r) => {
                    lemma_assoc_set_get(s.mounts, id, m1, id);
                    assert(r.listeners == m1.listeners);
                    lemma_token_count_contains(r.listeners, token);
                    lemma_remove_token_count(r.listeners, token);
                    assert(crate::model::remove_token(r.listeners, token) == r.listeners);
                    assert((crate::model::MountModel { listeners: r.listeners, ..r }) == r);
                    lemma_assoc_set_same(s1.mounts, id, r);
                    assert((StoreModel {
                        mounts: crate::model::assoc_set(
                            s1.mounts,
                            id,
                            crate::model::MountModel {
                                listeners: crate::model::remove_token(r.listeners, token),
                                ..r
                            },
                        ),
                        ..s1
                    }) == s1);
                },
            }
        },
    }
}

/// A read-free expression embeds no atom.
proof fn lemma_find_nothing(e: ExprView, id: int)
    requires
        reads_nothing(e),
    ensures
        crate::model::find_in_expr(e, id) is None,
    decreases e,
{
    match e {
        ExprView::Plus(x, y) => {
            lemma_find_nothing(*x, id);
            lemma_find_nothing(*y, id);
        },
        ExprView::Times(x, y) => {
            lemma_find_nothing(*x, id);
            lemma_find_nothing(*y, id);
        },
        ExprView::Cond(c, t, f) => {
            lemma_find_nothing(*c, id);
            lemma_find_nothing(*t, id);
            lemma_find_nothing(*f, id);
        },
        _ => {},
    }
}

/// A node whose read behavior reads the node itself yields a
/// Circular-Dependency error carrying the chain of node ids; the error is
/// captured into the node's cell like any other outcome. (That a read can
/// never hang is the termination measure of the read path itself, which
/// Verus checks for every input.)
pub proof fn lemma_self_read_is_circular(s: StoreModel, a: AtomView)
    requires
        a.read == ReadBehaviorView::Derived(ExprView::ReadSelf),
        !assoc_has(s.cells, a.id),
    ensures
        spec_get(s, a).1 == Err::<ValueView, ErrorView>(
            ErrorView::CircularDependency { atom_id: a.id, dependency_chain: seq![a.id, a.id] },
        ),
        cell_of(spec_get(s, a).0, a.id).value == Some(spec_get(s, a).1),
{
    let s0 = register_atom(s, a);
    lemma_assoc_get_has(s.cells, a.id);
    assert(cell_of(s0, a.id) == crate::model::empty_cell()) by {
        assert(s0.cells == s.cells.push((a.id, crate::model::empty_cell())));
        assert(forall|j: int| 0 <= j < s.cells.len() ==> s0.cells[j] == s.cells[j]);
        assert(s0.cells[s.cells.len() as int] == (a.id, crate::model::empty_cell()));
        crate::model::lemma_assoc_get_at_first(s0.cells, a.id, s.cells.len() as int);
    }
    let c = cell_of(s0, a.id);
    let s1 = set_cell(s0, a.id, CellModel { deps: Seq::empty(), ..c });
    let chain = Seq::<int>::empty().push(a.id);
    let (s2, r) = spec_eval(s1, a.id, true, ExprView::ReadSelf, chain, None);
    assert(r == Err::<ValueView, ErrorView>(
        ErrorView::CircularDependency { atom_id: a.id, dependency_chain: seq![a.id, a.id] },
    )) by {
        assert(chain.push(a.id) =~= seq![a.id, a.id]);
    }
    let c2 = cell_of(s2, a.id);
    lemma_assoc_set_get(
        s2.cells,
        a.id,
        CellModel { epoch: bump_epoch(c2.epoch), value: Some(r), ..c2 },
        a.id,
    );
}

} // verus!
