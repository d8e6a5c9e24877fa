//! Per-node state records used by the store.
//!
//! [`AtomState`] is the state cell of one node: a cached outcome, a
//! monotonic epoch, and the dependencies recorded by the last computation.
//! [`Mounted`] is the subscription record a node has only while observed.

use vstd::prelude::*;

use crate::atom::{AtomId, EpochNumber};
use crate::error::{AtomError, ErrorView};
use crate::model::{CellModel, MountModel};
use crate::value::{Value, ValueView};

verus! {

/// The view of a cached outcome.
pub open spec fn outcome_view(v: Option<Result<Value, AtomError>>) -> Option<Result<
    ValueView,
    ErrorView,
>> {
    match v {
        None => None,
        Some(Ok(x)) => Some(Ok(x@)),
        Some(Err(e)) => Some(Err(e@)),
    }
}

/// The view of a recorded dependency list.
pub open spec fn deps_view(s: Seq<(AtomId, EpochNumber)>) -> Seq<(int, nat)> {
    s.map_values(|p: (AtomId, EpochNumber)| (p.0 as int, p.1 as nat))
}

/// State for a single node: cached outcome, epoch, recorded dependencies.
#[derive(Debug)]
pub struct AtomState {
    /// Dependencies read by the last computation, each with the epoch it
    /// had at that moment.
    pub dependencies: Vec<(AtomId, EpochNumber)>,
    /// Version counter, grown by one on every (re)computation.
    pub epoch: EpochNumber,
    /// The cached value, or the error the last computation produced.
    pub value: Option<Result<Value, AtomError>>,
}

impl View for AtomState {
    type V = CellModel;

    open spec fn view(&self) -> CellModel {
        CellModel {
            epoch: self.epoch as nat,
            value: outcome_view(self.value),
            deps: deps_view(self.dependencies@),
        }
    }
}

impl AtomState {
    /// A cell for a node that was never computed.
    pub fn new() -> (r: Self)
        ensures
            r@ == crate::model::empty_cell(),
    {
        let r = AtomState { dependencies: Vec::new(), epoch: 0, value: None };
        proof {
            assert(r@.deps =~= crate::model::empty_cell().deps);
        }
        r
    }

    /// A cell already holding `value` at epoch zero.
    pub fn with_value(value: Value) -> (r: Self)
        ensures
            r@.epoch == 0,
            r@.value == Some(Result::<ValueView, ErrorView>::Ok(value@)),
            r@.deps == Seq::<(int, nat)>::empty(),
    {
        let r = AtomState { dependencies: Vec::new(), epoch: 0, value: Some(Ok(value)) };
        proof {
            assert(r@.deps =~= Seq::<(int, nat)>::empty());
        }
        r
    }

    /// Whether the cached value may be used against the given current
    /// epochs: a value is present and every recorded dependency's entry in
    /// `current_epochs` equals the recorded epoch.
    pub fn is_fresh(&self, current_epochs: &Vec<(AtomId, EpochNumber)>) -> (r: bool)
        ensures
            r == (self@.value is Some && forall|i: int|
                0 <= i < self@.deps.len() ==> crate::model::assoc_get(
                    deps_view(current_epochs@),
                    self@.deps[i].0,
                ) == Some(self@.deps[i].1)),
    {
        if self.value.is_none() {
            return false;
        }
        let mut i: usize = 0;
        while i < self.dependencies.len()
            invariant
                i <= self.dependencies.len(),
                forall|j: int|
                    0 <= j < i as int ==> crate::model::assoc_get(
                        deps_view(current_epochs@),
                        self@.deps[j].0,
                    ) == Some(self@.deps[j].1),
            decreases self.dependencies.len() - i,
        {
            let (dep, recorded) = self.dependencies[i];
            proof {
                assert(self@.deps[i as int] == (dep as int, recorded as nat));
            }
            match lookup_epoch(current_epochs, dep) {
                Some(cur) => {
                    proof {
                        assert(crate::model::assoc_get(deps_view(current_epochs@), dep as int)
                            == Some(cur as nat));
                    }
                    if cur != recorded {
                        return false;
                    }
                    proof {
                        assert(crate::model::assoc_get(deps_view(current_epochs@), dep as int)
                            == Some(self@.deps[i as int].1));
                    }
                },
                None => {
                    return false;
                },
            }
            i = i + 1;
        }
        true
    }

    /// Marks the cell stale by dropping the cached value, forcing the next
    /// read to recompute.
    pub fn invalidate(&mut self)
        ensures
            final(self)@.value is None,
            final(self)@.epoch == old(self)@.epoch,
            final(self)@.deps == old(self)@.deps,
    {
        self.value = None;
    }

    /// Stores a value and grows the epoch.
    pub fn set_value(&mut self, value: Value)
        ensures
            final(self)@.value == Some(Result::<ValueView, ErrorView>::Ok(value@)),
            final(self)@.epoch == crate::model::bump_epoch(old(self)@.epoch),
            final(self)@.deps == old(self)@.deps,
    {
        self.value = Some(Ok(value));
        if self.epoch < u64::MAX {
            self.epoch = self.epoch + 1;
        }
    }

    /// Stores an error and grows the epoch.
    pub fn set_error(&mut self, error: AtomError)
        ensures
            final(self)@.value == Some(Result::<ValueView, ErrorView>::Err(error@)),
            final(self)@.epoch == crate::model::bump_epoch(old(self)@.epoch),
            final(self)@.deps == old(self)@.deps,
    {
        self.value = Some(Err(error));
        if self.epoch < u64::MAX {
            self.epoch = self.epoch + 1;
        }
    }

    /// Records that this node read `atom_id` at `epoch`; the record is a
    /// map, so an epoch already recorded for that id is overwritten.
    pub fn add_dependency(&mut self, atom_id: AtomId, epoch: EpochNumber)
        ensures
            final(self)@.deps == crate::model::assoc_set(
                old(self)@.deps,
                atom_id as int,
                epoch as nat,
            ),
            final(self)@.epoch == old(self)@.epoch,
            final(self)@.value == old(self)@.value,
    {
        let mut i: usize = 0;
        while i < self.dependencies.len()
            invariant
                self == old(self),
                i <= self.dependencies.len(),
                forall|j: int| 0 <= j < i as int ==> self@.deps[j].0 != atom_id as int,
            decreases self.dependencies.len() - i,
        {
            if self.dependencies[i].0 == atom_id {
                proof {
                    assert(self@.deps[i as int].0 == atom_id as int);
                    crate::model::lemma_assoc_set_at_first(
                        self@.deps,
                        atom_id as int,
                        epoch as nat,
                        i as int,
                    );
                }
                let ghost pre = self@.deps;
                self.dependencies.set(i, (atom_id, epoch));
                proof {
                    assert(self@.deps =~= pre.update(i as int, (atom_id as int, epoch as nat)));
                }
                return ;
            }
            i = i + 1;
        }
        proof {
            assert(forall|j: int|
                0 <= j < self@.deps.len() ==> self@.deps[j].0 != atom_id as int);
            crate::model::lemma_assoc_set_absent(self@.deps, atom_id as int, epoch as nat);
        }
        let ghost pre = self@.deps;
        self.dependencies.push((atom_id, epoch));
        proof {
            assert(self@.deps =~= pre.push((atom_id as int, epoch as nat)));
        }
    }

    /// Drops all recorded dependencies, before a recompute rebuilds them.
    pub fn clear_dependencies(&mut self)
        ensures
            final(self)@.deps == Seq::<(int, nat)>::empty(),
            final(self)@.epoch == old(self)@.epoch,
            final(self)@.value == old(self)@.value,
    {
        self.dependencies = Vec::new();
        proof {
            assert(final(self)@.deps =~= Seq::<(int, nat)>::empty());
        }
    }
}

/// The entry for `dep` in an epoch table, by first match.
fn lookup_epoch(t: &Vec<(AtomId, EpochNumber)>, dep: AtomId) -> (r: Option<EpochNumber>)
    ensures
        r == match crate::model::assoc_get(deps_view(t@), dep as int) {
            Some(e) => Some(e as EpochNumber),
            None => None,
        },
        r is Some ==> crate::model::assoc_get(deps_view(t@), dep as int) == Some(
            r->Some_0 as nat,
        ),
{
    let mut i: usize = 0;
    while i < t.len()
        invariant
            i <= t.len(),
            forall|j: int| 0 <= j < i as int ==> deps_view(t@)[j].0 != dep as int,
        decreases t.len() - i,
    {
        if t[i].0 == dep {
            proof {
                crate::model::lemma_assoc_get_at_first(deps_view(t@), dep as int, i as int);
            }
            return Some(t[i].1);
        }
        i = i + 1;
    }
    proof {
        crate::model::lemma_assoc_get_absent(deps_view(t@), dep as int);
    }
    None
}

// ---------------------------------------------------------------------------
// Mount records
// ---------------------------------------------------------------------------

/// The view of an id set kept as a vector.
pub open spec fn ids_view(s: Seq<AtomId>) -> Seq<int> {
    s.map_values(|x: AtomId| x as int)
}

/// Subscription record for an observed node.
#[derive(Debug)]
pub struct Mounted {
    /// Listener tokens to notify when this node's value changes, in
    /// subscription order.
    pub listeners: Vec<u64>,
    /// Ids of the nodes this node reads.
    pub dependencies: Vec<AtomId>,
    /// Ids of the mounted nodes that read this node.
    pub dependents: Vec<AtomId>,
    /// Token of the mount hook whose cleanup is owed on unmount, if any.
    pub cleanup: Option<u64>,
}

impl View for Mounted {
    type V = MountModel;

    open spec fn view(&self) -> MountModel {
        MountModel {
            listeners: self.listeners@,
            deps: ids_view(self.dependencies@),
            dependents: ids_view(self.dependents@),
            cleanup: self.cleanup,
        }
    }
}

impl Mounted {
    /// An empty mount record.
    pub fn new() -> (r: Self)
        ensures
            r@.listeners == Seq::<u64>::empty(),
            r@.deps == Seq::<int>::empty(),
            r@.dependents == Seq::<int>::empty(),
            r@.cleanup is None,
    {
        let r = Mounted {
            listeners: Vec::new(),
            dependencies: Vec::new(),
            dependents: Vec::new(),
            cleanup: None,
        };
        proof {
            assert(r@.deps =~= Seq::<int>::empty());
            assert(r@.dependents =~= Seq::<int>::empty());
        }
        r
    }

    /// Registers a listener token.
    pub fn add_listener(&mut self, listener: u64)
        ensures
            final(self)@ == (MountModel {
                listeners: old(self)@.listeners.push(listener),
                ..old(self)@
            }),
    {
        self.listeners.push(listener);
    }

    /// Removes one occurrence of a listener token; true means no listener
    /// is left, so the record should be unmounted.
    pub fn remove_listener(&mut self, listener: u64) -> (r: bool)
        ensures
            final(self)@ == (MountModel {
                listeners: crate::model::remove_token(old(self)@.listeners, listener),
                ..old(self)@
            }),
            r == (final(self)@.listeners.len() == 0),
    {
        let mut i: usize = 0;
        while i < self.listeners.len()
            invariant
                self == old(self),
                i <= self.listeners.len(),
                forall|j: int| 0 <= j < i as int ==> self.listeners@[j] != listener,
            decreases self.listeners.len() - i,
        {
            if self.listeners[i] == listener {
                self.listeners.remove(i);
                proof {
                    lemma_seq_remove_first_at(old(self).listeners@, listener, i as int);
                }
                return self.listeners.len() == 0;
            }
            i = i + 1;
        }
        proof {
            lemma_seq_remove_first_absent(self.listeners@, listener);
        }
        self.listeners.len() == 0
    }

    /// Whether any listener is registered.
    pub fn has_listeners(&self) -> (r: bool)
        ensures
            r == (self@.listeners.len() > 0),
    {
        self.listeners.len() > 0
    }

    /// Adds a dependency edge (kept as a set: a present id is not added twice).
    pub fn add_dependency(&mut self, atom_id: AtomId)
        ensures
            final(self)@ == (MountModel {
                deps: if old(self)@.deps.contains(atom_id as int) {
                    old(self)@.deps
                } else {
                    old(self)@.deps.push(atom_id as int)
                },
                ..old(self)@
            }),
    {
        if !contains_id(&self.dependencies, atom_id) {
            self.dependencies.push(atom_id);
            proof {
                assert(final(self)@.deps =~= old(self)@.deps.push(atom_id as int));
            }
        }
    }

    /// Adds a dependent edge (kept as a set: a present id is not added twice).
    pub fn add_dependent(&mut self, atom_id: AtomId)
        ensures
            final(self)@ == (MountModel {
                dependents: if old(self)@.dependents.contains(atom_id as int) {
                    old(self)@.dependents
                } else {
                    old(self)@.dependents.push(atom_id as int)
                },
                ..old(self)@
            }),
    {
        if !contains_id(&self.dependents, atom_id) {
            self.dependents.push(atom_id);
            proof {
                assert(final(self)@.dependents =~= old(self)@.dependents.push(atom_id as int));
            }
        }
    }

    /// Removes one occurrence of a dependent edge.
    pub fn remove_dependent(&mut self, atom_id: AtomId)
        ensures
            final(self)@ == (MountModel {
                dependents: crate::model::remove_id(old(self)@.dependents, atom_id as int),
                ..old(self)@
            }),
    {
        let mut i: usize = 0;
        while i < self.dependents.len()
            invariant
                self == old(self),
                i <= self.dependents.len(),
                forall|j: int| 0 <= j < i as int ==> ids_view(self.dependents@)[j] != atom_id as int,
            decreases self.dependents.len() - i,
        {
            if self.dependents[i] == atom_id {
                proof {
                    assert(ids_view(self.dependents@)[i as int] == atom_id as int);
                    lemma_ids_remove_first_at(ids_view(self.dependents@), atom_id as int, i as int);
                }
                let ghost pre = self.dependents@;
                self.dependents.remove(i);
                proof {
                    assert(ids_view(self.dependents@) =~= ids_view(pre).remove(i as int));
                }
                return ;
            }
            i = i + 1;
        }
        proof {
            lemma_ids_remove_first_absent(ids_view(self.dependents@), atom_id as int);
        }
    }

    /// The listener tokens to notify, in subscription order.
    pub fn notify_listeners(&self) -> (r: Vec<u64>)
        ensures
            r@ == self@.listeners,
    {
        let mut out: Vec<u64> = Vec::new();
        let mut i: usize = 0;
        while i < self.listeners.len()
            invariant
                i <= self.listeners.len(),
                out@ == self.listeners@.take(i as int),
            decreases self.listeners.len() - i,
        {
            out.push(self.listeners[i]);
            i = i + 1;
        }
        proof {
            assert(out@ =~= self@.listeners);
        }
        out
    }

    /// Consumes the record, handing back the cleanup token owed, if any.
    pub fn cleanup(self) -> (r: Option<u64>)
        ensures
            r == self@.cleanup,
    {
        self.cleanup
    }
}

// ---------------------------------------------------------------------------
// Topological ordering
// ---------------------------------------------------------------------------

/// The view of a dependency table.
pub open spec fn dep_table_view(s: Seq<(AtomId, Vec<AtomId>)>) -> Seq<(int, Seq<int>)> {
    s.map_values(|p: (AtomId, Vec<AtomId>)| (p.0 as int, ids_view(p.1@)))
}

/// The direct dependencies of `id` in the table (none when absent).
pub open spec fn table_deps(t: Seq<(int, Seq<int>)>, id: int) -> Seq<int> {
    match crate::model::assoc_get(t, id) {
        Some(d) => d,
        None => Seq::empty(),
    }
}

/// Dependencies come first: every direct dependency of an ordered node
/// that is itself among the sorted nodes appears earlier in the order.
pub open spec fn dependency_first(order: Seq<int>, table: Seq<(int, Seq<int>)>, atoms: Seq<int>) -> bool {
    forall|i: int, j: int|
        0 <= i < order.len() && 0 <= j < table_deps(table, order[i]).len() && atoms.contains(
            #[trigger] table_deps(table, order[i])[j],
        ) ==> exists|k: int| 0 <= k < i && order[k] == table_deps(table, order[i])[j]
}

/// A dependency cycle within the sorted set: a path of two or more nodes
/// that starts and ends at the same node, each step a direct dependency,
/// every node among the sorted ones.
pub open spec fn is_cycle(p: Seq<int>, table: Seq<(int, Seq<int>)>, atoms: Seq<int>) -> bool {
    &&& p.len() >= 2
    &&& p[0] == p.last()
    &&& forall|i: int|
        0 <= i < p.len() - 1 ==> table_deps(table, #[trigger] p[i]).contains(p[i + 1])
    &&& forall|i: int| 0 <= i < p.len() ==> atoms.contains(#[trigger] p[i])
}

/// Whether the dependency graph restricted to the sorted set has a cycle.
pub open spec fn has_cycle(atoms: Seq<int>, table: Seq<(int, Seq<int>)>) -> bool {
    exists|p: Seq<int>| is_cycle(p, table, atoms)
}

/// Every node marked but not yet ordered is on the walk's stack.
pub open spec fn stack_inv(seen: Seq<int>, order: Seq<int>, chain: Seq<int>) -> bool {
    forall|x: int| seen.contains(x) && !order.contains(x) ==> chain.contains(x)
}

/// The walk's stack is a dependency path through the sorted set.
pub open spec fn path_inv(chain: Seq<int>, table: Seq<(int, Seq<int>)>, atoms: Seq<int>) -> bool {
    &&& forall|i: int|
        0 <= i < chain.len() - 1 ==> table_deps(table, #[trigger] chain[i]).contains(chain[i + 1])
    &&& forall|i: int| 0 <= i < chain.len() ==> atoms.contains(#[trigger] chain[i])
}

/// What a partial walk guarantees: the order holds distinct sorted nodes,
/// each marked seen, dependencies first.
pub open spec fn walk_inv(
    atoms: Seq<int>,
    table: Seq<(int, Seq<int>)>,
    seen: Seq<int>,
    order: Seq<int>,
) -> bool {
    &&& forall|i: int, j: int| 0 <= i < j < order.len() ==> order[i] != order[j]
    &&& forall|i: int| 0 <= i < order.len() ==> atoms.contains(#[trigger] order[i]) && seen.contains(order[i])
    &&& dependency_first(order, table, atoms)
}

/// Orders a set of nodes dependency-before-dependent.
///
/// The walk is a depth-first traversal with a two-color marker: a node
/// reached again while still being visited closes a cycle, and the whole
/// sort fails with a Circular-Dependency error carrying the chain of node
/// ids on the walk's stack.
pub struct TopologicalSorter {
    /// The nodes to order.
    pub atoms: Vec<AtomId>,
    /// Direct dependencies, keyed by node id.
    pub dependencies: Vec<(AtomId, Vec<AtomId>)>,
}

impl TopologicalSorter {
    /// A dependency-first order of the nodes: every node appears exactly
    /// once, and each of its direct dependencies that is itself among the
    /// nodes appears before it. The sort fails — with a Circular-Dependency
    /// error — exactly on inputs whose dependency graph, restricted to the
    /// sorted set, closes a cycle.
    pub fn sort(&self) -> (r: Result<Vec<AtomId>, AtomError>)
        ensures
            r matches Ok(order) ==> ({
                let os = ids_view(order@);
                let atoms = ids_view(self.atoms@);
                &&& forall|x: int| os.contains(x) <==> atoms.contains(x)
                &&& forall|i: int, j: int| 0 <= i < j < os.len() ==> os[i] != os[j]
                &&& dependency_first(os, dep_table_view(self.dependencies@), atoms)
            }),
            r matches Err(e) ==> e is CircularDependency && has_cycle(
                ids_view(self.atoms@),
                dep_table_view(self.dependencies@),
            ),
            !has_cycle(ids_view(self.atoms@), dep_table_view(self.dependencies@)) ==> r is Ok,
    {
        let mut seen: Vec<AtomId> = Vec::new();
        let mut order: Vec<AtomId> = Vec::new();
        let mut chain: Vec<AtomId> = Vec::new();
        let ghost atoms = ids_view(self.atoms@);
        let ghost table = dep_table_view(self.dependencies@);
        let mut i: usize = 0;
        while i < self.atoms.len()
            invariant
                i <= self.atoms.len(),
                atoms == ids_view(self.atoms@),
                table == dep_table_view(self.dependencies@),
                walk_inv(atoms, table, ids_view(seen@), ids_view(order@)),
                chain@.len() == 0,
                stack_inv(ids_view(seen@), ids_view(order@), ids_view(chain@)),
                forall|j: int| 0 <= j < i as int ==> ids_view(order@).contains(atoms[j]),
            decreases self.atoms.len() - i,
        {
            let n = self.atoms[i];
            proof {
                assert(atoms[i as int] == n as int);
            }
            let ghost order_pre = ids_view(order@);
            if !contains_id(&order, n) {
                match self.visit(n, &mut seen, &mut order, &mut chain) {
                    Ok(_) => {},
                    Err(e) => {
                        return Err(e);
                    },
                }
            }
            proof {
                assert forall|j: int|
                    0 <= j < i as int + 1 implies ids_view(order@).contains(atoms[j]) by {
                    if j < i as int {
                        let k = choose|k: int|
                            0 <= k < order_pre.len() && order_pre[k] == atoms[j];
                        assert(ids_view(order@)[k] == atoms[j]);
                    }
                }
            }
            i = i + 1;
        }
        proof {
            let os = ids_view(order@);
            assert forall|x: int| os.contains(x) implies atoms.contains(x) by {
                let k = choose|k: int| 0 <= k < os.len() && os[k] == x;
            }
            assert forall|x: int| atoms.contains(x) implies os.contains(x) by {
                let k = choose|k: int| 0 <= k < atoms.len() && atoms[k] == x;
            }
        }
        Ok(order)
    }

    /// The direct dependencies of `n`, by first match (none when absent).
    fn deps_of(&self, n: AtomId) -> (r: Vec<AtomId>)
        ensures
            ids_view(r@) == table_deps(dep_table_view(self.dependencies@), n as int),
    {
        let ghost table = dep_table_view(self.dependencies@);
        let mut i: usize = 0;
        while i < self.dependencies.len()
            invariant
                i <= self.dependencies.len(),
                table == dep_table_view(self.dependencies@),
                forall|j: int| 0 <= j < i as int ==> table[j].0 != n as int,
            decreases self.dependencies.len() - i,
        {
            if self.dependencies[i].0 == n {
                proof {
                    assert(table[i as int] == (n as int, ids_view(self.dependencies@[i as int].1@)));
                    crate::model::lemma_assoc_get_at_first(table, n as int, i as int);
                }
                return crate::store::copy_ids(&self.dependencies[i].1);
            }
            proof {
                assert(table[i as int].0 == self.dependencies@[i as int].0 as int);
            }
            i = i + 1;
        }
        proof {
            crate::model::lemma_assoc_get_absent(table, n as int);
            assert(ids_view(Seq::<AtomId>::empty()) =~= Seq::<int>::empty());
        }
        Vec::new()
    }

    /// Visits `n`: marks it, visits its in-set dependencies depth-first,
    /// then appends it to the order; a node reached while already marked
    /// but not yet ordered closes a cycle.
    fn visit(
        &self,
        n: AtomId,
        seen: &mut Vec<AtomId>,
        order: &mut Vec<AtomId>,
        chain: &mut Vec<AtomId>,
    ) -> (r: Result<(), AtomError>)
        requires
            ids_view(self.atoms@).contains(n as int),
            walk_inv(
                ids_view(self.atoms@),
                dep_table_view(self.dependencies@),
                ids_view(old(seen)@),
                ids_view(old(order)@),
            ),
            stack_inv(ids_view(old(seen)@), ids_view(old(order)@), ids_view(old(chain)@)),
            path_inv(
                ids_view(old(chain)@),
                dep_table_view(self.dependencies@),
                ids_view(self.atoms@),
            ),
            ids_view(old(chain)@).len() == 0 || table_deps(
                dep_table_view(self.dependencies@),
                ids_view(old(chain)@).last(),
            ).contains(n as int),
        ensures
            walk_inv(
                ids_view(self.atoms@),
                dep_table_view(self.dependencies@),
                ids_view(final(seen)@),
                ids_view(final(order)@),
            ),
            forall|x: int|
                ids_view(old(seen)@).contains(x) ==> ids_view(final(seen)@).contains(x),
            final(order)@.len() >= old(order)@.len(),
            forall|k: int| 0 <= k < old(order)@.len() ==> final(order)@[k] == old(order)@[k],
            forall|x: int|
                ids_view(final(order)@).contains(x) ==> ids_view(old(order)@).contains(x)
                    || !ids_view(old(seen)@).contains(x),
            crate::model::count_unmarked(ids_view(self.atoms@), ids_view(final(seen)@))
                <= crate::model::count_unmarked(ids_view(self.atoms@), ids_view(old(seen)@)),
            r is Ok ==> ids_view(final(order)@).contains(n as int),
            r is Ok ==> stack_inv(
                ids_view(final(seen)@),
                ids_view(final(order)@),
                ids_view(final(chain)@),
            ),
            r matches Err(e) ==> e is CircularDependency && has_cycle(
                ids_view(self.atoms@),
                dep_table_view(self.dependencies@),
            ),
            final(chain)@ == old(chain)@,
        decreases
                crate::model::count_unmarked(ids_view(self.atoms@), ids_view(seen@)),
                0nat,
                0nat,
    {
        let ghost atoms = ids_view(self.atoms@);
        let ghost table = dep_table_view(self.dependencies@);
        if contains_id(order, n) {
            return Ok(());
        }
        if contains_id(seen, n) {
            proof {
                // `n` is marked but not ordered, so it sits on the stack;
                // the stack's suffix from that spot, closed with `n`, is a
                // dependency cycle within the sorted set
                let ch = ids_view(chain@);
                assert(ch.contains(n as int));
                let i = choose|i: int| 0 <= i < ch.len() && ch[i] == n as int;
                let p = ch.skip(i).push(n as int);
                assert(is_cycle(p, table, atoms)) by {
                    assert(p.len() == ch.len() - i + 1);
                    assert(p[0] == ch[i]);
                    assert(p.last() == n as int);
                    assert forall|q: int|
                        0 <= q < p.len() - 1 implies table_deps(table, p[q]).contains(
                        p[q + 1],
                    ) by {
                        assert(p[q] == ch[i + q]);
                        if q < p.len() - 2 {
                            assert(p[q + 1] == ch[i + q + 1]);
                        } else {
                            assert(i + q == ch.len() - 1);
                            assert(p[q + 1] == n as int);
                            assert(ch.last() == ch[ch.len() - 1]);
                        }
                    }
                    assert forall|q: int| 0 <= q < p.len() implies atoms.contains(p[q]) by {
                        if q < p.len() - 1 {
                            assert(p[q] == ch[i + q]);
                        } else {
                            assert(p[q] == n as int);
                        }
                    }
                }
                assert(has_cycle(atoms, table));
            }
            let mut ids = crate::store::copy_ids(chain);
            ids.push(n);
            return Err(AtomError::CircularDependency { atom_id: n, dependency_chain: ids });
        }
        let ghost seen0 = ids_view(seen@);
        seen.push(n);
        proof {
            assert(ids_view(seen@) =~= seen0.push(n as int));
            crate::model::lemma_count_unmarked_mark(atoms, seen0, n as int);
            assert forall|x: int| seen0.contains(x) implies ids_view(seen@).contains(x) by {
                let k = choose|k: int| 0 <= k < seen0.len() && seen0[k] == x;
                assert(ids_view(seen@)[k] == x);
            }
            assert(ids_view(seen@).contains(n as int)) by {
                assert(ids_view(seen@)[seen0.len() as int] == n as int);
            }
        }
        let ghost chain0 = ids_view(chain@);
        chain.push(n);
        proof {
            assert(ids_view(chain@) =~= chain0.push(n as int));
            // the stack keeps its shape: everything marked-but-unordered
            // was already on it, and `n` is its new last element
            assert forall|x: int|
                ids_view(seen@).contains(x) && !ids_view(order@).contains(x) implies ids_view(
                chain@,
            ).contains(x) by {
                if x == n as int {
                    assert(ids_view(chain@)[chain0.len() as int] == n as int);
                } else {
                    let k = choose|k: int| 0 <= k < ids_view(seen@).len() && ids_view(seen@)[k] == x;
                    assert(seen0.contains(x)) by {
                        assert(ids_view(seen@)[k] == seen0.push(n as int)[k]);
                    }
                    let q = choose|q: int| 0 <= q < chain0.len() && chain0[q] == x;
                    assert(ids_view(chain@)[q] == x);
                }
            }
            // and it stays a dependency path
            assert forall|i: int|
                0 <= i < ids_view(chain@).len() - 1 implies table_deps(
                table,
                ids_view(chain@)[i],
            ).contains(ids_view(chain@)[i + 1]) by {
                if i < chain0.len() - 1 {
                    assert(ids_view(chain@)[i] == chain0[i]);
                    assert(ids_view(chain@)[i + 1] == chain0[i + 1]);
                } else {
                    assert(chain0.last() == chain0[chain0.len() - 1]);
                    assert(ids_view(chain@)[i] == chain0[i]);
                    assert(ids_view(chain@)[i + 1] == n as int);
                }
            }
            assert forall|i: int|
                0 <= i < ids_view(chain@).len() implies atoms.contains(ids_view(chain@)[i]) by {
                if i < chain0.len() {
                    assert(ids_view(chain@)[i] == chain0[i]);
                } else {
                    assert(ids_view(chain@)[i] == n as int);
                }
            }
            assert(ids_view(chain@).last() == n as int);
        }
        let deps = self.deps_of(n);
        let ghost order_pre = ids_view(order@);
        let ghost seen_pre = ids_view(seen@);
        let r = self.visit_deps(n, &deps, 0, seen, order, chain);
        chain.pop();
        proof {
            assert(ids_view(chain@) =~= chain0);
        }
        match r {
            Err(e) => Err(e),
            Ok(_) => {
                let ghost order0 = ids_view(order@);
                proof {
                    // `n` was not appended while its dependencies were
                    // visited: everything appended there was unmarked when
                    // that walk began, and `n` was already marked
                    assert(!order0.contains(n as int)) by {
                        if order0.contains(n as int) {
                            assert(order_pre.contains(n as int) || !seen_pre.contains(n as int));
                        }
                    }
                }
                order.push(n);
                proof {
                    assert(ids_view(order@) =~= order0.push(n as int));
                    let os = ids_view(order@);
                    assert forall|x: int| order0.contains(x) implies os.contains(x) by {
                        let k = choose|k: int| 0 <= k < order0.len() && order0[k] == x;
                        assert(os[k] == x);
                    }
                    assert(os.contains(n as int)) by {
                        assert(os[order0.len() as int] == n as int);
                    }
                    assert(dependency_first(os, table, atoms)) by {
                        assert forall|i: int, j: int|
                            0 <= i < os.len() && 0 <= j < table_deps(table, os[i]).len()
                                && atoms.contains(
                                #[trigger] table_deps(table, os[i])[j],
                            ) implies exists|k: int|
                            0 <= k < i && os[k] == table_deps(table, os[i])[j] by {
                            if i < order0.len() {
                                assert(os[i] == order0[i]);
                                let k = choose|k: int|
                                    0 <= k < i && order0[k] == table_deps(table, order0[i])[j];
                                assert(os[k] == table_deps(table, os[i])[j]);
                            } else {
                                assert(os[i] == n as int);
                                assert(table_deps(table, n as int)[j] == ids_view(deps@)[j]);
                                assert(order0.contains(ids_view(deps@)[j]));
                                let k = choose|k: int|
                                    0 <= k < order0.len() && order0[k] == ids_view(deps@)[j];
                                assert(os[k] == table_deps(table, os[i])[j]);
                            }
                        }
                    }
                    // the stack shape survives: `n` left the stack for the
                    // order, and everything else marked-but-unordered was
                    // already below it
                    assert forall|x: int|
                        ids_view(seen@).contains(x) && !os.contains(x) implies ids_view(
                        chain@,
                    ).contains(x) by {
                        assert(!order0.contains(x)) by {
                            if order0.contains(x) {
                                let k = choose|k: int|
                                    0 <= k < order0.len() && order0[k] == x;
                                assert(os[k] == x);
                            }
                        }
                        assert(chain0.push(n as int).contains(x));
                        let k = choose|k: int|
                            0 <= k < chain0.push(n as int).len() && chain0.push(n as int)[k] == x;
                        assert(x != n as int);
                        assert(k < chain0.len());
                        assert(ids_view(chain@)[k] == x);
                    }
                }
                Ok(())
            },
        }
    }

    /// Visits each dependency of `n` (from `idx` on) that is among the
    /// nodes being sorted.
    fn visit_deps(
        &self,
        n: AtomId,
        deps: &Vec<AtomId>,
        idx: usize,
        seen: &mut Vec<AtomId>,
        order: &mut Vec<AtomId>,
        chain: &mut Vec<AtomId>,
    ) -> (r: Result<(), AtomError>)
        requires
            idx <= deps@.len(),
            walk_inv(
                ids_view(self.atoms@),
                dep_table_view(self.dependencies@),
                ids_view(old(seen)@),
                ids_view(old(order)@),
            ),
            stack_inv(ids_view(old(seen)@), ids_view(old(order)@), ids_view(old(chain)@)),
            path_inv(
                ids_view(old(chain)@),
                dep_table_view(self.dependencies@),
                ids_view(self.atoms@),
            ),
            ids_view(old(chain)@).len() > 0,
            ids_view(old(chain)@).last() == n as int,
            ids_view(self.atoms@).contains(n as int),
            ids_view(deps@) == table_deps(dep_table_view(self.dependencies@), n as int),
        ensures
            walk_inv(
                ids_view(self.atoms@),
                dep_table_view(self.dependencies@),
                ids_view(final(seen)@),
                ids_view(final(order)@),
            ),
            forall|x: int|
                ids_view(old(seen)@).contains(x) ==> ids_view(final(seen)@).contains(x),
            final(order)@.len() >= old(order)@.len(),
            forall|k: int| 0 <= k < old(order)@.len() ==> final(order)@[k] == old(order)@[k],
            forall|x: int|
                ids_view(final(order)@).contains(x) ==> ids_view(old(order)@).contains(x)
                    || !ids_view(old(seen)@).contains(x),
            crate::model::count_unmarked(ids_view(self.atoms@), ids_view(final(seen)@))
                <= crate::model::count_unmarked(ids_view(self.atoms@), ids_view(old(seen)@)),
            r is Ok ==> forall|j: int|
                idx as int <= j < deps@.len() && ids_view(self.atoms@).contains(
                    #[trigger] ids_view(deps@)[j],
                ) ==> ids_view(final(order)@).contains(ids_view(deps@)[j]),
            r is Ok ==> stack_inv(
                ids_view(final(seen)@),
                ids_view(final(order)@),
                ids_view(final(chain)@),
            ),
            r matches Err(e) ==> e is CircularDependency && has_cycle(
                ids_view(self.atoms@),
                dep_table_view(self.dependencies@),
            ),
            final(chain)@ == old(chain)@,
        decreases
                crate::model::count_unmarked(ids_view(self.atoms@), ids_view(seen@)),
                1nat,
                deps@.len() - idx,
    {
        if idx == deps.len() {
            return Ok(());
        }
        let d = deps[idx];
        proof {
            assert(ids_view(deps@)[idx as int] == d as int);
            assert(table_deps(dep_table_view(self.dependencies@), n as int).contains(d as int));
        }
        if contains_id(&self.atoms, d) {
            let already = contains_id(order, d);
            if !already {
                match self.visit(d, seen, order, chain) {
                    Ok(_) => {},
                    Err(e) => {
                        return Err(e);
                    },
                }
            }
            proof {
                assert(ids_view(order@).contains(d as int));
            }
        }
        let ghost mid_order = ids_view(order@);
        let r = self.visit_deps(n, deps, idx + 1, seen, order, chain);
        proof {
            if ids_view(self.atoms@).contains(d as int) {
                let k = choose|k: int| 0 <= k < mid_order.len() && mid_order[k] == d as int;
                assert(ids_view(order@)[k] == d as int);
                assert(ids_view(order@).contains(d as int));
            }
        }
        r
    }
}

/// Whether the id vector holds `id`.
pub(crate) fn contains_id(v: &Vec<AtomId>, id: AtomId) -> (r: bool)
    ensures
        r == ids_view(v@).contains(id as int),
{
    let mut i: usize = 0;
    while i < v.len()
        invariant
            i <= v.len(),
            forall|j: int| 0 <= j < i as int ==> ids_view(v@)[j] != id as int,
        decreases v.len() - i,
    {
        if v[i] == id {
            assert(ids_view(v@)[i as int] == id as int);
            return true;
        }
        i = i + 1;
    }
    false
}

proof fn lemma_seq_remove_first_at(s: Seq<u64>, x: u64, i: int)
    requires
        0 <= i < s.len(),
        s[i] == x,
        forall|j: int| 0 <= j < i ==> s[j] != x,
    ensures
        crate::model::remove_token(s, x) == s.remove(i),
    decreases i,
{
    if i == 0 {
        assert(crate::model::remove_token(s, x) =~= s.remove(0));
    } else {
        assert(forall|j: int| 0 <= j < i - 1 ==> s.drop_first()[j] == s[j + 1] && s[j + 1] != x);
        assert(s.drop_first()[i - 1] == s[i]);
        lemma_seq_remove_first_at(s.drop_first(), x, i - 1);
        assert(crate::model::remove_token(s, x) =~= s.remove(i));
    }
}

proof fn lemma_seq_remove_first_absent(s: Seq<u64>, x: u64)
    requires
        forall|j: int| 0 <= j < s.len() ==> s[j] != x,
    ensures
        crate::model::remove_token(s, x) == s,
    decreases s.len(),
{
    if s.len() > 0 {
        assert(forall|j: int|
            0 <= j < s.drop_first().len() ==> s.drop_first()[j] == s[j + 1] && s[j + 1] != x);
        lemma_seq_remove_first_absent(s.drop_first(), x);
        assert(crate::model::remove_token(s, x) =~= s);
    }
}

proof fn lemma_ids_remove_first_at(s: Seq<int>, x: int, i: int)
    requires
        0 <= i < s.len(),
        s[i] == x,
        forall|j: int| 0 <= j < i ==> s[j] != x,
    ensures
        crate::model::remove_id(s, x) == s.remove(i),
    decreases i,
{
    if i == 0 {
        assert(crate::model::remove_id(s, x) =~= s.remove(0));
    } else {
        assert(forall|j: int| 0 <= j < i - 1 ==> s.drop_first()[j] == s[j + 1] && s[j + 1] != x);
        assert(s.drop_first()[i - 1] == s[i]);
        lemma_ids_remove_first_at(s.drop_first(), x, i - 1);
        assert(crate::model::remove_id(s, x) =~= s.remove(i));
    }
}

proof fn lemma_ids_remove_first_absent(s: Seq<int>, x: int)
    requires
        forall|j: int| 0 <= j < s.len() ==> s[j] != x,
    ensures
        crate::model::remove_id(s, x) == s,
    decreases s.len(),
{
    if s.len() > 0 {
        assert(forall|j: int|
            0 <= j < s.drop_first().len() ==> s.drop_first()[j] == s[j + 1] && s[j + 1] != x);
        lemma_ids_remove_first_absent(s.drop_first(), x);
        assert(crate::model::remove_id(s, x) =~= s);
    }
}

} // verus!
