//! Parameterized-node caches: one atom per parameter, created on first
//! use and handed back unchanged on every later one.
//!
//! The family does not hold the initializer: callers pass it to
//! [`AtomFamily::get`], which runs it only on a miss. Each cached entry
//! carries a creation stamp (a counter, grown by one per insertion) that
//! the removal predicate of [`AtomFamily::set_should_remove`] inspects.

use vstd::prelude::*;

use crate::atom::Atom;
use vstd::std_specs::cmp::PartialEqSpec;

verus! {

/// A cache of atoms keyed by parameter.
pub struct AtomFamily<P, T> {
    /// The cached atoms: parameter, atom, creation stamp.
    pub entries: Vec<(P, Atom<T>, u64)>,
    /// The next creation stamp to hand out.
    pub next_stamp: u64,
}

/// Whether a parameter equal (by `eq_spec`) to `p` is cached.
pub open spec fn family_has<P: PartialEqSpec, T>(entries: Seq<(P, Atom<T>, u64)>, p: P) -> bool {
    exists|i: int| 0 <= i < entries.len() && entries[i].0.eq_spec(&p)
}

/// The entries with the first one whose parameter equals `p` (by
/// `eq_spec`) removed; without a match, the entries unchanged.
pub open spec fn family_remove_first<P: PartialEqSpec, T>(
    entries: Seq<(P, Atom<T>, u64)>,
    p: P,
) -> Seq<(P, Atom<T>, u64)>
    decreases entries.len(),
{
    if entries.len() == 0 {
        entries
    } else if entries[0].0.eq_spec(&p) {
        entries.drop_first()
    } else {
        seq![entries[0]] + family_remove_first(entries.drop_first(), p)
    }
}

/// A first match at `i` pins the removal.
proof fn lemma_family_remove_first_at<P: PartialEqSpec, T>(
    entries: Seq<(P, Atom<T>, u64)>,
    p: P,
    i: int,
)
    requires
        0 <= i < entries.len(),
        entries[i].0.eq_spec(&p),
        forall|j: int| 0 <= j < i ==> !(#[trigger] entries[j]).0.eq_spec(&p),
    ensures
        family_remove_first(entries, p) == entries.remove(i),
    decreases i,
{
    if i == 0 {
        assert(family_remove_first(entries, p) =~= entries.remove(0));
    } else {
        assert(forall|j: int|
            0 <= j < i - 1 ==> entries.drop_first()[j] == entries[j + 1]);
        assert(entries.drop_first()[i - 1] == entries[i]);
        lemma_family_remove_first_at(entries.drop_first(), p, i - 1);
        assert(family_remove_first(entries, p) =~= entries.remove(i));
    }
}

/// Without a match, removal changes nothing.
proof fn lemma_family_remove_first_absent<P: PartialEqSpec, T>(
    entries: Seq<(P, Atom<T>, u64)>,
    p: P,
)
    requires
        forall|j: int| 0 <= j < entries.len() ==> !(#[trigger] entries[j]).0.eq_spec(&p),
    ensures
        family_remove_first(entries, p) == entries,
    decreases entries.len(),
{
    if entries.len() > 0 {
        assert(forall|j: int|
            0 <= j < entries.drop_first().len() ==> entries.drop_first()[j] == entries[j + 1]);
        lemma_family_remove_first_absent(entries.drop_first(), p);
        assert(family_remove_first(entries, p) =~= entries);
    }
}

impl<P: PartialEq + PartialEqSpec + Clone, T: Clone> AtomFamily<P, T> {
    /// The cached atom for `param`; on a miss, `initialize` builds one,
    /// which is cached and returned.
    pub fn get<F: Fn(&P) -> Atom<T>>(&mut self, param: P, initialize: F) -> (r: Atom<T>)
        requires
            P::obeys_eq_spec(),
            forall|q: &P| #[trigger] initialize.requires((q,)),
        ensures
            (exists|i: int|
                0 <= i < old(self).entries@.len() && (#[trigger] old(
                    self,
                ).entries@[i]).0.eq_spec(&param) && r.id == old(self).entries@[i].1.id && r.read
                    == old(self).entries@[i].1.read && *final(self) == *old(self)) || ({
                &&& final(self).entries@.len() == old(self).entries@.len() + 1
                &&& final(self).entries@.last().0 == param
                &&& exists|b: Atom<T>|
                    #[trigger] initialize.ensures((&param,), b) && r.id == b.id && r.read == b.read
                        && final(self).entries@.last().1.id == b.id
                &&& !family_has(old(self).entries@, param)
            }),
    {
        let mut i: usize = 0;
        while i < self.entries.len()
            invariant
                self == old(self),
                i <= self.entries.len(),
                P::obeys_eq_spec(),
                forall|j: int| 0 <= j < i as int ==> !(#[trigger] self.entries@[j]).0.eq_spec(
                    &param,
                ),
            decreases self.entries.len() - i,
        {
            if self.entries[i].0.eq(&param) {
                let found = clone_atom(&self.entries[i].1);
                proof {
                    assert(self.entries@[i as int].0.eq_spec(&param));
                }
                return found;
            }
            i = i + 1;
        }
        let fresh = initialize(&param);
        let kept = clone_atom(&fresh);
        let stamp = self.next_stamp;
        self.entries.push((param, kept, stamp));
        if self.next_stamp < u64::MAX {
            self.next_stamp = self.next_stamp + 1;
        }
        fresh
    }

    /// The parameters that currently have cached atoms, in creation order.
    pub fn get_params(&self) -> (r: Vec<P>)
        ensures
            r@.len() == self.entries@.len(),
            forall|i: int| 0 <= i < r@.len() ==> cloned::<P>(self.entries@[i].0, r@[i]),
    {
        let mut out: Vec<P> = Vec::new();
        let mut i: usize = 0;
        while i < self.entries.len()
            invariant
                i <= self.entries.len(),
                out@.len() == i as int,
                forall|j: int| 0 <= j < i as int ==> cloned::<P>(self.entries@[j].0, out@[j]),
            decreases self.entries.len() - i,
        {
            out.push(self.entries[i].0.clone());
            i = i + 1;
        }
        out
    }

    /// The cached atom for `param` under a caller-supplied equality; on a
    /// miss — every cached parameter compared unequal — `initialize`
    /// builds one, which is cached and returned. The same predicate should
    /// be passed on every call, since a predicate cannot be held as state.
    pub fn get_with_equality<F: Fn(&P) -> Atom<T>, E: Fn(&P, &P) -> bool>(
        &mut self,
        param: P,
        initialize: F,
        are_equal: E,
    ) -> (r: Atom<T>)
        requires
            forall|q: &P| #[trigger] initialize.requires((q,)),
            forall|x: &P, y: &P| #[trigger] are_equal.requires((x, y)),
        ensures
            (exists|i: int|
                0 <= i < old(self).entries@.len() && are_equal.ensures(
                    (&(#[trigger] old(self).entries@[i]).0, &param),
                    true,
                ) && r.id == old(self).entries@[i].1.id && r.read == old(self).entries@[i].1.read
                    && *final(self) == *old(self)) || ({
                &&& final(self).entries@.len() == old(self).entries@.len() + 1
                &&& final(self).entries@.last().0 == param
                &&& exists|b: Atom<T>|
                    #[trigger] initialize.ensures((&param,), b) && r.id == b.id && r.read == b.read
                        && final(self).entries@.last().1.id == b.id
                &&& forall|i: int|
                    0 <= i < old(self).entries@.len() ==> are_equal.ensures(
                        (&(#[trigger] old(self).entries@[i]).0, &param),
                        false,
                    )
            }),
    {
        let mut i: usize = 0;
        while i < self.entries.len()
            invariant
                self == old(self),
                i <= self.entries.len(),
                forall|q: &P| #[trigger] initialize.requires((q,)),
                forall|x: &P, y: &P| #[trigger] are_equal.requires((x, y)),
                forall|j: int|
                    0 <= j < i as int ==> are_equal.ensures(
                        (&(#[trigger] self.entries@[j]).0, &param),
                        false,
                    ),
            decreases self.entries.len() - i,
        {
            if are_equal(&self.entries[i].0, &param) {
                let found = clone_atom(&self.entries[i].1);
                return found;
            }
            i = i + 1;
        }
        let fresh = initialize(&param);
        let kept = clone_atom(&fresh);
        let stamp = self.next_stamp;
        self.entries.push((param, kept, stamp));
        if self.next_stamp < u64::MAX {
            self.next_stamp = self.next_stamp + 1;
        }
        fresh
    }

    /// Forgets the cached atom for `param`, if one exists — the entry with
    /// the first matching parameter is deleted, so a later `get` for it
    /// initializes anew; removing an absent parameter changes nothing.
    pub fn remove(&mut self, param: &P)
        requires
            P::obeys_eq_spec(),
        ensures
            final(self).entries@ == family_remove_first(old(self).entries@, *param),
            final(self).next_stamp == old(self).next_stamp,
    {
        let mut i: usize = 0;
        while i < self.entries.len()
            invariant
                self == old(self),
                i <= self.entries.len(),
                P::obeys_eq_spec(),
                forall|j: int| 0 <= j < i as int ==> !(#[trigger] self.entries@[j]).0.eq_spec(
                    param,
                ),
            decreases self.entries.len() - i,
        {
            if self.entries[i].0.eq(param) {
                proof {
                    lemma_family_remove_first_at(self.entries@, *param, i as int);
                }
                self.entries.remove(i);
                return ;
            }
            i = i + 1;
        }
        proof {
            lemma_family_remove_first_absent(self.entries@, *param);
        }
    }

    /// Applies a removal policy at once: every cached entry the predicate
    /// selects by stamp and parameter is dropped, the others kept in order;
    /// an entry survives only if the predicate rejected it, and disappears
    /// only if the predicate selected it.
    pub fn set_should_remove<F: Fn(u64, &P) -> bool>(&mut self, should_remove: F)
        requires
            forall|stamp: u64, q: &P| #[trigger] should_remove.requires((stamp, q)),
        ensures
            final(self).entries@.len() <= old(self).entries@.len(),
            forall|j: int|
                #![trigger old(self).entries@[j]]
                0 <= j < old(self).entries@.len() ==> ({
                    let e = old(self).entries@[j];
                    &&& (final(self).entries@.contains(e) ==> should_remove.ensures(
                        (e.2, &e.0),
                        false,
                    ))
                    &&& (!final(self).entries@.contains(e) ==> should_remove.ensures(
                        (e.2, &e.0),
                        true,
                    ))
                }),
    {
        let mut kept: Vec<(P, Atom<T>, u64)> = Vec::new();
        loop
            invariant
                forall|stamp: u64, q: &P| #[trigger] should_remove.requires((stamp, q)),
                self.entries@.len() <= old(self).entries@.len(),
                self.entries@ =~= old(self).entries@.skip(
                    old(self).entries@.len() - self.entries@.len(),
                ),
                kept@.len() <= old(self).entries@.len() - self.entries@.len(),
                forall|i: int|
                    #![trigger kept@[i]]
                    0 <= i < kept@.len() ==> should_remove.ensures(
                        (kept@[i].2, &kept@[i].0),
                        false,
                    ),
                forall|j: int|
                    #![trigger old(self).entries@[j]]
                    0 <= j < old(self).entries@.len() - self.entries@.len() ==> ({
                        let e = old(self).entries@[j];
                        kept@.contains(e) || should_remove.ensures((e.2, &e.0), true)
                    }),
            ensures
                self.entries@.len() == 0,
            decreases self.entries@.len(),
        {
            if self.entries.len() == 0 {
                break ;
            }
            let ghost pre = self.entries@;
            let ghost k = old(self).entries@.len() - pre.len();
            let (p, a, stamp) = self.entries.remove(0);
            proof {
                assert(pre == old(self).entries@.skip(k));
                assert(pre[0] == old(self).entries@[k]);
                assert(pre[0] == (p, a, stamp));
                assert(self.entries@ =~= old(self).entries@.skip(k + 1));
            }
            let ghost kept0 = kept@;
            if !should_remove(stamp, &p) {
                kept.push((p, a, stamp));
                proof {
                    assert(kept@[kept0.len() as int] == (p, a, stamp));
                    assert forall|j: int|
                        #![trigger old(self).entries@[j]]
                        0 <= j < old(self).entries@.len() - self.entries@.len() implies ({
                        let e = old(self).entries@[j];
                        kept@.contains(e) || should_remove.ensures((e.2, &e.0), true)
                    }) by {
                        let e = old(self).entries@[j];
                        if j < k {
                            if kept0.contains(e) {
                                let q = choose|q: int| 0 <= q < kept0.len() && kept0[q] == e;
                                assert(kept@[q] == e);
                            }
                        } else {
                            assert(e == (p, a, stamp));
                            assert(kept@.contains(e)) by {
                                assert(kept@[kept0.len() as int] == e);
                            }
                        }
                    }
                }
            } else {
                proof {
                    assert forall|j: int|
                        #![trigger old(self).entries@[j]]
                        0 <= j < old(self).entries@.len() - self.entries@.len() implies ({
                        let e = old(self).entries@[j];
                        kept@.contains(e) || should_remove.ensures((e.2, &e.0), true)
                    }) by {
                        let e = old(self).entries@[j];
                        if j == k {
                            assert(e == (p, a, stamp));
                        }
                    }
                }
            }
        }
        proof {
            assert(self.entries@.len() == 0);
            assert forall|j: int|
                #![trigger old(self).entries@[j]]
                0 <= j < old(self).entries@.len() implies ({
                let e = old(self).entries@[j];
                kept@.contains(e) || should_remove.ensures((e.2, &e.0), true)
            }) by {}
        }
        let ghost gk = kept@;
        self.entries = kept;
        proof {
            assert(self.entries@ == gk);
            assert forall|j: int|
                #![trigger old(self).entries@[j]]
                0 <= j < old(self).entries@.len() implies ({
                let e = old(self).entries@[j];
                &&& (self.entries@.contains(e) ==> should_remove.ensures((e.2, &e.0), false))
                &&& (!self.entries@.contains(e) ==> should_remove.ensures((e.2, &e.0), true))
            }) by {
                let e = old(self).entries@[j];
                assert(gk.contains(e) || should_remove.ensures((e.2, &e.0), true));
                if gk.contains(e) {
                    let q = choose|q: int| 0 <= q < gk.len() && gk[q] == e;
                    assert(should_remove.ensures((gk[q].2, &gk[q].0), false));
                    assert(gk[q].2 == e.2 && gk[q].0 == e.0);
                }
                assert(self.entries@.contains(e) == gk.contains(e));
            }
        }
    }
}

/// Creates an empty atom family.
pub fn atom_family<P: PartialEq + PartialEqSpec + Clone, T: Clone>() -> (r: AtomFamily<P, T>)
    ensures
        r.entries@.len() == 0,
        r.next_stamp == 1u64,
{
    AtomFamily { entries: Vec::new(), next_stamp: 1 }
}

/// Creates an empty atom family for lookups under a caller-supplied
/// equality: pass the same predicate to every
/// [`AtomFamily::get_with_equality`] call, since a predicate cannot be
/// held as state here.
pub fn atom_family_with_equality<P: PartialEq + PartialEqSpec + Clone, T: Clone>() -> (r:
    AtomFamily<P, T>)
    ensures
        r.entries@.len() == 0,
        r.next_stamp == 1u64,
{
    AtomFamily { entries: Vec::new(), next_stamp: 1 }
}

/// Clones a cached atom so both the cache and the caller hold one.
fn clone_atom<T: Clone>(a: &Atom<T>) -> (r: Atom<T>)
    ensures
        r.id == a.id,
        r.debug_label == a.debug_label,
        r.read == a.read,
        r.initial is Some <==> a.initial is Some,
{
    a.clone()
}

} // verus!
