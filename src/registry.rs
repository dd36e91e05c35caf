use itertools::Itertools;
use vstd::prelude::*;

use crate::connection::{Connect, Connection};
use crate::entity::Entity;

verus! {

/// Keeps the connections whose reaction is not bound to `x`.
pub open spec fn not_targeting<G, E, K, F>(x: Entity) -> spec_fn(Connection<G, E, K, F>) -> bool {
    |c: Connection<G, E, K, F>| c.target.target_id() != Some(x)
}

/// Selects the connections whose reaction is bound to `t`.
pub open spec fn bound_to<G, E, K, F>(t: Entity) -> spec_fn(Connection<G, E, K, F>) -> bool {
    |c: Connection<G, E, K, F>| c.target.target_id() == Some(t)
}

/// Selects the occurrences of `e`.
pub open spec fn is_entity(e: Entity) -> spec_fn(Entity) -> bool {
    |x: Entity| x == e
}

/// How many connections of `list` are bound to `t`.
pub open spec fn links_to<G, E, K, F>(list: Seq<Connection<G, E, K, F>>, t: Entity) -> nat {
    list.filter(bound_to(t)).len()
}

/// How many times `e` occurs in `s`.
pub open spec fn occurrences(s: Seq<Entity>, e: Entity) -> nat {
    s.filter(is_entity(e)).len()
}

/// Relies on itertools' `Itertools::unique`: it yields each value the first
/// time it occurs and skips later repeats, keeping the input order.
#[verifier::external_body]
fn unique_bits(v: Vec<u64>) -> (r: Vec<u64>)
    ensures
        r@ == v@.remove_duplicates(Seq::empty()),
{
    v.into_iter().unique().collect()
}

pub open spec fn bits_of(s: Seq<Entity>) -> Seq<u64> {
    s.map_values(|e: Entity| e.bits)
}

/// Where `e` stands in `keys`, if it does.
fn position(keys: &Vec<Entity>, e: Entity) -> (r: Option<usize>)
    ensures
        match r {
            Some(i) => i < keys@.len() && keys@[i as int] == e,
            None => !keys@.contains(e),
        },
{
    let mut i: usize = 0;
    while i < keys.len()
        invariant
            0 <= i <= keys@.len(),
            forall|j: int| 0 <= j < i ==> keys@[j] != e,
        decreases keys@.len() - i,
    {
        if keys[i] == e {
            return Some(i);
        }
        i += 1;
    }
    None
}

proof fn lemma_index_of_unique(s: Seq<Entity>, i: int)
    requires
        s.no_duplicates(),
        0 <= i < s.len(),
    ensures
        s.contains(s[i]),
        s.index_of(s[i]) == i,
{
    assert(s.contains(s[i]));
}

/// The values stored under `e` in a keyed pair of sequences (empty when absent).
pub open spec fn lookup<T>(keys: Seq<Entity>, vals: Seq<Seq<T>>, e: Entity) -> Seq<T> {
    if keys.contains(e) {
        vals[keys.index_of(e)]
    } else {
        Seq::empty()
    }
}

proof fn lemma_lookup_update<T>(keys: Seq<Entity>, vals: Seq<Seq<T>>, i: int, v: Seq<T>)
    requires
        keys.no_duplicates(),
        keys.len() == vals.len(),
        0 <= i < keys.len(),
    ensures
        forall|e: Entity|
            #[trigger] lookup(keys, vals.update(i, v), e) == if e == keys[i] {
                v
            } else {
                lookup(keys, vals, e)
            },
{
    assert forall|e: Entity|
        #[trigger] lookup(keys, vals.update(i, v), e) == if e == keys[i] {
            v
        } else {
            lookup(keys, vals, e)
        } by {
        if keys.contains(e) {
            let k = keys.index_of(e);
            lemma_index_of_unique(keys, k);
        } else {
            assert(e != keys[i]);
        }
    }
}

proof fn lemma_lookup_push<T>(keys: Seq<Entity>, vals: Seq<Seq<T>>, k: Entity, v: Seq<T>)
    requires
        keys.no_duplicates(),
        keys.len() == vals.len(),
        !keys.contains(k),
    ensures
        keys.push(k).no_duplicates(),
        forall|e: Entity| #[trigger] keys.push(k).contains(e) == (keys.contains(e) || e == k),
        forall|e: Entity|
            #[trigger] lookup(keys.push(k), vals.push(v), e) == if e == k {
                v
            } else {
                lookup(keys, vals, e)
            },
{
    let nk = keys.push(k);
    assert forall|a: int, b: int| 0 <= a < nk.len() && 0 <= b < nk.len() && a != b implies nk[a]
        != nk[b] by {
        if a < keys.len() && b < keys.len() {
        } else if a < keys.len() {
            assert(keys.contains(keys[a]));
        } else {
            assert(keys.contains(keys[b]));
        }
    }
    assert forall|e: Entity| #[trigger] nk.contains(e) == (keys.contains(e) || e == k) by {
        if keys.contains(e) {
            let j = keys.index_of(e);
            assert(nk[j] == e);
        }
        if e == k {
            assert(nk[keys.len() as int] == e);
        }
    }
    assert forall|e: Entity|
        #[trigger] lookup(nk, vals.push(v), e) == if e == k {
            v
        } else {
            lookup(keys, vals, e)
        } by {
        if e == k {
            lemma_index_of_unique(nk, keys.len() as int);
        } else if keys.contains(e) {
            let j = keys.index_of(e);
            lemma_index_of_unique(nk, j);
        }
    }
}

proof fn lemma_lookup_remove<T>(keys: Seq<Entity>, vals: Seq<Seq<T>>, i: int)
    requires
        keys.no_duplicates(),
        keys.len() == vals.len(),
        0 <= i < keys.len(),
    ensures
        keys.remove(i).no_duplicates(),
        forall|e: Entity| #[trigger] keys.remove(i).contains(e) == (keys.contains(e) && e != keys[i]),
        forall|e: Entity|
            #[trigger] lookup(keys.remove(i), vals.remove(i), e) == if e == keys[i] {
                Seq::<T>::empty()
            } else {
                lookup(keys, vals, e)
            },
{
    let nk = keys.remove(i);
    let nv = vals.remove(i);
    assert forall|e: Entity| #[trigger] nk.contains(e) == (keys.contains(e) && e != keys[i]) by {
        if nk.contains(e) {
            let j = choose|j: int| 0 <= j < nk.len() && nk[j] == e;
            if j < i {
                assert(keys[j] == e);
            } else {
                assert(keys[j + 1] == e);
            }
        }
        if keys.contains(e) && e != keys[i] {
            let j = keys.index_of(e);
            if j < i {
                assert(nk[j] == e);
            } else {
                assert(nk[j - 1] == e);
            }
        }
    }
    assert forall|e: Entity|
        #[trigger] lookup(nk, nv, e) == if e == keys[i] {
            Seq::<T>::empty()
        } else {
            lookup(keys, vals, e)
        } by {
        if keys.contains(e) && e != keys[i] {
            let j = keys.index_of(e);
            lemma_index_of_unique(keys, j);
            if j < i {
                assert(nk[j] == e);
                lemma_index_of_unique(nk, j);
            } else {
                assert(nk[j - 1] == e);
                lemma_index_of_unique(nk, j - 1);
            }
        }
    }
}

proof fn lemma_filter_within<A>(s: Seq<A>, p: spec_fn(A) -> bool, q: spec_fn(A) -> bool)
    requires
        forall|a: A| #[trigger] q(a) ==> p(a),
    ensures
        s.filter(p).filter(q) == s.filter(q),
    decreases s.len(),
{
    reveal(Seq::filter);
    if s.len() > 0 {
        lemma_filter_within(s.drop_last(), p, q);
        let f = s.drop_last().filter(p);
        if p(s.last()) {
            assert(f.push(s.last()).drop_last() =~= f);
        }
    }
}

proof fn lemma_filter_push<A>(s: Seq<A>, x: A, p: spec_fn(A) -> bool)
    ensures
        s.push(x).filter(p) == if p(x) {
            s.filter(p).push(x)
        } else {
            s.filter(p)
        },
{
    reveal(Seq::filter);
    assert(s.push(x).drop_last() =~= s);
}

proof fn lemma_filter_disjoint<A>(s: Seq<A>, p: spec_fn(A) -> bool, q: spec_fn(A) -> bool)
    requires
        forall|a: A| #[trigger] q(a) ==> !p(a),
    ensures
        s.filter(p).filter(q).len() == 0,
{
    let f = s.filter(p);
    assert forall|i: int| 0 <= i < f.len() implies !q(#[trigger] f[i]) by {
        s.lemma_filter_pred(p, i);
    }
    f.lemma_all_neg_filter_empty(q);
}

proof fn lemma_filter_subset<A>(s: Seq<A>, p: spec_fn(A) -> bool)
    ensures
        forall|i: int| 0 <= i < s.filter(p).len() ==> s.contains(#[trigger] s.filter(p)[i]),
    decreases s.len(),
{
    reveal(Seq::filter);
    if s.len() > 0 {
        lemma_filter_subset(s.drop_last(), p);
        let f = s.drop_last().filter(p);
        assert forall|i: int| 0 <= i < s.filter(p).len() implies s.contains(
            #[trigger] s.filter(p)[i],
        ) by {
            if i < f.len() {
                assert(s.filter(p)[i] == f[i]);
                assert(s.drop_last().contains(f[i]));
                let k = choose|k: int| 0 <= k < s.drop_last().len() && s.drop_last()[k] == f[i];
                assert(s[k] == f[i]);
            } else {
                assert(s[s.len() - 1] == s.filter(p)[i]);
            }
        }
    }
}

fn push_at<T>(lists: &mut Vec<Vec<T>>, i: usize, x: T)
    requires
        i < old(lists)@.len(),
    ensures
        final(lists)@.len() == old(lists)@.len(),
        final(lists)@.map_values(|v: Vec<T>| v@) == old(lists)@.map_values(|v: Vec<T>| v@).update(
            i as int,
            old(lists)@[i as int]@.push(x),
        ),
{
    let mut tmp: Vec<T> = Vec::new();
    lists.set_and_swap(i, &mut tmp);
    tmp.push(x);
    lists.set(i, tmp);
    proof {
        assert(lists@.map_values(|v: Vec<T>| v@) =~= old(lists)@.map_values(|v: Vec<T>| v@).update(
            i as int,
            old(lists)@[i as int]@.push(x),
        ));
    }
}

/// Moves out of `list` the connections that are not bound to `x`, in order.
fn without_target<G, E, K, F>(list: Vec<Connection<G, E, K, F>>, x: Entity) -> (r: Vec<
    Connection<G, E, K, F>,
>)
    ensures
        r@ == list@.filter(not_targeting(x)),
{
    let ghost orig = list@;
    let mut rest = list;
    let mut kept: Vec<Connection<G, E, K, F>> = Vec::new();
    let ghost mut i: int = 0;
    while rest.len() > 0
        invariant
            0 <= i <= orig.len(),
            rest@ == orig.skip(i),
            kept@ == orig.take(i).filter(not_targeting(x)),
        decreases rest@.len(),
    {
        let c = rest.remove(0);
        let id = c.target.id();
        let keep = match id {
            Some(t) => t != x,
            None => true,
        };
        proof {
            reveal(Seq::filter);
            let t = orig.take(i + 1);
            assert(t.drop_last() =~= orig.take(i));
            assert(t.last() == c);
            assert(not_targeting::<G, E, K, F>(x)(c) == keep);
            assert(rest@ =~= orig.skip(i + 1));
        }
        if keep {
            kept.push(c);
        }
        proof {
            i = i + 1;
        }
    }
    proof {
        assert(orig.take(i) =~= orig);
    }
    kept
}

/// All connections of one (component, signal) pair, keyed by source entity,
/// with a reverse index from each bound entity to the sources that refer to it.
pub struct Connections<G, E, K, F> {
    sources: Vec<Entity>,
    lists: Vec<Vec<Connection<G, E, K, F>>>,
    targets: Vec<Entity>,
    referrers: Vec<Vec<Entity>>,
}

impl<G, E, K, F> Connections<G, E, K, F> {
    /// Source entities with an entry, in the order of their first registration.
    pub closed spec fn keys(&self) -> Seq<Entity> {
        self.sources@
    }

    /// Entities of the reverse index, in the order they were first referred to.
    pub closed spec fn index_keys(&self) -> Seq<Entity> {
        self.targets@
    }

    pub open spec fn has_source(&self, e: Entity) -> bool {
        self.keys().contains(e)
    }

    pub open spec fn has_target(&self, t: Entity) -> bool {
        self.index_keys().contains(t)
    }

    closed spec fn list_views(&self) -> Seq<Seq<Connection<G, E, K, F>>> {
        self.lists@.map_values(|v: Vec<Connection<G, E, K, F>>| v@)
    }

    closed spec fn referrer_views(&self) -> Seq<Seq<Entity>> {
        self.referrers@.map_values(|v: Vec<Entity>| v@)
    }

    /// The connections of source `e`, in registration order (empty without an entry).
    pub closed spec fn connections_of(&self, e: Entity) -> Seq<Connection<G, E, K, F>> {
        lookup(self.sources@, self.list_views(), e)
    }

    /// The sources recorded as referring to `t`, one per registration.
    pub closed spec fn referrers_of(&self, t: Entity) -> Seq<Entity> {
        lookup(self.targets@, self.referrer_views(), t)
    }

    /// Keys are unique, and every connection bound to an entity `t` is
    /// recorded under `t` in the reverse index, once per such connection.
    pub closed spec fn wf(&self) -> bool {
        &&& self.sources@.len() == self.lists@.len()
        &&& self.targets@.len() == self.referrers@.len()
        &&& self.sources@.no_duplicates()
        &&& self.targets@.no_duplicates()
        &&& forall|e: Entity| #[trigger] self.connections_of(e).len() <= usize::MAX
        &&& forall|e: Entity, t: Entity|
            #[trigger] links_to(self.connections_of(e), t) <= occurrences(self.referrers_of(t), e)
        &&& forall|e: Entity, j: int|
            0 <= j < self.connections_of(e).len() && (
            #[trigger] self.connections_of(e)[j]).target.target_id() is Some
                ==> self.referrers_of(self.connections_of(e)[j].target.target_id().unwrap()).contains(e)
    }

    /// Registers `connection`: its source is recorded in the reverse index
    /// under the bound entity, if any, and the connection is appended to the
    /// source's list.
    pub fn add(&mut self, connection: Connect<G, E, K, F>)
        requires
            old(self).wf(),
        ensures
            final(self).wf(),
            final(self).keys() == (if old(self).has_source(connection.source) {
                old(self).keys()
            } else {
                old(self).keys().push(connection.source)
            }),
            forall|e: Entity|
                #[trigger] final(self).connections_of(e) == if e == connection.source {
                    old(self).connections_of(e).push(connection.target)
                } else {
                    old(self).connections_of(e)
                },
            final(self).index_keys() == (match connection.target.target.target_id() {
                Some(t) => if old(self).has_target(t) {
                    old(self).index_keys()
                } else {
                    old(self).index_keys().push(t)
                },
                None => old(self).index_keys(),
            }),
            forall|t: Entity|
                #[trigger] final(self).referrers_of(t) == if connection.target.target.target_id()
                    == Some(t) {
                    old(self).referrers_of(t).push(connection.source)
                } else {
                    old(self).referrers_of(t)
                },
    {
        let Connect { source, target } = connection;
        let id = target.target.id();
        match id {
            Some(t) => match position(&self.targets, t) {
                Some(i) => {
                    proof {
                        lemma_index_of_unique(self.targets@, i as int);
                        lemma_lookup_update(
                            self.targets@,
                            self.referrer_views(),
                            i as int,
                            self.referrer_views()[i as int].push(source),
                        );
                    }
                    push_at(&mut self.referrers, i, source);
                },
                None => {
                    proof {
                        lemma_lookup_push(self.targets@, self.referrer_views(), t, seq![source]);
                    }
                    self.targets.push(t);
                    let mut v: Vec<Entity> = Vec::new();
                    v.push(source);
                    self.referrers.push(v);
                    proof {
                        assert(self.referrer_views() =~= old(self).referrer_views().push(seq![source]));
                        assert(seq![source] =~= Seq::<Entity>::empty().push(source));
                    }
                },
            },
            None => {},
        }
        match position(&self.sources, source) {
            Some(i) => {
                proof {
                    lemma_index_of_unique(self.sources@, i as int);
                    lemma_lookup_update(
                        self.sources@,
                        self.list_views(),
                        i as int,
                        self.list_views()[i as int].push(target),
                    );
                }
                push_at(&mut self.lists, i, target);
                let n = self.lists[i].len();
                proof {
                    assert(self.connections_of(source).len() == n);
                }
            },
            None => {
                proof {
                    lemma_lookup_push(self.sources@, self.list_views(), source, seq![target]);
                }
                self.sources.push(source);
                let mut v: Vec<Connection<G, E, K, F>> = Vec::new();
                v.push(target);
                self.lists.push(v);
                proof {
                    assert(self.list_views() =~= old(self).list_views().push(seq![target]));
                    assert(seq![target] =~= Seq::<Connection<G, E, K, F>>::empty().push(target));
                }
            },
        }
        proof {
            assert(self.sources@.len() == self.lists@.len());
            assert(self.targets@.len() == self.referrers@.len());
            assert(self.sources@.no_duplicates());
            assert(self.targets@.no_duplicates());
            assert forall|e: Entity| #[trigger] self.connections_of(e).len() <= usize::MAX by {
                if e != source {
                    assert(old(self).connections_of(e).len() <= usize::MAX);
                }
            }
            assert forall|e: Entity, t: Entity|
                #[trigger] links_to(self.connections_of(e), t) <= occurrences(self.referrers_of(t), e) by {
                assert(links_to(old(self).connections_of(e), t) <= occurrences(old(self).referrers_of(t), e));
                if e == source {
                    lemma_filter_push(old(self).connections_of(e), target, bound_to::<G, E, K, F>(t));
                }
                if id == Some(t) {
                    lemma_filter_push(old(self).referrers_of(t), source, is_entity(e));
                }
            }
            assert forall|e: Entity, j: int|
                0 <= j < self.connections_of(e).len() && (
                #[trigger] self.connections_of(e)[j]).target.target_id() is Some implies self.referrers_of(
                    self.connections_of(e)[j].target.target_id().unwrap(),
                ).contains(e) by {
                let c = self.connections_of(e)[j];
                let t = c.target.target_id().unwrap();
                if e == source && j == old(self).connections_of(e).len() {
                    assert(c == target);
                    assert(self.referrers_of(t).last() == source);
                } else {
                    assert(c == old(self).connections_of(e)[j]);
                    assert(old(self).referrers_of(t).contains(e));
                    let rt = old(self).referrers_of(t);
                    let w = choose|w: int| 0 <= w < rt.len() && #[trigger] rt[w] == e;
                    assert(self.referrers_of(t)[w] == e);
                }
            }
        }
    }

    /// Forgets `source`: its own entry and its reverse-index entry are dropped,
    /// and every source recorded as referring to it loses the connections bound
    /// to it. Reverse-index entries that name `source` under other entities are
    /// left as they are.
    pub fn remove(&mut self, source: &Entity)
        requires
            old(self).wf(),
        ensures
            final(self).wf(),
            forall|e: Entity| #[trigger] final(self).has_source(e) == (old(self).has_source(e) && e != *source),
            forall|t: Entity| #[trigger] final(self).has_target(t) == (old(self).has_target(t) && t != *source),
            forall|t: Entity|
                #[trigger] final(self).referrers_of(t) == if t == *source {
                    Seq::<Entity>::empty()
                } else {
                    old(self).referrers_of(t)
                },
            forall|e: Entity|
                #[trigger] final(self).connections_of(e) == if e == *source {
                    Seq::<Connection<G, E, K, F>>::empty()
                } else if old(self).referrers_of(*source).contains(e) {
                    old(self).connections_of(e).filter(not_targeting(*source))
                } else {
                    old(self).connections_of(e)
                },
            forall|e: Entity, j: int|
                0 <= j < final(self).connections_of(e).len() ==> (#[trigger] final(self).connections_of(
                    e,
                )[j]).target.target_id() != Some(*source),
    {
        let x = *source;
        let refs: Vec<Entity> = match position(&self.targets, x) {
            Some(i) => {
                proof {
                    lemma_index_of_unique(self.targets@, i as int);
                    lemma_lookup_remove(self.targets@, self.referrer_views(), i as int);
                }
                self.targets.remove(i);
                let r = self.referrers.remove(i);
                proof {
                    assert(self.referrer_views() =~= old(self).referrer_views().remove(i as int));
                }
                r
            },
            None => Vec::new(),
        };
        let ghost tg = self.targets@;
        let ghost rv = self.referrers@;
        let ghost rvv = self.referrer_views();
        let mut k: usize = 0;
        while k < refs.len()
            invariant
                old(self).wf(),
                self.targets@ == tg,
                self.referrers@ == rv,
                self.sources@ == old(self).sources@,
                self.lists@.len() == self.sources@.len(),
                self.targets@.len() == self.referrers@.len(),
                self.targets@.no_duplicates(),
                forall|t: Entity| #[trigger] tg.contains(t) == (old(self).has_target(t) && t != x),
                forall|t: Entity|
                    #[trigger] lookup(tg, rvv, t) == if t == x {
                        Seq::<Entity>::empty()
                    } else {
                        old(self).referrers_of(t)
                    },
                refs@ == old(self).referrers_of(x),
                0 <= k <= refs@.len(),
                forall|e: Entity|
                    #[trigger] lookup(self.sources@, self.list_views(), e) == if refs@.take(k as int).contains(e) {
                        old(self).connections_of(e).filter(not_targeting(x))
                    } else {
                        old(self).connections_of(e)
                    },
            decreases refs@.len() - k,
        {
            let s = refs[k];
            proof {
                assert(refs@.take(k + 1) =~= refs@.take(k as int).push(s));
                let t0 = refs@.take(k as int);
                let t1 = refs@.take(k + 1);
                assert forall|e: Entity| #[trigger] t1.contains(e) == (t0.contains(e) || e == s) by {
                    if t1.contains(e) {
                        let w = choose|w: int| 0 <= w < t1.len() && #[trigger] t1[w] == e;
                        if w < k {
                            assert(t0[w] == e);
                        }
                    }
                    if t0.contains(e) {
                        let w = choose|w: int| 0 <= w < t0.len() && #[trigger] t0[w] == e;
                        assert(t1[w] == e);
                    }
                    if e == s {
                        assert(t1[k as int] == e);
                    }
                }
            }
            match position(&self.sources, s) {
                Some(p) => {
                    let ghost before = self.list_views();
                    let mut tmp: Vec<Connection<G, E, K, F>> = Vec::new();
                    self.lists.set_and_swap(p, &mut tmp);
                    proof {
                        lemma_index_of_unique(self.sources@, p as int);
                        assert(tmp@ == lookup(self.sources@, before, s)) by {
                            assert(tmp@ == before[p as int]);
                        }
                    }
                    let filtered = without_target(tmp, x);
                    self.lists.set(p, filtered);
                    proof {
                        assert(self.list_views() =~= before.update(p as int, filtered@));
                        lemma_lookup_update(self.sources@, before, p as int, filtered@);
                        lemma_filter_within(old(self).connections_of(s), not_targeting(x), not_targeting(x));
                        assert forall|e: Entity|
                            #[trigger] lookup(self.sources@, self.list_views(), e) == if refs@.take(k + 1).contains(e) {
                                old(self).connections_of(e).filter(not_targeting(x))
                            } else {
                                old(self).connections_of(e)
                            } by {
                            assert(lookup(self.sources@, before, e) == if refs@.take(k as int).contains(e) {
                                old(self).connections_of(e).filter(not_targeting(x))
                            } else {
                                old(self).connections_of(e)
                            });
                        }
                    }
                },
                None => {
                    proof {
                        reveal(Seq::filter);
                        assert(old(self).connections_of(s).filter(not_targeting(x)) =~= old(self).connections_of(s));
                    }
                },
            }
            k += 1;
        }
        let ghost ms = self.sources@;
        let ghost mid = self.list_views();
        proof {
            assert(refs@.take(refs@.len() as int) =~= refs@);
            assert forall|e: Entity|
                #[trigger] lookup(ms, mid, e) == if old(self).referrers_of(x).contains(e) {
                    old(self).connections_of(e).filter(not_targeting(x))
                } else {
                    old(self).connections_of(e)
                } by {
                assert(self.connections_of(e) == lookup(ms, mid, e));
            }
            assert(self.referrer_views() == rvv);
        }
        match position(&self.sources, x) {
            Some(p) => {
                proof {
                    lemma_index_of_unique(self.sources@, p as int);
                    lemma_lookup_remove(self.sources@, self.list_views(), p as int);
                }
                let ghost before = self.list_views();
                self.sources.remove(p);
                self.lists.remove(p);
                proof {
                    assert(self.list_views() =~= before.remove(p as int));
                    assert forall|e: Entity| #[trigger] self.connections_of(e) == if e == x {
                        Seq::<Connection<G, E, K, F>>::empty()
                    } else {
                        lookup(ms, mid, e)
                    } by {}
                }
            },
            None => {
                proof {
                    assert forall|e: Entity| #[trigger] self.connections_of(e) == if e == x {
                        Seq::<Connection<G, E, K, F>>::empty()
                    } else {
                        lookup(ms, mid, e)
                    } by {}
                }
            },
        }
        proof {
            assert forall|e: Entity|
                #[trigger] self.connections_of(e) == if e == x {
                    Seq::<Connection<G, E, K, F>>::empty()
                } else if old(self).referrers_of(x).contains(e) {
                    old(self).connections_of(e).filter(not_targeting(x))
                } else {
                    old(self).connections_of(e)
                } by {
                assert(lookup(ms, mid, e) == self.connections_of(e) || e == x);
            }
            assert forall|e: Entity| #[trigger] self.connections_of(e).len() <= usize::MAX by {
                old(self).connections_of(e).lemma_filter_len(not_targeting(x));
                assert(old(self).connections_of(e).len() <= usize::MAX);
            }
            assert forall|e: Entity, j: int|
                0 <= j < self.connections_of(e).len() implies (#[trigger] self.connections_of(
                    e,
                )[j]).target.target_id() != Some(x) by {
                let o = old(self).connections_of(e);
                if e != x {
                    if old(self).referrers_of(x).contains(e) {
                        o.lemma_filter_pred(not_targeting(x), j);
                    } else {
                        assert(self.connections_of(e)[j] == o[j]);
                    }
                }
            }
            assert forall|e: Entity, t: Entity|
                #[trigger] links_to(self.connections_of(e), t) <= occurrences(self.referrers_of(t), e) by {
                let o = old(self).connections_of(e);
                assert(links_to(o, t) <= occurrences(old(self).referrers_of(t), e));
                if e == x {
                    reveal(Seq::filter);
                } else if t == x {
                    if old(self).referrers_of(x).contains(e) {
                        lemma_filter_disjoint(o, not_targeting::<G, E, K, F>(x), bound_to::<G, E, K, F>(x));
                    } else {
                        assert(links_to(o, x) == 0) by {
                            assert forall|i: int| 0 <= i < o.len() implies !bound_to::<G, E, K, F>(x)(#[trigger] o[i]) by {
                                assert(self.connections_of(e)[i] == o[i]);
                            }
                            o.lemma_all_neg_filter_empty(bound_to::<G, E, K, F>(x));
                        }
                    }
                } else if old(self).referrers_of(x).contains(e) {
                    lemma_filter_within(o, not_targeting::<G, E, K, F>(x), bound_to::<G, E, K, F>(t));
                }
            }
            assert forall|e: Entity, j: int|
                0 <= j < self.connections_of(e).len() && (
                #[trigger] self.connections_of(e)[j]).target.target_id() is Some implies self.referrers_of(
                    self.connections_of(e)[j].target.target_id().unwrap(),
                ).contains(e) by {
                let c = self.connections_of(e)[j];
                let t = c.target.target_id().unwrap();
                assert(t != x);
                let o = old(self).connections_of(e);
                if old(self).referrers_of(x).contains(e) {
                    lemma_filter_subset(o, not_targeting(x));
                    assert(o.contains(c));
                    let w = choose|w: int| 0 <= w < o.len() && #[trigger] o[w] == c;
                    assert(old(self).referrers_of(t).contains(e));
                } else {
                    assert(c == o[j]);
                }
            }
        }
    }

    /// Every entity the registry mentions, as a source or as a bound entity,
    /// each once, in order of first mention (sources first).
    pub fn entities(&self) -> (r: Vec<Entity>)
        ensures
            bits_of(r@) == bits_of(self.keys() + self.index_keys()).remove_duplicates(Seq::empty()),
    {
        let mut all: Vec<u64> = Vec::new();
        let mut i: usize = 0;
        while i < self.sources.len()
            invariant
                0 <= i <= self.sources@.len(),
                all@ == bits_of(self.sources@.take(i as int)),
            decreases self.sources@.len() - i,
        {
            all.push(self.sources[i].bits);
            proof {
                assert(self.sources@.take(i + 1) =~= self.sources@.take(i as int).push(self.sources@[i as int]));
                assert(all@ =~= bits_of(self.sources@.take(i + 1)));
            }
            i += 1;
        }
        let mut j: usize = 0;
        while j < self.targets.len()
            invariant
                0 <= j <= self.targets@.len(),
                i == self.sources@.len(),
                all@ == bits_of(self.sources@ + self.targets@.take(j as int)),
            decreases self.targets@.len() - j,
        {
            all.push(self.targets[j].bits);
            proof {
                assert(self.sources@ + self.targets@.take(j + 1) =~= (self.sources@ + self.targets@.take(j as int)).push(self.targets@[j as int]));
                assert(all@ =~= bits_of(self.sources@ + self.targets@.take(j + 1)));
            }
            j += 1;
        }
        proof {
            assert(self.sources@.take(i as int) =~= self.sources@);
            assert(self.targets@.take(j as int) =~= self.targets@);
        }
        let u = unique_bits(all);
        let mut r: Vec<Entity> = Vec::new();
        let mut k: usize = 0;
        while k < u.len()
            invariant
                0 <= k <= u@.len(),
                bits_of(r@) == u@.take(k as int),
            decreases u@.len() - k,
        {
            let ghost pr = r@;
            let e = Entity::from_bits(u[k]);
            r.push(e);
            proof {
                assert(bits_of(r@) =~= bits_of(pr).push(e.bits));
                assert(u@.take(k + 1) =~= u@.take(k as int).push(u@[k as int]));
            }
            k += 1;
        }
        proof {
            assert(u@.take(k as int) =~= u@);
        }
        r
    }

    /// The connections registered for `source`, in registration order.
    pub fn get(&self, source: &Entity) -> (r: Option<&Vec<Connection<G, E, K, F>>>)
        requires
            self.wf(),
        ensures
            match r {
                Some(v) => self.has_source(*source) && v@ == self.connections_of(*source),
                None => !self.has_source(*source) && self.connections_of(*source).len() == 0,
            },
    {
        match position(&self.sources, *source) {
            Some(i) => {
                proof {
                    lemma_index_of_unique(self.sources@, i as int);
                }
                Some(&self.lists[i])
            },
            None => None,
        }
    }

    /// A source without an entry has no connections.
    pub proof fn lemma_absent_source(&self, e: Entity)
        requires
            !self.has_source(e),
        ensures
            self.connections_of(e) == Seq::<Connection<G, E, K, F>>::empty(),
    {
    }

    /// The reverse index records `e` under `t` at least once for each
    /// connection of `e` bound to `t`.
    pub proof fn lemma_index_covers(&self, e: Entity, t: Entity)
        requires
            self.wf(),
        ensures
            links_to(self.connections_of(e), t) <= occurrences(self.referrers_of(t), e),
    {
    }

    /// A connection list's positions fit in `usize`.
    pub proof fn lemma_list_fits(&self, e: Entity)
        requires
            self.wf(),
        ensures
            self.connections_of(e).len() <= usize::MAX,
    {
    }

    /// An empty registry.
    pub fn new() -> (r: Self)
        ensures
            r.wf(),
            r.keys() == Seq::<Entity>::empty(),
            r.index_keys() == Seq::<Entity>::empty(),
            forall|e: Entity| #[trigger] r.connections_of(e) == Seq::<Connection<G, E, K, F>>::empty(),
            forall|t: Entity| #[trigger] r.referrers_of(t) == Seq::<Entity>::empty(),
    {
        Connections { sources: Vec::new(), lists: Vec::new(), targets: Vec::new(), referrers: Vec::new() }
    }
}

impl<G, E, K, F> Default for Connections<G, E, K, F> {
    /// An empty registry.
    fn default() -> (r: Self)
        ensures
            r.wf(),
            r.keys() == Seq::<Entity>::empty(),
            r.index_keys() == Seq::<Entity>::empty(),
    {
        Connections::new()
    }
}

} // verus!
