use vstd::prelude::*;

use crate::connection::{Connection, ConnectionTo};
use crate::entity::Entity;
use crate::registry::Connections;

verus! {

/// Whether a connection reacts to a signal: its filter accepted the signal
/// (`passes`) and, for the component shape, the bound entity still has the
/// component (`present`).
pub open spec fn reaches<G, E, K, F>(c: Connection<G, E, K, F>, passes: bool, present: bool) -> bool {
    passes && (c.target is Component ==> present)
}

/// Positions, among the first `n` connections of `list`, of those that react,
/// in ascending order.
pub open spec fn delivered_slots<G, E, K, F>(
    list: Seq<Connection<G, E, K, F>>,
    passes: Seq<bool>,
    present: Seq<bool>,
    n: nat,
) -> Seq<usize>
    decreases n,
{
    if n == 0 {
        Seq::empty()
    } else {
        let prev = delivered_slots(list, passes, present, (n - 1) as nat);
        let i = n - 1;
        if reaches(list[i], passes[i], present[i]) {
            prev.push(i as usize)
        } else {
            prev
        }
    }
}

/// The handlers that one signal sourced at an entity invokes, as positions in
/// that entity's connection list, and in that order.
pub open spec fn planned<G, E, K, F>(
    reg: Connections<G, E, K, F>,
    source: Entity,
    passes: Seq<bool>,
    present: Seq<bool>,
) -> Seq<usize> {
    delivered_slots(reg.connections_of(source), passes, present, reg.connections_of(source).len())
}

/// Handlers run in registration order: the planned positions strictly
/// increase, and each is a position among the first `n`.
pub proof fn lemma_registration_order<G, E, K, F>(
    list: Seq<Connection<G, E, K, F>>,
    passes: Seq<bool>,
    present: Seq<bool>,
    n: nat,
)
    requires
        n <= usize::MAX,
    ensures
        forall|a: int, b: int|
            0 <= a < b < delivered_slots(list, passes, present, n).len() ==> delivered_slots(
                list,
                passes,
                present,
                n,
            )[a] < delivered_slots(list, passes, present, n)[b],
        forall|a: int|
            0 <= a < delivered_slots(list, passes, present, n).len() ==> delivered_slots(
                list,
                passes,
                present,
                n,
            )[a] < n,
    decreases n,
{
    if n > 0 {
        let m = (n - 1) as nat;
        lemma_registration_order(list, passes, present, m);
        let prev = delivered_slots(list, passes, present, m);
        let cur = delivered_slots(list, passes, present, n);
        if reaches(list[m as int], passes[m as int], present[m as int]) {
            assert(cur == prev.push(m as usize));
            assert(cur[prev.len() as int] == m);
        } else {
            assert(cur == prev);
        }
    }
}

/// A connection's handler is invoked exactly when its filter accepts the
/// signal and, for the component shape, its bound entity has the component.
pub proof fn lemma_filter_decides<G, E, K, F>(
    list: Seq<Connection<G, E, K, F>>,
    passes: Seq<bool>,
    present: Seq<bool>,
    n: nat,
)
    requires
        n <= usize::MAX,
    ensures
        forall|i: int|
            0 <= i < n ==> (delivered_slots(list, passes, present, n).contains(i as usize) <==> reaches(
                list[i],
                passes[i],
                present[i],
            )),
    decreases n,
{
    if n > 0 {
        let m = (n - 1) as nat;
        lemma_filter_decides(list, passes, present, m);
        lemma_registration_order(list, passes, present, m);
        let prev = delivered_slots(list, passes, present, m);
        let cur = delivered_slots(list, passes, present, n);
        assert forall|i: int| 0 <= i < n implies (cur.contains(i as usize) <==> reaches(
            list[i],
            passes[i],
            present[i],
        )) by {
            if reaches(list[m as int], passes[m as int], present[m as int]) {
                assert(cur == prev.push(m as usize));
                if cur.contains(i as usize) && i < m {
                    let w = choose|w: int| 0 <= w < cur.len() && cur[w] == i as usize;
                    if w < prev.len() {
                        assert(prev[w] == i as usize);
                    }
                }
                if i == m {
                    assert(cur[prev.len() as int] == i as usize);
                } else if prev.contains(i as usize) {
                    let w = choose|w: int| 0 <= w < prev.len() && prev[w] == i as usize;
                    assert(cur[w] == i as usize);
                }
            } else {
                if i == m && prev.contains(i as usize) {
                    let w = choose|w: int| 0 <= w < prev.len() && prev[w] == i as usize;
                    assert(prev[w] < m);
                }
            }
        }
    }
}

/// A connection of a source is invoked exactly when it reacts: its filter
/// accepted the signal and, for the component shape, its bound entity has the
/// component. No other position is planned.
pub proof fn lemma_planned_exactly<G, E, K, F>(
    reg: Connections<G, E, K, F>,
    source: Entity,
    passes: Seq<bool>,
    present: Seq<bool>,
)
    requires
        reg.wf(),
    ensures
        forall|i: int|
            0 <= i < reg.connections_of(source).len() ==> (planned(reg, source, passes, present).contains(
                i as usize,
            ) <==> reaches(reg.connections_of(source)[i], passes[i], present[i])),
        forall|a: int|
            0 <= a < planned(reg, source, passes, present).len() ==> planned(reg, source, passes, present)[a]
                < reg.connections_of(source).len(),
{
    reg.lemma_list_fits(source);
    lemma_filter_decides(reg.connections_of(source), passes, present, reg.connections_of(source).len());
    lemma_registration_order(reg.connections_of(source), passes, present, reg.connections_of(source).len());
}

/// A component connection whose bound entity has lost the component is
/// skipped, whatever its filter said.
pub proof fn lemma_missing_component_skipped<G, E, K, F>(
    reg: Connections<G, E, K, F>,
    source: Entity,
    passes: Seq<bool>,
    present: Seq<bool>,
    i: int,
)
    requires
        reg.wf(),
        0 <= i < reg.connections_of(source).len(),
        reg.connections_of(source)[i].target is Component,
        !present[i],
    ensures
        !planned(reg, source, passes, present).contains(i as usize),
{
    reg.lemma_list_fits(source);
    lemma_filter_decides(reg.connections_of(source), passes, present, reg.connections_of(source).len());
}

/// A source that has been removed from the registry reacts to no signal.
pub proof fn lemma_removed_source_silent<G, E, K, F>(
    reg: Connections<G, E, K, F>,
    source: Entity,
    passes: Seq<bool>,
    present: Seq<bool>,
)
    requires
        !reg.has_source(source),
    ensures
        planned(reg, source, passes, present) == Seq::<usize>::empty(),
{
    reg.lemma_absent_source(source);
}

impl<G, E, K, F> Connections<G, E, K, F> {
    /// Evaluates, in registration order, the filter of each connection of
    /// `source` on `signal`.
    pub fn filter_verdicts<S>(&self, source: &Entity, signal: &S) -> (r: Vec<bool>)
        where F: Fn(&S) -> bool,
        requires
            self.wf(),
            forall|j: int|
                0 <= j < self.connections_of(*source).len() ==> call_requires(
                    #[trigger] self.connections_of(*source)[j].filter,
                    (signal,),
                ),
        ensures
            r@.len() == self.connections_of(*source).len(),
            forall|j: int|
                0 <= j < r@.len() ==> call_ensures(
                    #[trigger] self.connections_of(*source)[j].filter,
                    (signal,),
                    r@[j],
                ),
    {
        let mut r: Vec<bool> = Vec::new();
        match self.get(source) {
            Some(list) => {
                let mut i: usize = 0;
                while i < list.len()
                    invariant
                        list@ == self.connections_of(*source),
                        0 <= i <= list@.len(),
                        r@.len() == i,
                        forall|j: int| 0 <= j < list@.len() ==> call_requires(#[trigger] list@[j].filter, (signal,)),
                        forall|j: int| 0 <= j < i ==> call_ensures(#[trigger] list@[j].filter, (signal,), r@[j]),
                    decreases list@.len() - i,
                {
                    let v = list[i].handles(signal);
                    r.push(v);
                    i += 1;
                }
            },
            None => {},
        }
        r
    }

    /// Which connections of `source` react to one signal, given each filter's
    /// verdict on it and, for each connection, whether its bound entity has the
    /// component: positions in registration order.
    pub fn deliveries(&self, source: &Entity, passes: &Vec<bool>, present: &Vec<bool>) -> (r: Vec<usize>)
        requires
            self.wf(),
            passes@.len() == self.connections_of(*source).len(),
            present@.len() == self.connections_of(*source).len(),
        ensures
            r@ == planned(*self, *source, passes@, present@),
    {
        let mut r: Vec<usize> = Vec::new();
        match self.get(source) {
            Some(list) => {
                let mut i: usize = 0;
                while i < list.len()
                    invariant
                        list@ == self.connections_of(*source),
                        passes@.len() == list@.len(),
                        present@.len() == list@.len(),
                        0 <= i <= list@.len(),
                        r@ == delivered_slots(list@, passes@, present@, i as nat),
                    decreases list@.len() - i,
                {
                    let component = match &list[i].target {
                        ConnectionTo::Component { .. } => true,
                        _ => false,
                    };
                    if passes[i] && (!component || present[i]) {
                        r.push(i);
                    }
                    i += 1;
                }
            },
            None => {},
        }
        r
    }
}

} // verus!
