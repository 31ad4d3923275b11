//! Uniform-cost search: the traversal that always expands the pending
//! vertex with the smallest cumulative path cost.
//!
//! The frontier keeps `(cost, vertex)` items sorted by descending cost and
//! pops from the end, so the globally cheapest item leaves first; among
//! equal costs the most recently inserted wins. A vertex may sit on the
//! frontier several times with different candidate costs; it is pruned
//! only once *finalized* (popped and expanded), which lets a cheaper path
//! to it be discovered first. The search tree is keyed by `(cost, vertex)`
//! pairs because one vertex may legitimately be reached at several costs
//! before finalization.

use vstd::prelude::*;
use vstd::seq_lib::seq_to_set_is_finite;
use crate::SearchError;
use crate::graph::{
    Graph, GraphModel, akeys, assoc_get, lemma_assoc_get_is_entry, lemma_assoc_get_some_iff,
    lemma_targets_labeled, lemma_find_start_in_keys,
};
use crate::tree::{map_of, lemma_map_of_unique, lemma_map_of_push, lemma_map_of_update,
    join_arrows, join_path, reverse_ids};
use crate::vid::{vids, contains_id, lemma_add_contains, lemma_filter_sub};

verus! {

/// The view of one stored `(cost, vertex)` item.
pub open spec fn cpair(p: (i32, String)) -> (int, Seq<char>) {
    (p.0 as int, p.1@)
}

/// The view of a stored item list.
pub open spec fn cpairs(s: Seq<(i32, String)>) -> Seq<(int, Seq<char>)> {
    s.map_values(|p: (i32, String)| (p.0 as int, p.1@))
}

/// Where a new item lands in the cost-descending frontier: after every
/// item whose cost is at least as large, so that among equal costs the
/// most recent insertion is popped first.
pub open spec fn fr_insert(s: Seq<(int, Seq<char>)>, c: int, v: Seq<char>) -> Seq<
    (int, Seq<char>),
>
    decreases s.len(),
{
    if s.len() == 0 {
        seq![(c, v)]
    } else if s[0].0 >= c {
        seq![s[0]] + fr_insert(s.drop_first(), c, v)
    } else {
        seq![(c, v)] + s
    }
}

proof fn lemma_fr_insert_at(s: Seq<(int, Seq<char>)>, c: int, v: Seq<char>, i: int)
    requires
        0 <= i <= s.len(),
        forall|j: int| 0 <= j < i ==> (#[trigger] s[j]).0 >= c,
        i == s.len() || s[i].0 < c,
    ensures
        fr_insert(s, c, v) == s.insert(i, (c, v)),
    decreases i,
{
    if i == 0 {
        if s.len() == 0 {
            assert(fr_insert(s, c, v) =~= s.insert(0, (c, v)));
        } else {
            assert(fr_insert(s, c, v) =~= s.insert(0, (c, v)));
        }
    } else {
        assert(s[0].0 >= c);
        lemma_fr_insert_at(s.drop_first(), c, v, i - 1);
        assert(seq![s[0]] + s.drop_first().insert(i - 1, (c, v)) =~= s.insert(i, (c, v)));
    }
}

/// Inserting adds exactly one item to the frontier's elements.
pub proof fn lemma_fr_insert_elems(s: Seq<(int, Seq<char>)>, c: int, v: Seq<char>, y: (int, Seq<char>))
    ensures
        fr_insert(s, c, v).contains(y) <==> (s.contains(y) || y == (c, v)),
    decreases s.len(),
{
    if s.len() == 0 {
        if y == (c, v) {
            assert(fr_insert(s, c, v)[0] == y);
        }
        if fr_insert(s, c, v).contains(y) {
            let i = choose|i: int| 0 <= i < fr_insert(s, c, v).len() && fr_insert(s, c, v)[i] == y;
            assert(i == 0);
        }
    } else if s[0].0 >= c {
        lemma_fr_insert_elems(s.drop_first(), c, v, y);
        lemma_add_contains(seq![s[0]], fr_insert(s.drop_first(), c, v), y);
        lemma_add_contains(seq![s[0]], s.drop_first(), y);
        assert(seq![s[0]] + s.drop_first() =~= s);
        assert(seq![s[0]].contains(y) <==> y == s[0]) by {
            if seq![s[0]].contains(y) {
                let i = choose|i: int| 0 <= i < 1 && seq![s[0]][i] == y;
                assert(i == 0);
            }
            if y == s[0] {
                assert(seq![s[0]][0] == y);
            }
        }
    } else {
        lemma_add_contains(seq![(c, v)], s, y);
        assert(seq![(c, v)].contains(y) <==> y == (c, v)) by {
            if seq![(c, v)].contains(y) {
                let i = choose|i: int| 0 <= i < 1 && seq![(c, v)][i] == y;
                assert(i == 0);
            }
            if y == (c, v) {
                assert(seq![(c, v)][0] == y);
            }
        }
    }
}

/// The open list of uniform-cost search: pending `(cost, vertex)` items,
/// kept sorted by descending cost and popped from the end.
pub struct Frontier {
    f: Vec<(i32, String)>,
}

impl View for Frontier {
    type V = Seq<(int, Seq<char>)>;

    closed spec fn view(&self) -> Seq<(int, Seq<char>)> {
        cpairs(self.f@)
    }
}

impl Frontier {
    /// Creates an empty frontier.
    pub fn new() -> (r: Frontier)
        ensures
            r@ == Seq::<(int, Seq<char>)>::empty(),
    {
        let r = Frontier { f: Vec::new() };
        proof {
            assert(r@ =~= Seq::<(int, Seq<char>)>::empty());
        }
        r
    }

    /// Whether no item is pending.
    pub fn is_empty(&self) -> (r: bool)
        ensures
            r == (self@.len() == 0),
    {
        self.f.len() == 0
    }

    /// Removes and returns the cheapest pending item: the one with the
    /// globally smallest cost, the most recently inserted among equals.
    pub fn pop(&mut self) -> (r: Option<(i32, String)>)
        ensures
            old(self)@.len() == 0 ==> r is None && final(self)@ == old(self)@,
            old(self)@.len() > 0 ==> (r matches Some(p) && cpair(p) == old(self)@.last()
                && final(self)@ == old(self)@.drop_last()),
    {
        let ghost pre = self.f@;
        let r = self.f.pop();
        proof {
            if pre.len() > 0 {
                assert(cpairs(self.f@) =~= cpairs(pre).drop_last());
            } else {
                assert(cpairs(self.f@) =~= cpairs(pre));
            }
        }
        r
    }

    /// Inserts an item, keeping the cost-descending order: it lands after
    /// every item with a cost at least as large.
    pub fn push(&mut self, cost: i32, node: String)
        ensures
            final(self)@ == fr_insert(old(self)@, cost as int, node@),
    {
        let ghost pre = cpairs(self.f@);
        let mut i: usize = 0;
        loop
            invariant
                i <= self.f@.len(),
                self.f@.len() == pre.len(),
                cpairs(self.f@) == pre,
                forall|j: int| 0 <= j < i ==> (#[trigger] pre[j]).0 >= cost as int,
            ensures
                i <= self.f@.len(),
                cpairs(self.f@) == pre,
                forall|j: int| 0 <= j < i ==> (#[trigger] pre[j]).0 >= cost as int,
                i == pre.len() || pre[i as int].0 < cost as int,
            decreases self.f@.len() - i,
        {
            if i == self.f.len() {
                break;
            }
            proof {
                assert(pre[i as int] == (self.f@[i as int].0 as int, self.f@[i as int].1@));
            }
            if self.f[i].0 < cost {
                break;
            }
            i = i + 1;
        }
        proof {
            lemma_fr_insert_at(pre, cost as int, node@, i as int);
        }
        self.f.insert(i, (cost, node));
        proof {
            assert(cpairs(self.f@) =~= pre.insert(i as int, (cost as int, node@)));
        }
    }
}

impl Default for Frontier {
    /// The default frontier is empty.
    fn default() -> (r: Self)
        ensures
            r@ == Seq::<(int, Seq<char>)>::empty(),
    {
        Frontier::new()
    }
}

/// The entry views of a stored search tree.
pub open spec fn st_entries(s: Seq<((i32, String), (i32, String))>) -> Seq<
    ((int, Seq<char>), (int, Seq<char>)),
> {
    s.map_values(|e: ((i32, String), (i32, String))| (cpair(e.0), cpair(e.1)))
}

/// The walk back along parent pointers from a `(cost, vertex)` key,
/// bounded by `fuel` steps, the key itself included.
pub open spec fn back_walk_c(
    tree: Map<(int, Seq<char>), (int, Seq<char>)>,
    from: (int, Seq<char>),
    fuel: nat,
) -> Seq<(int, Seq<char>)>
    decreases fuel,
{
    if fuel == 0 || !tree.dom().contains(from) {
        seq![from]
    } else {
        seq![from] + back_walk_c(tree, tree[from], (fuel - 1) as nat)
    }
}

/// The reconstructed path of a uniform-cost search: the vertices of the
/// full parent walk from a key, reversed into start-to-goal order.
pub open spec fn ucs_path(
    tree: Map<(int, Seq<char>), (int, Seq<char>)>,
    from: (int, Seq<char>),
) -> Seq<Seq<char>> {
    back_walk_c(tree, from, tree.dom().len()).reverse().map_values(|p: (int, Seq<char>)| p.1)
}

/// The search tree of a uniform-cost search: each discovered
/// `(cost, vertex)` key maps to the key whose expansion discovered it.
pub struct SearchTree {
    entries: Vec<((i32, String), (i32, String))>,
}

impl View for SearchTree {
    type V = Map<(int, Seq<char>), (int, Seq<char>)>;

    closed spec fn view(&self) -> Map<(int, Seq<char>), (int, Seq<char>)> {
        map_of(st_entries(self.entries@))
    }
}

impl SearchTree {
    /// Well-formedness: one entry per discovered key.
    pub closed spec fn wf(&self) -> bool {
        akeys(st_entries(self.entries@)).no_duplicates()
    }

    /// The recorded `(key, parent)` pairs, in insertion order; the map
    /// this tree holds is exactly `map_of` of these entries.
    pub closed spec fn entries_model(&self) -> Seq<((int, Seq<char>), (int, Seq<char>))> {
        st_entries(self.entries@)
    }

    /// Creates an empty search tree.
    pub fn new() -> (r: SearchTree)
        ensures
            r.wf(),
            r@ == Map::<(int, Seq<char>), (int, Seq<char>)>::empty(),
            r.entries_model() == Seq::<((int, Seq<char>), (int, Seq<char>))>::empty(),
    {
        let r = SearchTree { entries: Vec::new() };
        proof {
            assert(st_entries(r.entries@) =~= Seq::<((int, Seq<char>), (int, Seq<char>))>::empty());
        }
        r
    }

    /// The index of the first entry for `key`, if any.
    fn find(&self, key: &(i32, String)) -> (r: Option<usize>)
        ensures
            match r {
                Some(i) => i < self.entries@.len() && cpair(self.entries@[i as int].0) == cpair(
                    *key,
                ) && forall|j: int|
                    0 <= j < i ==> cpair((#[trigger] self.entries@[j]).0) != cpair(*key),
                None => forall|j: int|
                    0 <= j < self.entries@.len() ==> cpair((#[trigger] self.entries@[j]).0)
                        != cpair(*key),
            },
    {
        let mut i: usize = 0;
        while i < self.entries.len()
            invariant
                i <= self.entries@.len(),
                forall|j: int|
                    0 <= j < i ==> cpair((#[trigger] self.entries@[j]).0) != cpair(*key),
            decreases self.entries@.len() - i,
        {
            if self.entries[i].0.0 == key.0 && self.entries[i].0.1 == key.1 {
                return Some(i);
            }
            proof {
                if cpair(self.entries@[i as int].0) == cpair(*key) {
                    assert(self.entries@[i as int].0.0 as int == key.0 as int);
                    assert(self.entries@[i as int].0.1@ == key.1@);
                }
            }
            i = i + 1;
        }
        None
    }

    /// Records or overwrites the parent of a discovered key. An existing
    /// key keeps its position in the insertion order; a new one is
    /// appended.
    pub fn insert(&mut self, key: (i32, String), parent: (i32, String))
        requires
            old(self).wf(),
        ensures
            final(self).wf(),
            final(self)@ == old(self)@.insert(cpair(key), cpair(parent)),
            final(self).entries_model() == crate::graph::put(
                old(self).entries_model(),
                cpair(key),
                cpair(parent),
            ),
    {
        let ghost ev = st_entries(self.entries@);
        let idx = self.find(&key);
        match idx {
            Some(i) => {
                self.entries.remove(i);
                self.entries.insert(i, (key, parent));
                proof {
                    assert(st_entries(self.entries@) =~= ev.update(
                        i as int,
                        (ev[i as int].0, cpair(parent)),
                    ));
                    lemma_map_of_update(ev, i as int, cpair(parent));
                    assert(akeys(ev.update(i as int, (ev[i as int].0, cpair(parent)))) =~= akeys(
                        ev,
                    ));
                    assert(forall|j: int| 0 <= j < i ==> (#[trigger] ev[j]).0 != cpair(key));
                    assert(ev[i as int].0 == cpair(key));
                    crate::graph::lemma_put_found(ev, cpair(key), cpair(parent), i as int);
                    assert(ev.update(i as int, (ev[i as int].0, cpair(parent))) =~= ev.update(
                        i as int,
                        (cpair(key), cpair(parent)),
                    ));
                }
            },
            None => {
                self.entries.push((key, parent));
                proof {
                    assert(st_entries(self.entries@) =~= ev.push((cpair(key), cpair(parent))));
                    lemma_map_of_push(ev, (cpair(key), cpair(parent)));
                    crate::graph::lemma_put_absent(ev, cpair(key), cpair(parent));
                    assert(akeys(ev.push((cpair(key), cpair(parent)))) =~= akeys(ev).push(
                        cpair(key),
                    ));
                    assert(forall|j: int|
                        0 <= j < ev.len() ==> (#[trigger] ev[j]).0 != cpair(key));
                    assert forall|x: int, y: int|
                        0 <= x < y < akeys(ev).push(cpair(key)).len() implies akeys(ev).push(
                        cpair(key),
                    )[x] != akeys(ev).push(cpair(key))[y] by {
                        if y == akeys(ev).len() {
                            assert(akeys(ev)[x] == ev[x].0);
                        } else {
                            assert(akeys(ev)[x] != akeys(ev)[y]);
                        }
                    }
                }
            },
        }
    }

    /// Looks up the recorded parent of a key.
    pub fn get(&self, key: &(i32, String)) -> (r: Option<(i32, String)>)
        requires
            self.wf(),
        ensures
            match r {
                Some(p) => self@.dom().contains(cpair(*key)) && self@[cpair(*key)] == cpair(p),
                None => !self@.dom().contains(cpair(*key)),
            },
    {
        let ghost ev = st_entries(self.entries@);
        proof {
            lemma_map_of_unique(ev);
        }
        let idx = self.find(key);
        match idx {
            Some(i) => {
                proof {
                    assert(ev[i as int] == (cpair(self.entries@[i as int].0),
                    cpair(self.entries@[i as int].1)));
                    assert(akeys(ev)[i as int] == ev[i as int].0);
                }
                let e = &self.entries[i];
                Some((e.1.0, e.1.1.clone()))
            },
            None => {
                proof {
                    assert forall|j: int| 0 <= j < akeys(ev).len() implies #[trigger] akeys(
                        ev,
                    )[j] != cpair(*key) by {
                        assert(akeys(ev)[j] == ev[j].0);
                    }
                    assert(!akeys(ev).contains(cpair(*key)));
                }
                None
            },
        }
    }

    /// The number of recorded keys.
    pub fn len(&self) -> (r: usize)
        requires
            self.wf(),
        ensures
            r == self@.dom().len(),
    {
        proof {
            let ev = st_entries(self.entries@);
            lemma_map_of_unique(ev);
            akeys(ev).unique_seq_to_set();
        }
        self.entries.len()
    }

    /// The recorded `(key, parent)` pairs, one per recorded key, in
    /// insertion order; a lossless listing of the map, for external
    /// diagnostic rendering.
    pub fn items(&self) -> (r: Vec<((i32, String), (i32, String))>)
        requires
            self.wf(),
        ensures
            st_entries(r@) == self.entries_model(),
            r@.len() == self@.dom().len(),
            forall|i: int|
                0 <= i < r@.len() ==> self@.dom().contains(cpair((#[trigger] r@[i]).0))
                    && self@[cpair(r@[i].0)] == cpair(r@[i].1),
            forall|i: int, j: int|
                0 <= i < j < r@.len() ==> cpair((#[trigger] r@[i]).0) != cpair(
                    (#[trigger] r@[j]).0,
                ),
    {
        proof {
            let ev = st_entries(self.entries@);
            lemma_map_of_unique(ev);
            akeys(ev).unique_seq_to_set();
        }
        let mut out: Vec<((i32, String), (i32, String))> = Vec::new();
        let mut i: usize = 0;
        while i < self.entries.len()
            invariant
                i <= self.entries@.len(),
                out@.len() == i,
                forall|j: int|
                    0 <= j < i ==> cpair((#[trigger] out@[j]).0) == cpair(self.entries@[j].0)
                        && cpair(out@[j].1) == cpair(self.entries@[j].1),
            decreases self.entries@.len() - i,
        {
            let e = &self.entries[i];
            out.push(((e.0.0, e.0.1.clone()), (e.1.0, e.1.1.clone())));
            i = i + 1;
        }
        proof {
            let ev = st_entries(self.entries@);
            lemma_map_of_unique(ev);
            assert(st_entries(out@) =~= ev);
            assert forall|j: int| 0 <= j < out@.len() implies self@.dom().contains(
                cpair((#[trigger] out@[j]).0),
            ) && self@[cpair(out@[j].0)] == cpair(out@[j].1) by {
                assert(ev[j] == (cpair(self.entries@[j].0), cpair(self.entries@[j].1)));
                assert(akeys(ev)[j] == ev[j].0);
                assert(self@[ev[j].0] == ev[j].1);
            }
            assert forall|i: int, j: int| 0 <= i < j < out@.len() implies cpair(
                (#[trigger] out@[i]).0,
            ) != cpair((#[trigger] out@[j]).0) by {
                assert(akeys(ev)[i] == ev[i].0 && akeys(ev)[j] == ev[j].0);
                assert(akeys(ev)[i] != akeys(ev)[j]);
            }
        }
        out
    }

    /// Reconstructs the path that discovered a key and renders it as
    /// arrow-joined text in start-to-goal order.
    pub fn build_path(&self, from: (i32, String)) -> (r: String)
        requires
            self.wf(),
        ensures
            r@ == join_arrows(ucs_path(self@, cpair(from))),
    {
        let fuel = self.len();
        let mut rev: Vec<String> = Vec::new();
        rev.push(from.1.clone());
        let mut current = from;
        let mut steps: usize = 0;
        let ghost walked = seq![cpair(from)];
        let ghost cur0 = cpair(current);
        proof {
            assert(vids(rev@) =~= walked.map_values(|p: (int, Seq<char>)| p.1));
        }
        loop
            invariant
                self.wf(),
                steps <= fuel,
                fuel == self@.dom().len(),
                walked.len() >= 1,
                walked.last() == cpair(current),
                vids(rev@) == walked.map_values(|p: (int, Seq<char>)| p.1),
                back_walk_c(self@, cpair(from), fuel as nat) == walked.drop_last() + back_walk_c(
                    self@,
                    cpair(current),
                    (fuel - steps) as nat,
                ),
            ensures
                back_walk_c(self@, cpair(from), fuel as nat) == walked,
                vids(rev@) == walked.map_values(|p: (int, Seq<char>)| p.1),
            decreases fuel - steps,
        {
            if steps == fuel {
                proof {
                    assert(back_walk_c(self@, cpair(current), 0) =~= seq![cpair(current)]);
                    assert(walked.drop_last() + seq![cpair(current)] =~= walked);
                }
                break;
            }
            let nxt = self.get(&current);
            match nxt {
                None => {
                    proof {
                        assert(back_walk_c(self@, cpair(current), (fuel - steps) as nat) =~= seq![
                            cpair(current),
                        ]);
                        assert(walked.drop_last() + seq![cpair(current)] =~= walked);
                    }
                    break;
                },
                Some(next) => {
                    let ghost prew = walked;
                    let ghost prev = vids(rev@);
                    rev.push(next.1.clone());
                    proof {
                        walked = prew.push(cpair(next));
                        assert(vids(rev@) =~= prev.push(next.1@));
                        assert(vids(rev@) =~= walked.map_values(|p: (int, Seq<char>)| p.1));
                        assert(back_walk_c(self@, cpair(current), (fuel - steps) as nat) == seq![
                            cpair(current),
                        ] + back_walk_c(self@, cpair(next), (fuel - steps - 1) as nat));
                        assert(prew.drop_last() + (seq![cpair(current)] + back_walk_c(
                            self@,
                            cpair(next),
                            (fuel - steps - 1) as nat,
                        )) =~= walked.drop_last() + back_walk_c(
                            self@,
                            cpair(next),
                            (fuel - steps - 1) as nat,
                        ));
                    }
                    current = next;
                    steps = steps + 1;
                },
            }
        }
        let ids = reverse_ids(&rev);
        proof {
            assert(vids(ids@) == vids(rev@).reverse());
            assert(vids(rev@).reverse() =~= back_walk_c(self@, cpair(from), fuel as nat).reverse(
            ).map_values(|p: (int, Seq<char>)| p.1));
        }
        join_path(&ids)
    }
}

/// The largest weight in one edge list, `0` for an empty list.
pub open spec fn max_w(l: Seq<(Seq<char>, int)>) -> int
    decreases l.len(),
{
    if l.len() == 0 {
        0
    } else {
        let m = max_w(l.drop_last());
        if l.last().1 > m {
            l.last().1
        } else {
            m
        }
    }
}

/// The largest outgoing weight of a vertex.
pub open spec fn maxout(g: GraphModel, v: Seq<char>) -> int {
    max_w(g.adj_of(v))
}

/// The sum, over a list of vertices, of each one's largest outgoing
/// weight. With non-negative weights this bounds every cumulative cost a
/// run can reach once the listed vertices are the finalized ones.
pub open spec fn sum_maxout(g: GraphModel, vs: Seq<Seq<char>>) -> int
    decreases vs.len(),
{
    if vs.len() == 0 {
        0
    } else {
        sum_maxout(g, vs.drop_last()) + maxout(g, vs.last())
    }
}

/// A bound on every cumulative cost any uniform-cost run over the graph
/// can reach: the sum of every labeled vertex's largest outgoing weight.
pub open spec fn total_weight_bound(g: GraphModel) -> int {
    sum_maxout(g, g.vkeys())
}

/// Whether every edge weight in the graph is non-negative, the regime in
/// which uniform-cost search is meaningful.
pub open spec fn weights_ok(g: GraphModel) -> bool {
    forall|i: int, j: int|
        0 <= i < g.adj.len() && 0 <= j < g.adj[i].1.len() ==> 0 <= (#[trigger] g.adj[i].1[j]).1
}

/// The largest weight dominates every entry and is never negative.
pub proof fn lemma_max_w_bounds(l: Seq<(Seq<char>, int)>)
    ensures
        0 <= max_w(l),
        forall|i: int| 0 <= i < l.len() ==> (#[trigger] l[i]).1 <= max_w(l),
    decreases l.len(),
{
    if l.len() > 0 {
        lemma_max_w_bounds(l.drop_last());
        assert forall|i: int| 0 <= i < l.len() implies (#[trigger] l[i]).1 <= max_w(l) by {
            if i < l.len() - 1 {
                assert(l.drop_last()[i] == l[i]);
            }
        }
    }
}

/// An existing edge's weight is non-negative and at most the source's
/// largest outgoing weight.
pub proof fn lemma_weight_in_range(g: GraphModel, from: Seq<char>, to: Seq<char>)
    requires
        weights_ok(g),
        g.cost_of(from, to) is Some,
    ensures
        0 <= g.cost_of(from, to)->Some_0,
        g.cost_of(from, to)->Some_0 <= maxout(g, from),
{
    let l = g.adj_of(from);
    lemma_assoc_get_is_entry(l, to);
    let j = choose|j: int|
        0 <= j < l.len() && (#[trigger] l[j]).0 == to && l[j].1 == assoc_get(l, to)->Some_0;
    lemma_max_w_bounds(l);
    assert(assoc_get(g.adj, from) is Some);
    lemma_assoc_get_is_entry(g.adj, from);
    let i = choose|i: int|
        0 <= i < g.adj.len() && (#[trigger] g.adj[i]).0 == from && g.adj[i].1 == assoc_get(
            g.adj,
            from,
        )->Some_0;
    assert(0 <= g.adj[i].1[j].1);
}

/// The sum over the listed vertices is never negative.
pub proof fn lemma_sum_maxout_nonneg(g: GraphModel, vs: Seq<Seq<char>>)
    ensures
        0 <= sum_maxout(g, vs),
    decreases vs.len(),
{
    if vs.len() > 0 {
        lemma_sum_maxout_nonneg(g, vs.drop_last());
        lemma_max_w_bounds(g.adj_of(vs.last()));
    }
}

/// Removing one vertex takes exactly its contribution out of the sum.
pub proof fn lemma_sum_maxout_remove(g: GraphModel, vs: Seq<Seq<char>>, i: int)
    requires
        0 <= i < vs.len(),
    ensures
        sum_maxout(g, vs) == sum_maxout(g, vs.remove(i)) + maxout(g, vs[i]),
    decreases vs.len(),
{
    if i == vs.len() - 1 {
        assert(vs.remove(i) =~= vs.drop_last());
    } else {
        lemma_sum_maxout_remove(g, vs.drop_last(), i);
        assert(vs.remove(i).drop_last() =~= vs.drop_last().remove(i));
        assert(vs.remove(i).last() == vs.last());
        assert(vs.drop_last()[i] == vs[i]);
    }
}

/// The sum over distinct listed vertices is at most the sum over a list
/// that contains them all.
pub proof fn lemma_sum_maxout_subset(g: GraphModel, vs: Seq<Seq<char>>, ks: Seq<Seq<char>>)
    requires
        vs.no_duplicates(),
        forall|j: int| 0 <= j < vs.len() ==> ks.contains(#[trigger] vs[j]),
    ensures
        sum_maxout(g, vs) <= sum_maxout(g, ks),
    decreases vs.len(),
{
    if vs.len() == 0 {
        lemma_sum_maxout_nonneg(g, ks);
    } else {
        let x = vs.last();
        assert(ks.contains(x)) by {
            assert(vs[vs.len() - 1] == x);
        }
        let i = choose|i: int| 0 <= i < ks.len() && ks[i] == x;
        lemma_sum_maxout_remove(g, ks, i);
        crate::tree::lemma_nodup_drop_last(vs);
        assert forall|j: int| 0 <= j < vs.drop_last().len() implies ks.remove(i).contains(
            #[trigger] vs.drop_last()[j],
        ) by {
            let y = vs.drop_last()[j];
            assert(vs[j] == y);
            assert(y != x);
            let m = choose|m: int| 0 <= m < ks.len() && ks[m] == y;
            if m < i {
                assert(ks.remove(i)[m] == y);
            } else {
                assert(m != i);
                assert(ks.remove(i)[m - 1] == y);
            }
        }
        lemma_sum_maxout_subset(g, vs.drop_last(), ks.remove(i));
        lemma_max_w_bounds(g.adj_of(x));
    }
}

/// The frontier and the search tree after offering one batch of children,
/// processed left to right: each child is keyed by the expanded vertex's
/// cost plus the first edge weight to it, and points back at the expanded
/// key.
pub open spec fn ucs_expand(
    g: GraphModel,
    cs: Seq<Seq<char>>,
    cost: int,
    node: Seq<char>,
    fr: Seq<(int, Seq<char>)>,
    tree: Map<(int, Seq<char>), (int, Seq<char>)>,
) -> (Seq<(int, Seq<char>)>, Map<(int, Seq<char>), (int, Seq<char>)>)
    decreases cs.len(),
{
    if cs.len() == 0 {
        (fr, tree)
    } else {
        let prev = ucs_expand(g, cs.drop_last(), cost, node, fr, tree);
        let c = cs.last();
        let gc = cost + g.cost_of(node, c)->Some_0;
        (fr_insert(prev.0, gc, c), prev.1.insert((gc, c), (cost, node)))
    }
}

/// Every vertex on the frontier after an expansion was already there or is
/// one of the offered children.
pub proof fn lemma_ucs_expand_elems(
    g: GraphModel,
    cs: Seq<Seq<char>>,
    cost: int,
    node: Seq<char>,
    fr: Seq<(int, Seq<char>)>,
    tree: Map<(int, Seq<char>), (int, Seq<char>)>,
)
    ensures
        forall|i: int|
            0 <= i < ucs_expand(g, cs, cost, node, fr, tree).0.len() ==> fr.contains(
                #[trigger] ucs_expand(g, cs, cost, node, fr, tree).0[i],
            ) || cs.contains(ucs_expand(g, cs, cost, node, fr, tree).0[i].1),
    decreases cs.len(),
{
    if cs.len() > 0 {
        lemma_ucs_expand_elems(g, cs.drop_last(), cost, node, fr, tree);
        let prev = ucs_expand(g, cs.drop_last(), cost, node, fr, tree);
        let c = cs.last();
        let gc = cost + g.cost_of(node, c)->Some_0;
        let out = ucs_expand(g, cs, cost, node, fr, tree);
        assert forall|i: int| 0 <= i < out.0.len() implies fr.contains(#[trigger] out.0[i])
            || cs.contains(out.0[i].1) by {
            lemma_fr_insert_elems(prev.0, gc, c, out.0[i]);
            assert(out.0.contains(out.0[i]));
            if out.0[i] == (gc, c) {
                assert(cs[cs.len() - 1] == c);
            } else {
                assert(prev.0.contains(out.0[i]));
                let m = choose|m: int| 0 <= m < prev.0.len() && prev.0[m] == out.0[i];
                if cs.drop_last().contains(out.0[i].1) {
                    let n = choose|n: int|
                        0 <= n < cs.drop_last().len() && cs.drop_last()[n] == out.0[i].1;
                    assert(cs[n] == cs.drop_last()[n]);
                }
            }
        }
    }
}

/// One complete run of the uniform-cost loop from a given state. A popped
/// vertex already finalized is a stale frontier entry and is discarded;
/// otherwise it is goal-tested, finalized, and expanded.
pub open spec fn ucs_loop(
    g: GraphModel,
    exl: Seq<Seq<char>>,
    fr: Seq<(int, Seq<char>)>,
    tree: Map<(int, Seq<char>), (int, Seq<char>)>,
) -> Result<((int, Seq<char>), Map<(int, Seq<char>), (int, Seq<char>)>), SearchError>
    decreases g.vkeys().to_set().difference(exl.to_set()).len(), fr.len(),
        when g.wf() && exl.to_set().subset_of(g.vkeys().to_set()) && (forall|i: int|
            0 <= i < fr.len() ==> g.vkeys().contains((#[trigger] fr[i]).1))
{
    if fr.len() == 0 {
        Err(SearchError::NoGoalFound)
    } else {
        let top = fr.last();
        let rest = fr.drop_last();
        if exl.contains(top.1) {
            ucs_loop(g, exl, rest, tree)
        } else if g.is_goal_spec(top.1) {
            Ok((top, tree))
        } else {
            let exl2 = exl.push(top.1);
            let cs = g.targets_of(top.1).filter(|t: Seq<char>| !exl2.contains(t));
            let next = ucs_expand(g, cs, top.0, top.1, rest, tree);
            proof {
                broadcast use seq_to_set_is_finite;
                broadcast use vstd::set::group_set_axioms;

                let ks = g.vkeys().to_set();
                assert(ks.contains(top.1)) by {
                    assert(g.vkeys().contains(fr[fr.len() - 1].1));
                }
                assert(exl2.to_set() =~= exl.to_set().insert(top.1)) by {
                    assert forall|x: Seq<char>| exl2.contains(x) implies exl.contains(x) || x
                        == top.1 by {
                        let i = choose|i: int| 0 <= i < exl2.len() && exl2[i] == x;
                        if i < exl.len() {
                            assert(exl[i] == x);
                        }
                    }
                    assert(exl2[exl.len() as int] == top.1);
                    assert forall|x: Seq<char>| exl.contains(x) implies exl2.contains(x) by {
                        let i = choose|i: int| 0 <= i < exl.len() && exl[i] == x;
                        assert(exl2[i] == x);
                    }
                }
                ks.lemma_set_insert_diff_decreases(exl.to_set(), top.1);
                lemma_targets_labeled(g, top.1);
                lemma_ucs_expand_elems(g, cs, top.0, top.1, rest, tree);
                assert forall|i: int| 0 <= i < next.0.len() implies g.vkeys().contains(
                    (#[trigger] next.0[i]).1,
                ) by {
                    if cs.contains(next.0[i].1) {
                        let n = choose|n: int| 0 <= n < cs.len() && cs[n] == next.0[i].1;
                        lemma_filter_sub(
                            g.targets_of(top.1),
                            |t: Seq<char>| !exl2.contains(t),
                            n,
                        );
                    } else {
                        let m = choose|m: int| 0 <= m < rest.len() && rest[m] == next.0[i];
                        assert(g.vkeys().contains(fr[m].1));
                    }
                }
            }
            ucs_loop(g, exl2, next.0, next.1)
        }
    }
}

/// What a uniform-cost search returns, as a function of the graph alone:
/// the `(cost, vertex)` goal key and the finished search tree, or the
/// failure.
pub open spec fn ucs_spec(g: GraphModel) -> Result<
    ((int, Seq<char>), Map<(int, Seq<char>), (int, Seq<char>)>),
    SearchError,
> {
    match g.start_of() {
        None => Err(SearchError::NoStartNode),
        Some(s) => ucs_loop(g, Seq::empty(), seq![(0int, s)], Map::empty()),
    }
}

/// What the solver promises of a run's outcome: on success the rendered
/// start-to-goal path of the specified goal key and tree, on failure the
/// specified error.
pub open spec fn ucs_post(g: GraphModel, r: Result<String, SearchError>) -> bool {
    match (r, ucs_spec(g)) {
        (Ok(s), Ok(p)) => s@ == join_arrows(ucs_path(p.1, p.0)),
        (Err(e), Err(es)) => e == es,
        _ => false,
    }
}

/// A one-shot uniform-cost search over a borrowed graph.
pub struct UcsSolver<'a> {
    graph: &'a Graph,
    frontier: Frontier,
    exl: Vec<String>,
    search_tree: SearchTree,
}

impl<'a> UcsSolver<'a> {
    /// The model of the graph this solver searches.
    pub closed spec fn graph_model(&self) -> GraphModel {
        self.graph@
    }

    /// The search tree explored so far.
    pub closed spec fn tree_model(&self) -> Map<(int, Seq<char>), (int, Seq<char>)> {
        self.search_tree@
    }

    /// Whether the solver has not run yet: frontier, finalized set and
    /// search tree are all empty.
    pub closed spec fn fresh(&self) -> bool {
        &&& self.frontier@ == Seq::<(int, Seq<char>)>::empty()
        &&& self.exl@ == Seq::<String>::empty()
        &&& self.search_tree@ == Map::<(int, Seq<char>), (int, Seq<char>)>::empty()
        &&& self.search_tree.wf()
    }

    /// Creates a solver for one run over the graph.
    pub fn new(graph: &'a Graph) -> (r: UcsSolver<'a>)
        ensures
            r.fresh(),
            r.graph_model() == graph@,
    {
        UcsSolver {
            graph,
            frontier: Frontier::new(),
            exl: Vec::new(),
            search_tree: SearchTree::new(),
        }
    }

    /// The explored search tree, for external diagnostic rendering.
    pub fn search_tree(&self) -> (r: &SearchTree)
        ensures
            r@ == self.tree_model(),
    {
        &self.search_tree
    }

    /// Runs the search: resolves the start vertex, then repeatedly pops
    /// the cheapest frontier item, discards it if already finalized,
    /// goal-tests it, finalizes it, and offers its unfinalized neighbors
    /// at their cumulative costs. On success returns the rendered
    /// start-to-goal path. Deterministic: the outcome is a function of
    /// the graph alone. A missing start vertex is detected before any
    /// state is touched, so the solver is still fresh after that failure.
    pub fn solve(&mut self) -> (r: Result<String, SearchError>)
        requires
            old(self).fresh(),
            old(self).graph_model().wf(),
            old(self).graph_model().start_of() is Some ==> weights_ok(old(self).graph_model())
                && total_weight_bound(old(self).graph_model()) <= i32::MAX,
        ensures
            ucs_post(old(self).graph_model(), r),
            final(self).graph_model() == old(self).graph_model(),
            r == Err::<String, SearchError>(SearchError::NoStartNode) ==> final(self).fresh(),
    {
        let ghost gm = self.graph@;
        let start = match self.graph.get_start_node() {
            None => {
                return Err(SearchError::NoStartNode);
            },
            Some(s) => s,
        };
        self.frontier.push(0, start);
        proof {
            lemma_find_start_in_keys(gm.labels);
            assert(self.frontier@ =~= seq![(0int, gm.start_of()->Some_0)]);
            assert(vids(self.exl@) =~= Seq::<Seq<char>>::empty());
            assert(vids(self.exl@).to_set() =~= Set::<Seq<char>>::empty());
        }
        loop
            invariant
                old(self).graph_model() == gm,
                self.graph@ == gm,
                gm.wf(),
                weights_ok(gm),
                total_weight_bound(gm) <= i32::MAX,
                self.search_tree.wf(),
                vids(self.exl@).no_duplicates(),
                vids(self.exl@).to_set().subset_of(gm.vkeys().to_set()),
                forall|i: int|
                    0 <= i < self.frontier@.len() ==> gm.vkeys().contains(
                        (#[trigger] self.frontier@[i]).1,
                    ),
                forall|i: int|
                    0 <= i < self.frontier@.len() ==> 0 <= (#[trigger] self.frontier@[i]).0
                        <= sum_maxout(gm, vids(self.exl@)),
                ucs_loop(gm, vids(self.exl@), self.frontier@, self.search_tree@) == ucs_spec(gm),
            decreases gm.vkeys().to_set().difference(vids(self.exl@).to_set()).len(),
                self.frontier@.len(),
        {
            let ghost exlv = vids(self.exl@);
            let ghost frv = self.frontier@;
            let ghost tr0 = self.search_tree@;
            let popped = self.frontier.pop();
            let top = match popped {
                None => {
                    proof {
                        assert(ucs_loop(gm, exlv, frv, tr0) == Err::<
                            ((int, Seq<char>), Map<(int, Seq<char>), (int, Seq<char>)>),
                            SearchError,
                        >(SearchError::NoGoalFound));
                    }
                    return Err(SearchError::NoGoalFound);
                },
                Some(p) => p,
            };
            let (cost, node) = top;
            proof {
                assert((cost as int, node@) == frv.last());
            }
            if contains_id(&self.exl, &node) {
                proof {
                    assert(exlv.contains(frv.last().1));
                }
                continue;
            }
            proof {
                assert(!exlv.contains(frv.last().1));
            }
            if self.graph.is_goal(node.as_str()) {
                proof {
                    assert(ucs_spec(gm) == Ok::<
                        ((int, Seq<char>), Map<(int, Seq<char>), (int, Seq<char>)>),
                        SearchError,
                    >((frv.last(), tr0)));
                }
                let rendered = self.search_tree.build_path((cost, node));
                return Ok(rendered);
            }
            self.exl.push(node.clone());
            let ghost exl2 = vids(self.exl@);
            proof {
                assert(exl2 =~= exlv.push(node@));
                assert forall|x: int, y: int| 0 <= x < y < exl2.len() implies exl2[x]
                    != exl2[y] by {
                    if y == exl2.len() - 1 {
                        assert(exlv[x] == exl2[x]);
                        assert(exlv.contains(exlv[x]));
                    } else {
                        assert(exlv[x] != exlv[y]);
                    }
                }
                assert(sum_maxout(gm, exl2) == sum_maxout(gm, exlv) + maxout(gm, node@)) by {
                    assert(exl2.drop_last() =~= exlv);
                }
                lemma_max_w_bounds(gm.adj_of(node@));
                assert forall|x: Seq<char>| exl2.to_set().contains(x) implies gm.vkeys().to_set(
                ).contains(x) by {
                    let i = choose|i: int| 0 <= i < exl2.len() && exl2[i] == x;
                    if i < exlv.len() {
                        assert(exlv.contains(x));
                    } else {
                        assert(x == node@);
                        assert(gm.vkeys().contains(frv.last().1));
                    }
                }
                assert forall|m: int| 0 <= m < exl2.len() implies gm.vkeys().contains(
                    #[trigger] exl2[m],
                ) by {
                    assert(exl2.to_set().contains(exl2[m]));
                }
                lemma_sum_maxout_subset(gm, exl2, gm.vkeys());
            }
            let expanded = self.graph.expand(node.as_str());
            let ghost pred = |t: Seq<char>| !exl2.contains(t);
            let mut kept: Vec<String> = Vec::new();
            let mut j: usize = 0;
            proof {
                assert(vids(expanded@).take(0) =~= Seq::<Seq<char>>::empty());
                assert(Seq::<Seq<char>>::empty().filter(pred) =~= Seq::<Seq<char>>::empty()) by {
                    reveal(Seq::filter);
                }
                assert(vids(kept@) =~= Seq::<Seq<char>>::empty());
            }
            while j < expanded.len()
                invariant
                    j <= expanded@.len(),
                    exl2 == vids(self.exl@),
                    pred == (|t: Seq<char>| !exl2.contains(t)),
                    vids(expanded@).len() == expanded@.len(),
                    vids(kept@) == vids(expanded@).take(j as int).filter(pred),
                decreases expanded@.len() - j,
            {
                let ghost tk = vids(expanded@).take(j as int);
                let ghost x = vids(expanded@)[j as int];
                let in_exl = contains_id(&self.exl, &expanded[j]);
                let ghost pre_kept = vids(kept@);
                if !in_exl {
                    kept.push(expanded[j].clone());
                    proof {
                        assert(vids(kept@) =~= pre_kept.push(x));
                    }
                }
                proof {
                    assert(vids(expanded@).take(j as int + 1) =~= tk + seq![x]);
                    Seq::filter_distributes_over_add(tk, seq![x], pred);
                    assert(seq![x].filter(pred) == if pred(x) {
                        seq![x]
                    } else {
                        Seq::<Seq<char>>::empty()
                    }) by {
                        reveal(Seq::filter);
                        assert(seq![x].drop_last() =~= Seq::<Seq<char>>::empty());
                        assert(Seq::<Seq<char>>::empty().filter(pred) =~= Seq::<
                            Seq<char>,
                        >::empty());
                        assert(seq![x].last() == x);
                        assert(Seq::<Seq<char>>::empty().push(x) =~= seq![x]);
                    }
                    if pred(x) {
                        assert(vids(kept@) =~= tk.filter(pred) + seq![x]);
                    } else {
                        assert(vids(kept@) =~= tk.filter(pred) + Seq::<Seq<char>>::empty());
                    }
                }
                j = j + 1;
            }
            let ghost cs = gm.targets_of(node@).filter(pred);
            proof {
                assert(vids(expanded@).take(expanded@.len() as int) =~= vids(expanded@));
                assert(vids(kept@) == cs);
                assert forall|m: int| 0 <= m < cs.len() implies gm.targets_of(node@).contains(
                    #[trigger] cs[m],
                ) by {
                    lemma_filter_sub(gm.targets_of(node@), pred, m);
                }
            }
            let ghost rest = self.frontier@;
            let mut k: usize = 0;
            proof {
                assert(cs.take(0) =~= Seq::<Seq<char>>::empty());
                assert(ucs_expand(gm, cs.take(0), cost as int, node@, rest, tr0) == (
                    rest,
                    tr0,
                ));
            }
            while k < kept.len()
                invariant
                    k <= kept@.len(),
                    cs == vids(kept@),
                    self.graph@ == gm,
                    gm.wf(),
                    weights_ok(gm),
                    total_weight_bound(gm) <= i32::MAX,
                    self.search_tree.wf(),
                    exl2 == vids(self.exl@),
                    0 <= cost as int,
                    cost as int + maxout(gm, node@) <= sum_maxout(gm, exl2),
                    sum_maxout(gm, exl2) <= i32::MAX,
                    node@ == frv.last().1,
                    forall|m: int|
                        0 <= m < cs.len() ==> gm.targets_of(node@).contains(#[trigger] cs[m]),
                    (self.frontier@, self.search_tree@) == ucs_expand(
                        gm,
                        cs.take(k as int),
                        cost as int,
                        node@,
                        rest,
                        tr0,
                    ),
                    forall|i: int|
                        0 <= i < self.frontier@.len() ==> gm.vkeys().contains(
                            (#[trigger] self.frontier@[i]).1,
                        ),
                    forall|i: int|
                        0 <= i < self.frontier@.len() ==> 0 <= (#[trigger] self.frontier@[i]).0
                            <= sum_maxout(gm, exl2),
                decreases kept@.len() - k,
            {
                let ghost prefr = self.frontier@;
                let ghost pretr = self.search_tree@;
                let child = kept[k].clone();
                proof {
                    assert(child@ == cs[k as int]);
                    assert(gm.targets_of(node@).contains(cs[k as int]));
                    crate::graph::lemma_assoc_get_some_iff(gm.adj_of(node@), child@);
                    assert(akeys(gm.adj_of(node@)) =~= gm.targets_of(node@));
                    lemma_weight_in_range(gm, node@, child@);
                }
                let w = match self.graph.get_cost_of(node.as_str(), child.as_str()) {
                    Some(w) => w,
                    None => vstd::pervasive::unreached(),
                };
                let g_new = cost + w;
                self.search_tree.insert((g_new, child.clone()), (cost, node.clone()));
                self.frontier.push(g_new, child);
                proof {
                    let gc = cost as int + w as int;
                    assert(cs.take(k as int + 1).drop_last() =~= cs.take(k as int));
                    assert(cs.take(k as int + 1).last() == cs[k as int]);
                    assert(ucs_expand(gm, cs.take(k as int + 1), cost as int, node@, rest, tr0)
                        == (
                    fr_insert(prefr, gc, cs[k as int]),
                    pretr.insert((gc, cs[k as int]), (cost as int, node@)),
                    ));
                    lemma_targets_labeled(gm, node@);
                    assert forall|i: int| 0 <= i < self.frontier@.len() implies gm.vkeys(
                    ).contains((#[trigger] self.frontier@[i]).1) && 0 <= self.frontier@[i].0
                        <= sum_maxout(gm, exl2) by {
                        lemma_fr_insert_elems(prefr, gc, cs[k as int], self.frontier@[i]);
                        assert(self.frontier@.contains(self.frontier@[i]));
                        if self.frontier@[i] == (gc, cs[k as int]) {
                            let m = choose|m: int|
                                0 <= m < gm.targets_of(node@).len() && gm.targets_of(node@)[m]
                                    == cs[k as int];
                            assert(gm.vkeys().contains(gm.targets_of(node@)[m]));
                        } else {
                            assert(prefr.contains(self.frontier@[i]));
                            let m = choose|m: int|
                                0 <= m < prefr.len() && prefr[m] == self.frontier@[i];
                        }
                    }
                }
                k = k + 1;
            }
            proof {
                broadcast use seq_to_set_is_finite;
                broadcast use vstd::set::group_set_axioms;

                assert(cs.take(kept@.len() as int) =~= cs);
                assert(exl2.to_set() =~= exlv.to_set().insert(node@)) by {
                    assert forall|x: Seq<char>| exl2.contains(x) implies exlv.contains(x) || x
                        == node@ by {
                        let i = choose|i: int| 0 <= i < exl2.len() && exl2[i] == x;
                        if i < exlv.len() {
                            assert(exlv[i] == x);
                        }
                    }
                    assert(exl2[exlv.len() as int] == node@);
                    assert forall|x: Seq<char>| exlv.contains(x) implies exl2.contains(x) by {
                        let i = choose|i: int| 0 <= i < exlv.len() && exlv[i] == x;
                        assert(exl2[i] == x);
                    }
                }
                gm.vkeys().to_set().lemma_set_insert_diff_decreases(exlv.to_set(), node@);
                assert(ucs_loop(gm, exlv, frv, tr0) == ucs_loop(
                    gm,
                    exl2,
                    self.frontier@,
                    self.search_tree@,
                ));
            }
        }
    }
}

} // verus!
