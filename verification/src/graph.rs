//! The labeled directed graph that the search algorithms run on.
//!
//! The graph keeps one classification label per vertex and, per vertex, an
//! ordered list of outgoing `(target, weight)` edges. Both mappings preserve
//! insertion order, which pins down the otherwise order-dependent questions
//! (which `Start` vertex is found first, in which order neighbors are
//! expanded). Pushing an edge auto-creates missing endpoints with the
//! default `Neutral` label, so every vertex that an edge mentions has a
//! label.

use vstd::prelude::*;
use vstd::string::StringExecFns;
use crate::vid::vids;

verus! {

/// Classification of a vertex: the search starts at the first `Start`
/// vertex and stops when it pops a `Goal` vertex.
#[derive(Clone, Copy, Debug, Hash, PartialEq, Eq, Structural)]
pub enum State {
    Start,
    Neutral,
    Goal,
}

impl Default for State {
    /// Vertices created implicitly by `push_edge` are `Neutral`.
    fn default() -> (r: Self)
        ensures
            r == State::Neutral,
    {
        State::Neutral
    }
}

/// The payload of an edge: a weight, read only by uniform-cost search.
#[derive(Clone, Copy, Debug)]
pub struct Edge(pub i32);

/// First-match lookup in an association sequence.
pub open spec fn assoc_get<K, V>(s: Seq<(K, V)>, k: K) -> Option<V>
    decreases s.len(),
{
    if s.len() == 0 {
        None
    } else if s[0].0 == k {
        Some(s[0].1)
    } else {
        assoc_get(s.drop_first(), k)
    }
}

/// The key sequence of an association sequence.
pub open spec fn akeys<K, V>(s: Seq<(K, V)>) -> Seq<K> {
    s.map_values(|p: (K, V)| p.0)
}

/// Insert-or-overwrite in an association sequence: an existing key keeps
/// its position, a new key is appended.
pub open spec fn put<K, V>(s: Seq<(K, V)>, k: K, v: V) -> Seq<(K, V)>
    decreases s.len(),
{
    if s.len() == 0 {
        seq![(k, v)]
    } else if s[0].0 == k {
        seq![(k, v)] + s.drop_first()
    } else {
        seq![s[0]] + put(s.drop_first(), k, v)
    }
}

/// A found key is overwritten in place.
pub proof fn lemma_put_found<K, V>(s: Seq<(K, V)>, k: K, v: V, i: int)
    requires
        0 <= i < s.len(),
        forall|j: int| 0 <= j < i ==> (#[trigger] s[j]).0 != k,
        s[i].0 == k,
    ensures
        put(s, k, v) == s.update(i, (k, v)),
    decreases i,
{
    if i == 0 {
        assert(put(s, k, v) =~= s.update(0, (k, v)));
    } else {
        assert(s[0].0 != k);
        lemma_put_found(s.drop_first(), k, v, i - 1);
        assert(seq![s[0]] + s.drop_first().update(i - 1, (k, v)) =~= s.update(i, (k, v)));
    }
}

/// An absent key is appended.
pub proof fn lemma_put_absent<K, V>(s: Seq<(K, V)>, k: K, v: V)
    requires
        forall|j: int| 0 <= j < s.len() ==> (#[trigger] s[j]).0 != k,
    ensures
        put(s, k, v) == s.push((k, v)),
    decreases s.len(),
{
    if s.len() == 0 {
        assert(put(s, k, v) =~= s.push((k, v)));
    } else {
        lemma_put_absent(s.drop_first(), k, v);
        assert(seq![s[0]] + s.drop_first().push((k, v)) =~= s.push((k, v)));
    }
}

/// A successful lookup returns the value of some entry with the key.
pub proof fn lemma_assoc_get_is_entry<K, V>(s: Seq<(K, V)>, k: K)
    requires
        assoc_get(s, k) is Some,
    ensures
        exists|i: int|
            0 <= i < s.len() && (#[trigger] s[i]).0 == k && s[i].1 == assoc_get(s, k)->Some_0,
    decreases s.len(),
{
    if s.len() > 0 && s[0].0 != k {
        lemma_assoc_get_is_entry(s.drop_first(), k);
        let i = choose|i: int|
            0 <= i < s.drop_first().len() && (#[trigger] s.drop_first()[i]).0 == k
                && s.drop_first()[i].1 == assoc_get(s.drop_first(), k)->Some_0;
        assert(s[i + 1] == s.drop_first()[i]);
    }
}

/// A lookup succeeds exactly when some entry holds the key.
pub proof fn lemma_assoc_get_some_iff<K, V>(s: Seq<(K, V)>, k: K)
    ensures
        (assoc_get(s, k) is Some) <==> akeys(s).contains(k),
    decreases s.len(),
{
    if s.len() == 0 {
    } else if s[0].0 == k {
        assert(akeys(s)[0] == k);
    } else {
        lemma_assoc_get_some_iff(s.drop_first(), k);
        assert(akeys(s).drop_first() =~= akeys(s.drop_first()));
        if akeys(s).contains(k) {
            let i = choose|i: int| 0 <= i < akeys(s).len() && akeys(s)[i] == k;
            assert(akeys(s.drop_first())[i - 1] == k);
        }
        if akeys(s.drop_first()).contains(k) {
            let i = choose|i: int|
                0 <= i < akeys(s.drop_first()).len() && akeys(s.drop_first())[i] == k;
            assert(akeys(s)[i + 1] == k);
        }
    }
}

/// The first vertex tagged `Start`, in insertion order.
pub open spec fn find_start(labels: Seq<(Seq<char>, State)>) -> Option<Seq<char>>
    decreases labels.len(),
{
    if labels.len() == 0 {
        None
    } else if labels[0].1 == State::Start {
        Some(labels[0].0)
    } else {
        find_start(labels.drop_first())
    }
}

/// The start vertex, when there is one, carries a label.
pub proof fn lemma_find_start_in_keys(labels: Seq<(Seq<char>, State)>)
    requires
        find_start(labels) is Some,
    ensures
        akeys(labels).contains(find_start(labels)->Some_0),
    decreases labels.len(),
{
    if labels[0].1 == State::Start {
        assert(akeys(labels)[0] == labels[0].0);
    } else {
        lemma_find_start_in_keys(labels.drop_first());
        let i = choose|i: int|
            0 <= i < akeys(labels.drop_first()).len() && akeys(labels.drop_first())[i] == find_start(
                labels.drop_first(),
            )->Some_0;
        assert(akeys(labels.drop_first())[i] == labels.drop_first()[i].0);
        assert(akeys(labels)[i + 1] == labels[i + 1].0);
    }
}

/// With unique keys, the start vertex that `find_start` returns is
/// labeled `Start`.
pub proof fn lemma_find_start_label(labels: Seq<(Seq<char>, State)>)
    requires
        akeys(labels).no_duplicates(),
        find_start(labels) is Some,
    ensures
        assoc_get(labels, find_start(labels)->Some_0) == Some(State::Start),
    decreases labels.len(),
{
    if labels[0].1 == State::Start {
    } else {
        assert(akeys(labels.drop_first()) =~= akeys(labels).drop_first());
        assert forall|i: int, j: int|
            0 <= i < j < akeys(labels.drop_first()).len() implies akeys(labels.drop_first())[i]
            != akeys(labels.drop_first())[j] by {
            assert(akeys(labels)[i + 1] != akeys(labels)[j + 1]);
        }
        lemma_find_start_label(labels.drop_first());
        let r = find_start(labels.drop_first())->Some_0;
        lemma_assoc_get_is_entry(labels.drop_first(), r);
        let i = choose|i: int|
            0 <= i < labels.drop_first().len() && (#[trigger] labels.drop_first()[i]).0 == r
                && labels.drop_first()[i].1 == assoc_get(labels.drop_first(), r)->Some_0;
        if labels[0].0 == r {
            assert(akeys(labels)[0] == r);
            assert(akeys(labels)[i + 1] == labels[i + 1].0);
            assert(false);
        }
    }
}

/// The mathematical content of a graph: label entries and adjacency
/// entries, both in insertion order, with weights as unbounded integers.
pub ghost struct GraphModel {
    pub labels: Seq<(Seq<char>, State)>,
    pub adj: Seq<(Seq<char>, Seq<(Seq<char>, int)>)>,
}

impl GraphModel {
    /// The labeled vertices, in insertion order.
    pub open spec fn vkeys(self) -> Seq<Seq<char>> {
        akeys(self.labels)
    }

    /// The label of a vertex, if it has one.
    pub open spec fn label_of(self, v: Seq<char>) -> Option<State> {
        assoc_get(self.labels, v)
    }

    /// The outgoing edge list of a vertex; empty if it has none.
    pub open spec fn adj_of(self, v: Seq<char>) -> Seq<(Seq<char>, int)> {
        match assoc_get(self.adj, v) {
            Some(l) => l,
            None => Seq::empty(),
        }
    }

    /// The expansion order of a vertex: its edge targets in insertion order.
    pub open spec fn targets_of(self, v: Seq<char>) -> Seq<Seq<char>> {
        self.adj_of(v).map_values(|e: (Seq<char>, int)| e.0)
    }

    /// The weight of the first edge from `from` to `to`, if any.
    pub open spec fn cost_of(self, from: Seq<char>, to: Seq<char>) -> Option<int> {
        assoc_get(self.adj_of(from), to)
    }

    /// Whether a vertex is tagged `Goal`.
    pub open spec fn is_goal_spec(self, v: Seq<char>) -> bool {
        self.label_of(v) == Some(State::Goal)
    }

    /// The first vertex tagged `Start`, in insertion order.
    pub open spec fn start_of(self) -> Option<Seq<char>> {
        find_start(self.labels)
    }

    /// Well-formedness: keys of both mappings are unique, and every vertex
    /// an edge mentions carries a label.
    pub open spec fn wf(self) -> bool {
        &&& akeys(self.labels).no_duplicates()
        &&& akeys(self.adj).no_duplicates()
        &&& forall|i: int| 0 <= i < self.adj.len() ==> self.vkeys().contains(
            (#[trigger] self.adj[i]).0,
        )
        &&& forall|i: int, j: int|
            0 <= i < self.adj.len() && 0 <= j < self.adj[i].1.len() ==> self.vkeys().contains(
                (#[trigger] self.adj[i].1[j]).0,
            )
    }
}

/// In a well-formed graph, expansion only yields labeled vertices.
pub proof fn lemma_targets_labeled(g: GraphModel, v: Seq<char>)
    requires
        g.wf(),
    ensures
        forall|j: int| 0 <= j < g.targets_of(v).len() ==> g.vkeys().contains(
            #[trigger] g.targets_of(v)[j],
        ),
{
    if assoc_get(g.adj, v) is Some {
        lemma_assoc_get_is_entry(g.adj, v);
        let i = choose|i: int|
            0 <= i < g.adj.len() && (#[trigger] g.adj[i]).0 == v && g.adj[i].1 == assoc_get(
                g.adj,
                v,
            )->Some_0;
        assert forall|j: int| 0 <= j < g.targets_of(v).len() implies g.vkeys().contains(
            #[trigger] g.targets_of(v)[j],
        ) by {
            assert(g.targets_of(v)[j] == g.adj[i].1[j].0);
        }
    }
}

/// The view of the stored label entries.
pub open spec fn labels_view(s: Seq<(String, State)>) -> Seq<(Seq<char>, State)> {
    s.map_values(|p: (String, State)| (p.0@, p.1))
}

/// The view of one stored edge list.
pub open spec fn edges_view(s: Seq<(String, Edge)>) -> Seq<(Seq<char>, int)> {
    s.map_values(|e: (String, Edge)| (e.0@, e.1.0 as int))
}

/// The view of the stored adjacency entries.
pub open spec fn adj_view(s: Seq<(String, Vec<(String, Edge)>)>) -> Seq<
    (Seq<char>, Seq<(Seq<char>, int)>),
> {
    s.map_values(|p: (String, Vec<(String, Edge)>)| (p.0@, edges_view(p.1@)))
}

/// A labeled directed graph with per-vertex ordered adjacency lists.
pub struct Graph {
    vertices: Vec<(String, State)>,
    adjacency: Vec<(String, Vec<(String, Edge)>)>,
}

impl View for Graph {
    type V = GraphModel;

    closed spec fn view(&self) -> GraphModel {
        GraphModel { labels: labels_view(self.vertices@), adj: adj_view(self.adjacency@) }
    }
}

impl Graph {
    /// Well-formedness of the stored graph; every value built through this
    /// interface satisfies it.
    pub open spec fn wf(&self) -> bool {
        self@.wf()
    }

    /// Creates an empty graph.
    pub fn new() -> (r: Graph)
        ensures
            r.wf(),
            r@.labels == Seq::<(Seq<char>, State)>::empty(),
            r@.adj == Seq::<(Seq<char>, Seq<(Seq<char>, int)>)>::empty(),
    {
        let r = Graph { vertices: Vec::new(), adjacency: Vec::new() };
        proof {
            assert(r@.labels =~= Seq::<(Seq<char>, State)>::empty());
            assert(r@.adj =~= Seq::<(Seq<char>, Seq<(Seq<char>, int)>)>::empty());
        }
        r
    }

    /// The index of the entry labeled with `key`, if any.
    fn find_vertex(&self, key: &String) -> (r: Option<usize>)
        ensures
            match r {
                Some(i) => i < self.vertices@.len() && self.vertices@[i as int].0@ == key@
                    && forall|j: int| 0 <= j < i ==> (#[trigger] self.vertices@[j]).0@ != key@,
                None => forall|j: int|
                    0 <= j < self.vertices@.len() ==> (#[trigger] self.vertices@[j]).0@ != key@,
            },
    {
        let mut i: usize = 0;
        while i < self.vertices.len()
            invariant
                i <= self.vertices@.len(),
                forall|j: int| 0 <= j < i ==> (#[trigger] self.vertices@[j]).0@ != key@,
            decreases self.vertices@.len() - i,
        {
            if self.vertices[i].0 == *key {
                return Some(i);
            }
            i = i + 1;
        }
        None
    }

    /// The index of the adjacency entry of `key`, if any.
    fn find_adjacency(&self, key: &String) -> (r: Option<usize>)
        ensures
            match r {
                Some(i) => i < self.adjacency@.len() && self.adjacency@[i as int].0@ == key@
                    && forall|j: int| 0 <= j < i ==> (#[trigger] self.adjacency@[j]).0@ != key@,
                None => forall|j: int|
                    0 <= j < self.adjacency@.len() ==> (#[trigger] self.adjacency@[j]).0@ != key@,
            },
    {
        let mut i: usize = 0;
        while i < self.adjacency.len()
            invariant
                i <= self.adjacency@.len(),
                forall|j: int| 0 <= j < i ==> (#[trigger] self.adjacency@[j]).0@ != key@,
            decreases self.adjacency@.len() - i,
        {
            if self.adjacency[i].0 == *key {
                return Some(i);
            }
            i = i + 1;
        }
        None
    }

    /// Looks up the label of a vertex.
    pub fn get_vertex(&self, vid: &str) -> (r: Option<State>)
        ensures
            r == self@.label_of(vid@),
    {
        let key = vid.to_owned();
        let idx = self.find_vertex(&key);
        proof {
            let s = self@.labels;
            match idx {
                Some(i) => {
                    lemma_assoc_get_prefix_miss(s, key@, i as int);
                    assert(s[i as int].0 == key@);
                    assert(s.skip(i as int)[0] == s[i as int]);
                },
                None => {
                    lemma_assoc_get_prefix_miss(s, key@, s.len() as int);
                    assert(s.skip(s.len() as int) =~= Seq::<(Seq<char>, State)>::empty());
                },
            }
        }
        match idx {
            Some(i) => Some(self.vertices[i].1),
            None => None,
        }
    }
}

/// The example graph's weight bound, computed from its pinned content.
proof fn lemma_example_weight_bound(gm: GraphModel)
    requires
        gm.vkeys() == seq!["A"@, "E"@, "B"@, "F"@, "D"@, "C"@, "G"@],
        gm.adj_of("A"@) == seq![("B"@, 5int), ("F"@, 6int)],
        gm.adj_of("E"@) == seq![("G"@, 3int)],
        gm.adj_of("B"@) == seq![("A"@, 5int), ("D"@, 3int), ("C"@, 7int)],
        gm.adj_of("F"@) == seq![("A"@, 6int), ("D"@, 3int), ("G"@, 5int)],
        gm.adj_of("D"@) == seq![("B"@, 3int), ("F"@, 3int), ("G"@, 4int)],
        gm.adj_of("C"@) == seq![("B"@, 7int)],
        gm.adj_of("G"@) == seq![("D"@, 4int), ("F"@, 5int), ("E"@, 3int)],
    ensures
        crate::ucs::total_weight_bound(gm) == 38,
{
    assert(crate::ucs::max_w(Seq::<(Seq<char>, int)>::empty()) == 0);
    assert(seq![("B"@, 5int), ("F"@, 6int)].drop_last() =~= seq![("B"@, 5int)]);
    assert(seq![("B"@, 5int)].drop_last() =~= Seq::<(Seq<char>, int)>::empty());
    assert(crate::ucs::max_w(seq![("B"@, 5int)]) == 5);
    assert(crate::ucs::max_w(seq![("B"@, 5int), ("F"@, 6int)]) == 6);
    assert(crate::ucs::maxout(gm, "A"@) == 6);
    assert(seq![("G"@, 3int)].drop_last() =~= Seq::<(Seq<char>, int)>::empty());
    assert(crate::ucs::max_w(seq![("G"@, 3int)]) == 3);
    assert(crate::ucs::maxout(gm, "E"@) == 3);
    assert(seq![("A"@, 5int), ("D"@, 3int), ("C"@, 7int)].drop_last() =~= seq![("A"@, 5int), ("D"@, 3int)]);
    assert(seq![("A"@, 5int), ("D"@, 3int)].drop_last() =~= seq![("A"@, 5int)]);
    assert(seq![("A"@, 5int)].drop_last() =~= Seq::<(Seq<char>, int)>::empty());
    assert(crate::ucs::max_w(seq![("A"@, 5int)]) == 5);
    assert(crate::ucs::max_w(seq![("A"@, 5int), ("D"@, 3int)]) == 5);
    assert(crate::ucs::max_w(seq![("A"@, 5int), ("D"@, 3int), ("C"@, 7int)]) == 7);
    assert(crate::ucs::maxout(gm, "B"@) == 7);
    assert(seq![("A"@, 6int), ("D"@, 3int), ("G"@, 5int)].drop_last() =~= seq![("A"@, 6int), ("D"@, 3int)]);
    assert(seq![("A"@, 6int), ("D"@, 3int)].drop_last() =~= seq![("A"@, 6int)]);
    assert(seq![("A"@, 6int)].drop_last() =~= Seq::<(Seq<char>, int)>::empty());
    assert(crate::ucs::max_w(seq![("A"@, 6int)]) == 6);
    assert(crate::ucs::max_w(seq![("A"@, 6int), ("D"@, 3int)]) == 6);
    assert(crate::ucs::max_w(seq![("A"@, 6int), ("D"@, 3int), ("G"@, 5int)]) == 6);
    assert(crate::ucs::maxout(gm, "F"@) == 6);
    assert(seq![("B"@, 3int), ("F"@, 3int), ("G"@, 4int)].drop_last() =~= seq![("B"@, 3int), ("F"@, 3int)]);
    assert(seq![("B"@, 3int), ("F"@, 3int)].drop_last() =~= seq![("B"@, 3int)]);
    assert(seq![("B"@, 3int)].drop_last() =~= Seq::<(Seq<char>, int)>::empty());
    assert(crate::ucs::max_w(seq![("B"@, 3int)]) == 3);
    assert(crate::ucs::max_w(seq![("B"@, 3int), ("F"@, 3int)]) == 3);
    assert(crate::ucs::max_w(seq![("B"@, 3int), ("F"@, 3int), ("G"@, 4int)]) == 4);
    assert(crate::ucs::maxout(gm, "D"@) == 4);
    assert(seq![("B"@, 7int)].drop_last() =~= Seq::<(Seq<char>, int)>::empty());
    assert(crate::ucs::max_w(seq![("B"@, 7int)]) == 7);
    assert(crate::ucs::maxout(gm, "C"@) == 7);
    assert(seq![("D"@, 4int), ("F"@, 5int), ("E"@, 3int)].drop_last() =~= seq![("D"@, 4int), ("F"@, 5int)]);
    assert(seq![("D"@, 4int), ("F"@, 5int)].drop_last() =~= seq![("D"@, 4int)]);
    assert(seq![("D"@, 4int)].drop_last() =~= Seq::<(Seq<char>, int)>::empty());
    assert(crate::ucs::max_w(seq![("D"@, 4int)]) == 4);
    assert(crate::ucs::max_w(seq![("D"@, 4int), ("F"@, 5int)]) == 5);
    assert(crate::ucs::max_w(seq![("D"@, 4int), ("F"@, 5int), ("E"@, 3int)]) == 5);
    assert(crate::ucs::maxout(gm, "G"@) == 5);
    assert(seq!["A"@, "E"@, "B"@, "F"@, "D"@, "C"@, "G"@].drop_last() =~= seq!["A"@, "E"@, "B"@, "F"@, "D"@, "C"@]);
    assert(seq!["A"@, "E"@, "B"@, "F"@, "D"@, "C"@].drop_last() =~= seq!["A"@, "E"@, "B"@, "F"@, "D"@]);
    assert(seq!["A"@, "E"@, "B"@, "F"@, "D"@].drop_last() =~= seq!["A"@, "E"@, "B"@, "F"@]);
    assert(seq!["A"@, "E"@, "B"@, "F"@].drop_last() =~= seq!["A"@, "E"@, "B"@]);
    assert(seq!["A"@, "E"@, "B"@].drop_last() =~= seq!["A"@, "E"@]);
    assert(seq!["A"@, "E"@].drop_last() =~= seq!["A"@]);
    assert(seq!["A"@].drop_last() =~= Seq::<Seq<char>>::empty());
    assert(crate::ucs::sum_maxout(gm, Seq::<Seq<char>>::empty()) == 0);
    assert(crate::ucs::sum_maxout(gm, seq!["A"@]) == 6);
    assert(crate::ucs::sum_maxout(gm, seq!["A"@, "E"@]) == 9);
    assert(crate::ucs::sum_maxout(gm, seq!["A"@, "E"@, "B"@]) == 16);
    assert(crate::ucs::sum_maxout(gm, seq!["A"@, "E"@, "B"@, "F"@]) == 22);
    assert(crate::ucs::sum_maxout(gm, seq!["A"@, "E"@, "B"@, "F"@, "D"@]) == 26);
    assert(crate::ucs::sum_maxout(gm, seq!["A"@, "E"@, "B"@, "F"@, "D"@, "C"@]) == 33);
    assert(crate::ucs::sum_maxout(gm, seq!["A"@, "E"@, "B"@, "F"@, "D"@, "C"@, "G"@]) == 38);
}

/// The example's vertex identifiers are pairwise distinct.
proof fn lemma_example_ids_distinct()
    ensures
        "A"@ != "B"@,
        "A"@ != "C"@,
        "A"@ != "D"@,
        "A"@ != "E"@,
        "A"@ != "F"@,
        "A"@ != "G"@,
        "B"@ != "C"@,
        "B"@ != "D"@,
        "B"@ != "E"@,
        "B"@ != "F"@,
        "B"@ != "G"@,
        "C"@ != "D"@,
        "C"@ != "E"@,
        "C"@ != "F"@,
        "C"@ != "G"@,
        "D"@ != "E"@,
        "D"@ != "F"@,
        "D"@ != "G"@,
        "E"@ != "F"@,
        "E"@ != "G"@,
        "F"@ != "G"@,
{
    reveal_strlit("A");
    reveal_strlit("B");
    reveal_strlit("C");
    reveal_strlit("D");
    reveal_strlit("E");
    reveal_strlit("F");
    reveal_strlit("G");
    assert("A"@ != "B"@) by {
        assert("A"@[0] == 'A' && "B"@[0] == 'B');
    }
    assert("A"@ != "C"@) by {
        assert("A"@[0] == 'A' && "C"@[0] == 'C');
    }
    assert("A"@ != "D"@) by {
        assert("A"@[0] == 'A' && "D"@[0] == 'D');
    }
    assert("A"@ != "E"@) by {
        assert("A"@[0] == 'A' && "E"@[0] == 'E');
    }
    assert("A"@ != "F"@) by {
        assert("A"@[0] == 'A' && "F"@[0] == 'F');
    }
    assert("A"@ != "G"@) by {
        assert("A"@[0] == 'A' && "G"@[0] == 'G');
    }
    assert("B"@ != "C"@) by {
        assert("B"@[0] == 'B' && "C"@[0] == 'C');
    }
    assert("B"@ != "D"@) by {
        assert("B"@[0] == 'B' && "D"@[0] == 'D');
    }
    assert("B"@ != "E"@) by {
        assert("B"@[0] == 'B' && "E"@[0] == 'E');
    }
    assert("B"@ != "F"@) by {
        assert("B"@[0] == 'B' && "F"@[0] == 'F');
    }
    assert("B"@ != "G"@) by {
        assert("B"@[0] == 'B' && "G"@[0] == 'G');
    }
    assert("C"@ != "D"@) by {
        assert("C"@[0] == 'C' && "D"@[0] == 'D');
    }
    assert("C"@ != "E"@) by {
        assert("C"@[0] == 'C' && "E"@[0] == 'E');
    }
    assert("C"@ != "F"@) by {
        assert("C"@[0] == 'C' && "F"@[0] == 'F');
    }
    assert("C"@ != "G"@) by {
        assert("C"@[0] == 'C' && "G"@[0] == 'G');
    }
    assert("D"@ != "E"@) by {
        assert("D"@[0] == 'D' && "E"@[0] == 'E');
    }
    assert("D"@ != "F"@) by {
        assert("D"@[0] == 'D' && "F"@[0] == 'F');
    }
    assert("D"@ != "G"@) by {
        assert("D"@[0] == 'D' && "G"@[0] == 'G');
    }
    assert("E"@ != "F"@) by {
        assert("E"@[0] == 'E' && "F"@[0] == 'F');
    }
    assert("E"@ != "G"@) by {
        assert("E"@[0] == 'E' && "G"@[0] == 'G');
    }
    assert("F"@ != "G"@) by {
        assert("F"@[0] == 'F' && "G"@[0] == 'G');
    }
}

impl Graph {
    /// The well-known seven-vertex example: start `A`, goal `E`, undirected
    /// weighted edges. The contract pins the whole fixture: the start
    /// vertex, every label, every adjacency list with its weights, that
    /// all weights are non-negative, and the weight bound that lets
    /// verified code run uniform-cost search on it.
    #[verifier::rlimit(100)]
    pub fn running_example() -> (r: Graph)
        ensures
            r.wf(),
            r@.start_of() == Some("A"@),
            r@.vkeys() == seq!["A"@, "E"@, "B"@, "F"@, "D"@, "C"@, "G"@],
            r@.label_of("A"@) == Some(State::Start),
            r@.label_of("E"@) == Some(State::Goal),
            r@.label_of("B"@) == Some(State::Neutral),
            r@.label_of("C"@) == Some(State::Neutral),
            r@.label_of("D"@) == Some(State::Neutral),
            r@.label_of("F"@) == Some(State::Neutral),
            r@.label_of("G"@) == Some(State::Neutral),
            r@.adj_of("A"@) == seq![("B"@, 5int), ("F"@, 6int)],
            r@.adj_of("E"@) == seq![("G"@, 3int)],
            r@.adj_of("B"@) == seq![("A"@, 5int), ("D"@, 3int), ("C"@, 7int)],
            r@.adj_of("F"@) == seq![("A"@, 6int), ("D"@, 3int), ("G"@, 5int)],
            r@.adj_of("D"@) == seq![("B"@, 3int), ("F"@, 3int), ("G"@, 4int)],
            r@.adj_of("C"@) == seq![("B"@, 7int)],
            r@.adj_of("G"@) == seq![("D"@, 4int), ("F"@, 5int), ("E"@, 3int)],
            crate::ucs::weights_ok(r@),
            crate::ucs::total_weight_bound(r@) == 38,
    {
        let mut g = Graph::new();
        proof {
            lemma_example_ids_distinct();
            assert(g@.labels.len() == 0);
            assert(g@.adj.len() == 0);
            assert(crate::ucs::weights_ok(g@));
        }
        g.push_vertex("A", State::Start);
        proof {
            lemma_put_absent(Seq::<(Seq<char>, State)>::empty(), "A"@, State::Start);
            assert(g@.labels =~= seq![("A"@, State::Start)]);
        }
        g.push_vertex("E", State::Goal);
        proof {
            assert(forall|j: int| 0 <= j < seq![("A"@, State::Start)].len() ==> (#[trigger] seq![("A"@, State::Start)][j]).0 != "E"@);
            lemma_put_absent(seq![("A"@, State::Start)], "E"@, State::Goal);
            assert(g@.labels =~= seq![("A"@, State::Start), ("E"@, State::Goal)]);
            assert(g@.labels.drop_first() =~= seq![("E"@, State::Goal)]);
            assert(g@.labels.drop_first().drop_first() =~= Seq::<(Seq<char>, State)>::empty());
            assert(g@.start_of() == Some("A"@));
            assert(g@.vkeys() =~= seq!["A"@, "E"@]);
            assert(g@.label_of("A"@) == Some(State::Start));
            assert(assoc_get(g@.labels.drop_first(), "E"@) == Some(State::Goal));
            assert(g@.label_of("E"@) == Some(State::Goal));
            assert(assoc_get(g@.labels.drop_first().drop_first(), "B"@) is None);
            assert(assoc_get(g@.labels.drop_first(), "B"@) is None);
            assert(g@.label_of("B"@) is None);
            assert(assoc_get(g@.labels.drop_first().drop_first(), "C"@) is None);
            assert(assoc_get(g@.labels.drop_first(), "C"@) is None);
            assert(g@.label_of("C"@) is None);
            assert(assoc_get(g@.labels.drop_first().drop_first(), "D"@) is None);
            assert(assoc_get(g@.labels.drop_first(), "D"@) is None);
            assert(g@.label_of("D"@) is None);
            assert(assoc_get(g@.labels.drop_first().drop_first(), "F"@) is None);
            assert(assoc_get(g@.labels.drop_first(), "F"@) is None);
            assert(g@.label_of("F"@) is None);
            assert(assoc_get(g@.labels.drop_first().drop_first(), "G"@) is None);
            assert(assoc_get(g@.labels.drop_first(), "G"@) is None);
            assert(g@.label_of("G"@) is None);
            assert(g@.adj.len() == 0);
            assert(g@.adj_of("A"@) =~= Seq::<(Seq<char>, int)>::empty());
            assert(g@.adj_of("B"@) =~= Seq::<(Seq<char>, int)>::empty());
            assert(g@.adj_of("C"@) =~= Seq::<(Seq<char>, int)>::empty());
            assert(g@.adj_of("D"@) =~= Seq::<(Seq<char>, int)>::empty());
            assert(g@.adj_of("E"@) =~= Seq::<(Seq<char>, int)>::empty());
            assert(g@.adj_of("F"@) =~= Seq::<(Seq<char>, int)>::empty());
            assert(g@.adj_of("G"@) =~= Seq::<(Seq<char>, int)>::empty());
            assert(crate::ucs::weights_ok(g@));
        }
        g.push_undirected_edge("A", "B", Edge(5));
        proof {
            assert(crate::ucs::weights_ok(g@));
            assert(g@.vkeys() =~= seq!["A"@, "E"@, "B"@]);
            assert(g@.label_of("A"@) == Some(State::Start));
            assert(g@.label_of("B"@) == Some(State::Neutral));
            assert(g@.label_of("C"@) is None);
            assert(g@.label_of("D"@) is None);
            assert(g@.label_of("E"@) == Some(State::Goal));
            assert(g@.label_of("F"@) is None);
            assert(g@.label_of("G"@) is None);
            assert(g@.adj_of("A"@) =~= seq![("B"@, 5int)]);
            assert(g@.adj_of("B"@) =~= seq![("A"@, 5int)]);
        }
        g.push_undirected_edge("A", "F", Edge(6));
        proof {
            assert(crate::ucs::weights_ok(g@));
            assert(g@.vkeys() =~= seq!["A"@, "E"@, "B"@, "F"@]);
            assert(g@.label_of("A"@) == Some(State::Start));
            assert(g@.label_of("B"@) == Some(State::Neutral));
            assert(g@.label_of("C"@) is None);
            assert(g@.label_of("D"@) is None);
            assert(g@.label_of("E"@) == Some(State::Goal));
            assert(g@.label_of("F"@) == Some(State::Neutral));
            assert(g@.label_of("G"@) is None);
            assert(g@.adj_of("A"@) =~= seq![("B"@, 5int), ("F"@, 6int)]);
            assert(g@.adj_of("F"@) =~= seq![("A"@, 6int)]);
        }
        g.push_undirected_edge("B", "D", Edge(3));
        proof {
            assert(crate::ucs::weights_ok(g@));
            assert(g@.vkeys() =~= seq!["A"@, "E"@, "B"@, "F"@, "D"@]);
            assert(g@.label_of("A"@) == Some(State::Start));
            assert(g@.label_of("B"@) == Some(State::Neutral));
            assert(g@.label_of("C"@) is None);
            assert(g@.label_of("D"@) == Some(State::Neutral));
            assert(g@.label_of("E"@) == Some(State::Goal));
            assert(g@.label_of("F"@) == Some(State::Neutral));
            assert(g@.label_of("G"@) is None);
            assert(g@.adj_of("B"@) =~= seq![("A"@, 5int), ("D"@, 3int)]);
            assert(g@.adj_of("D"@) =~= seq![("B"@, 3int)]);
        }
        g.push_undirected_edge("B", "C", Edge(7));
        proof {
            assert(crate::ucs::weights_ok(g@));
            assert(g@.vkeys() =~= seq!["A"@, "E"@, "B"@, "F"@, "D"@, "C"@]);
            assert(g@.label_of("A"@) == Some(State::Start));
            assert(g@.label_of("B"@) == Some(State::Neutral));
            assert(g@.label_of("C"@) == Some(State::Neutral));
            assert(g@.label_of("D"@) == Some(State::Neutral));
            assert(g@.label_of("E"@) == Some(State::Goal));
            assert(g@.label_of("F"@) == Some(State::Neutral));
            assert(g@.label_of("G"@) is None);
            assert(g@.adj_of("B"@) =~= seq![("A"@, 5int), ("D"@, 3int), ("C"@, 7int)]);
            assert(g@.adj_of("C"@) =~= seq![("B"@, 7int)]);
        }
        g.push_undirected_edge("D", "F", Edge(3));
        proof {
            assert(crate::ucs::weights_ok(g@));
            assert(g@.vkeys() =~= seq!["A"@, "E"@, "B"@, "F"@, "D"@, "C"@]);
            assert(g@.label_of("A"@) == Some(State::Start));
            assert(g@.label_of("B"@) == Some(State::Neutral));
            assert(g@.label_of("C"@) == Some(State::Neutral));
            assert(g@.label_of("D"@) == Some(State::Neutral));
            assert(g@.label_of("E"@) == Some(State::Goal));
            assert(g@.label_of("F"@) == Some(State::Neutral));
            assert(g@.label_of("G"@) is None);
            assert(g@.adj_of("D"@) =~= seq![("B"@, 3int), ("F"@, 3int)]);
            assert(g@.adj_of("F"@) =~= seq![("A"@, 6int), ("D"@, 3int)]);
        }
        g.push_undirected_edge("D", "G", Edge(4));
        proof {
            assert(crate::ucs::weights_ok(g@));
            assert(g@.vkeys() =~= seq!["A"@, "E"@, "B"@, "F"@, "D"@, "C"@, "G"@]);
            assert(g@.label_of("A"@) == Some(State::Start));
            assert(g@.label_of("B"@) == Some(State::Neutral));
            assert(g@.label_of("C"@) == Some(State::Neutral));
            assert(g@.label_of("D"@) == Some(State::Neutral));
            assert(g@.label_of("E"@) == Some(State::Goal));
            assert(g@.label_of("F"@) == Some(State::Neutral));
            assert(g@.label_of("G"@) == Some(State::Neutral));
            assert(g@.adj_of("D"@) =~= seq![("B"@, 3int), ("F"@, 3int), ("G"@, 4int)]);
            assert(g@.adj_of("G"@) =~= seq![("D"@, 4int)]);
        }
        g.push_undirected_edge("F", "G", Edge(5));
        proof {
            assert(crate::ucs::weights_ok(g@));
            assert(g@.vkeys() =~= seq!["A"@, "E"@, "B"@, "F"@, "D"@, "C"@, "G"@]);
            assert(g@.label_of("A"@) == Some(State::Start));
            assert(g@.label_of("B"@) == Some(State::Neutral));
            assert(g@.label_of("C"@) == Some(State::Neutral));
            assert(g@.label_of("D"@) == Some(State::Neutral));
            assert(g@.label_of("E"@) == Some(State::Goal));
            assert(g@.label_of("F"@) == Some(State::Neutral));
            assert(g@.label_of("G"@) == Some(State::Neutral));
            assert(g@.adj_of("F"@) =~= seq![("A"@, 6int), ("D"@, 3int), ("G"@, 5int)]);
            assert(g@.adj_of("G"@) =~= seq![("D"@, 4int), ("F"@, 5int)]);
        }
        g.push_undirected_edge("G", "E", Edge(3));
        proof {
            assert(crate::ucs::weights_ok(g@));
            assert(g@.vkeys() =~= seq!["A"@, "E"@, "B"@, "F"@, "D"@, "C"@, "G"@]);
            assert(g@.label_of("A"@) == Some(State::Start));
            assert(g@.label_of("B"@) == Some(State::Neutral));
            assert(g@.label_of("C"@) == Some(State::Neutral));
            assert(g@.label_of("D"@) == Some(State::Neutral));
            assert(g@.label_of("E"@) == Some(State::Goal));
            assert(g@.label_of("F"@) == Some(State::Neutral));
            assert(g@.label_of("G"@) == Some(State::Neutral));
            assert(g@.adj_of("G"@) =~= seq![("D"@, 4int), ("F"@, 5int), ("E"@, 3int)]);
            assert(g@.adj_of("E"@) =~= seq![("G"@, 3int)]);
        }
        proof {
            assert(g@.adj_of("A"@) =~= seq![("B"@, 5int), ("F"@, 6int)]);
            assert(g@.adj_of("B"@) =~= seq![("A"@, 5int), ("D"@, 3int), ("C"@, 7int)]);
            assert(g@.adj_of("C"@) =~= seq![("B"@, 7int)]);
            assert(g@.adj_of("D"@) =~= seq![("B"@, 3int), ("F"@, 3int), ("G"@, 4int)]);
            assert(g@.adj_of("E"@) =~= seq![("G"@, 3int)]);
            assert(g@.adj_of("F"@) =~= seq![("A"@, 6int), ("D"@, 3int), ("G"@, 5int)]);
            assert(g@.adj_of("G"@) =~= seq![("D"@, 4int), ("F"@, 5int), ("E"@, 3int)]);
            lemma_example_weight_bound(g@);
        }
        g
    }

    /// Whether a vertex is tagged `Goal`.
    pub fn is_goal(&self, vid: &str) -> (r: bool)
        ensures
            r == self@.is_goal_spec(vid@),
    {
        match self.get_vertex(vid) {
            Some(State::Goal) => true,
            _ => false,
        }
    }

    /// The first vertex tagged `Start`, in insertion order, if any.
    pub fn get_start_node(&self) -> (r: Option<String>)
        ensures
            match r {
                Some(s) => self@.start_of() == Some(s@),
                None => self@.start_of() is None,
            },
    {
        let mut i: usize = 0;
        proof {
            assert(self@.labels.skip(0) =~= self@.labels);
        }
        while i < self.vertices.len()
            invariant
                i <= self.vertices@.len(),
                self@.labels.len() == self.vertices@.len(),
                find_start(self@.labels) == find_start(self@.labels.skip(i as int)),
            decreases self.vertices@.len() - i,
        {
            proof {
                assert(self@.labels[i as int] == (self.vertices@[i as int].0@,
                self.vertices@[i as int].1));
                assert(self@.labels.skip(i as int)[0] == self@.labels[i as int]);
            }
            if self.vertices[i].1 == State::Start {
                return Some(self.vertices[i].0.clone());
            }
            proof {
                crate::vid::lemma_skip_succ(self@.labels, i as int);
            }
            i = i + 1;
        }
        proof {
            assert(self@.labels.skip(i as int) =~= Seq::<(Seq<char>, State)>::empty());
        }
        None
    }

    /// The weight of the first edge from `from_vid` to `to_vid`, if any.
    pub fn get_cost_of(&self, from_vid: &str, to_vid: &str) -> (r: Option<i32>)
        ensures
            match r {
                Some(c) => self@.cost_of(from_vid@, to_vid@) == Some(c as int),
                None => self@.cost_of(from_vid@, to_vid@) is None,
            },
    {
        let fkey = from_vid.to_owned();
        let tkey = to_vid.to_owned();
        let idx = self.find_adjacency(&fkey);
        match idx {
            None => {
                proof {
                    lemma_assoc_get_prefix_miss(self@.adj, fkey@, self@.adj.len() as int);
                    assert(self@.adj.skip(self@.adj.len() as int) =~= Seq::<
                        (Seq<char>, Seq<(Seq<char>, int)>),
                    >::empty());
                    assert(assoc_get(Seq::<(Seq<char>, int)>::empty(), tkey@) is None);
                }
                None
            },
            Some(i) => {
                proof {
                    lemma_assoc_get_prefix_miss(self@.adj, fkey@, i as int);
                    assert(self@.adj.skip(i as int)[0] == self@.adj[i as int]);
                    assert(self@.adj_of(fkey@) == edges_view(self.adjacency@[i as int].1@));
                }
                let list = &self.adjacency[i].1;
                let ghost ev = edges_view(list@);
                let mut j: usize = 0;
                proof {
                    assert(ev.skip(0) =~= ev);
                }
                while j < list.len()
                    invariant
                        j <= list@.len(),
                        ev == edges_view(list@),
                        ev.len() == list@.len(),
                        self@.adj_of(from_vid@) == ev,
                        tkey@ == to_vid@,
                        assoc_get(ev, tkey@) == assoc_get(ev.skip(j as int), tkey@),
                    decreases list@.len() - j,
                {
                    proof {
                        assert(ev[j as int] == (list@[j as int].0@, list@[j as int].1.0 as int));
                        assert(ev.skip(j as int)[0] == ev[j as int]);
                    }
                    if list[j].0 == tkey {
                        proof {
                            assert(ev.skip(j as int)[0].0 == tkey@);
                            assert(assoc_get(ev.skip(j as int), tkey@) == Some(ev[j as int].1));
                            assert(ev[j as int].1 == list@[j as int].1.0 as int);
                        }
                        return Some(list[j].1.0);
                    }
                    proof {
                        crate::vid::lemma_skip_succ(ev, j as int);
                    }
                    j = j + 1;
                }
                proof {
                    assert(ev.skip(list@.len() as int) =~= Seq::<(Seq<char>, int)>::empty());
                }
                None
            },
        }
    }

    /// The expansion of a vertex: its edge targets, in insertion order.
    pub fn expand(&self, vid: &str) -> (r: Vec<String>)
        ensures
            vids(r@) == self@.targets_of(vid@),
    {
        let key = vid.to_owned();
        let idx = self.find_adjacency(&key);
        match idx {
            None => {
                proof {
                    lemma_assoc_get_prefix_miss(self@.adj, key@, self@.adj.len() as int);
                    assert(self@.adj.skip(self@.adj.len() as int) =~= Seq::<
                        (Seq<char>, Seq<(Seq<char>, int)>),
                    >::empty());
                    assert(vids(Seq::<String>::empty()) =~= self@.targets_of(key@));
                }
                Vec::new()
            },
            Some(i) => {
                proof {
                    lemma_assoc_get_prefix_miss(self@.adj, key@, i as int);
                    assert(self@.adj.skip(i as int)[0] == self@.adj[i as int]);
                    assert(self@.adj_of(key@) == edges_view(self.adjacency@[i as int].1@));
                }
                let list = &self.adjacency[i].1;
                let ghost targets = self@.targets_of(key@);
                let mut out: Vec<String> = Vec::new();
                let mut j: usize = 0;
                while j < list.len()
                    invariant
                        j <= list@.len(),
                        targets == self@.targets_of(key@),
                        targets.len() == list@.len(),
                        self@.adj_of(key@) == edges_view(list@),
                        vids(out@) =~= targets.take(j as int),
                    decreases list@.len() - j,
                {
                    proof {
                        assert(targets[j as int] == edges_view(list@)[j as int].0);
                        assert(edges_view(list@)[j as int].0 == list@[j as int].0@);
                    }
                    let ghost pre_out = out@;
                    let next = list[j].0.clone();
                    proof {
                        assert(next@ == list@[j as int].0@);
                    }
                    out.push(next);
                    proof {
                        assert(vids(pre_out).len() == pre_out.len());
                        assert(vids(pre_out).len() == j as int);
                        assert(out@[j as int] == next);
                        assert(out@[j as int]@ == targets[j as int]);
                        assert forall|k: int| 0 <= k < j + 1 implies vids(out@)[k] == targets.take(
                            j as int + 1,
                        )[k] by {
                            if k < j {
                                assert(vids(pre_out)[k] == targets.take(j as int)[k]);
                            }
                        }
                        assert(vids(out@) =~= targets.take(j as int + 1));
                    }
                    j = j + 1;
                }
                proof {
                    assert(targets.take(targets.len() as int) =~= targets);
                }
                out
            },
        }
    }
}

/// Label entries after making sure a vertex has a label: an unlabeled
/// vertex is appended with the default `Neutral` label.
pub open spec fn ensure_label(s: Seq<(Seq<char>, State)>, k: Seq<char>) -> Seq<
    (Seq<char>, State),
> {
    if assoc_get(s, k) is Some {
        s
    } else {
        s.push((k, State::Neutral))
    }
}

/// Adjacency entries after appending one edge: the edge is appended to the
/// source's list, which is created at the end if it does not exist.
pub open spec fn add_adj(
    s: Seq<(Seq<char>, Seq<(Seq<char>, int)>)>,
    from: Seq<char>,
    to: Seq<char>,
    w: int,
) -> Seq<(Seq<char>, Seq<(Seq<char>, int)>)>
    decreases s.len(),
{
    if s.len() == 0 {
        seq![(from, seq![(to, w)])]
    } else if s[0].0 == from {
        seq![(s[0].0, s[0].1.push((to, w)))] + s.drop_first()
    } else {
        seq![s[0]] + add_adj(s.drop_first(), from, to, w)
    }
}

/// A found source key has its list extended in place.
pub proof fn lemma_add_adj_found(
    s: Seq<(Seq<char>, Seq<(Seq<char>, int)>)>,
    from: Seq<char>,
    to: Seq<char>,
    w: int,
    i: int,
)
    requires
        0 <= i < s.len(),
        forall|j: int| 0 <= j < i ==> (#[trigger] s[j]).0 != from,
        s[i].0 == from,
    ensures
        add_adj(s, from, to, w) == s.update(i, (s[i].0, s[i].1.push((to, w)))),
    decreases i,
{
    if i == 0 {
        assert(add_adj(s, from, to, w) =~= s.update(0, (s[0].0, s[0].1.push((to, w)))));
    } else {
        assert(s[0].0 != from);
        lemma_add_adj_found(s.drop_first(), from, to, w, i - 1);
        assert(s.drop_first()[i - 1] == s[i]);
        assert(seq![s[0]] + s.drop_first().update(i - 1, (s[i].0, s[i].1.push((to, w)))) =~= s
            .update(i, (s[i].0, s[i].1.push((to, w)))));
    }
}

/// An absent source key gets a fresh one-edge list at the end.
pub proof fn lemma_add_adj_absent(
    s: Seq<(Seq<char>, Seq<(Seq<char>, int)>)>,
    from: Seq<char>,
    to: Seq<char>,
    w: int,
)
    requires
        forall|j: int| 0 <= j < s.len() ==> (#[trigger] s[j]).0 != from,
    ensures
        add_adj(s, from, to, w) == s.push((from, seq![(to, w)])),
    decreases s.len(),
{
    if s.len() == 0 {
        assert(add_adj(s, from, to, w) =~= s.push((from, seq![(to, w)])));
    } else {
        lemma_add_adj_absent(s.drop_first(), from, to, w);
        assert(seq![s[0]] + s.drop_first().push((from, seq![(to, w)])) =~= s.push(
            (from, seq![(to, w)]),
        ));
    }
}

/// How a lookup behaves after appending one entry.
pub proof fn lemma_assoc_get_push<K, V>(s: Seq<(K, V)>, e: (K, V), k: K)
    ensures
        assoc_get(s.push(e), k) == (if assoc_get(s, k) is Some {
            assoc_get(s, k)
        } else if e.0 == k {
            Some(e.1)
        } else {
            None::<V>
        }),
    decreases s.len(),
{
    if s.len() == 0 {
        assert(s.push(e)[0] == e);
        assert(s.push(e).drop_first() =~= Seq::<(K, V)>::empty());
        if e.0 == k {
            assert(assoc_get(s.push(e), k) == Some(e.1));
        } else {
            assert(assoc_get(s.push(e), k) == assoc_get(s.push(e).drop_first(), k));
            assert(assoc_get(s.push(e), k) == None::<V>);
        }
        assert(assoc_get(s, k) is None);
    } else {
        assert(s.push(e)[0] == s[0]);
        assert(s.push(e).drop_first() =~= s.drop_first().push(e));
        lemma_assoc_get_push(s.drop_first(), e, k);
        if s[0].0 == k {
            assert(assoc_get(s.push(e), k) == Some(s[0].1));
            assert(assoc_get(s, k) == Some(s[0].1));
        } else {
            assert(assoc_get(s.push(e), k) == assoc_get(s.drop_first().push(e), k));
            assert(assoc_get(s, k) == assoc_get(s.drop_first(), k));
        }
    }
}

/// Appending an entry with a fresh key keeps the key sequence duplicate
/// free and keeps every old key present.
pub proof fn lemma_push_key_fresh<K, V>(s: Seq<(K, V)>, e: (K, V))
    requires
        akeys(s).no_duplicates(),
        forall|j: int| 0 <= j < s.len() ==> (#[trigger] s[j]).0 != e.0,
    ensures
        akeys(s.push(e)) == akeys(s).push(e.0),
        akeys(s.push(e)).no_duplicates(),
        forall|x: K| akeys(s).contains(x) ==> #[trigger] akeys(s.push(e)).contains(x),
        akeys(s.push(e)).contains(e.0),
{
    assert(akeys(s.push(e)) =~= akeys(s).push(e.0));
    let n = akeys(s.push(e));
    assert forall|i: int, j: int| 0 <= i < j < n.len() implies n[i] != n[j] by {
        if j == n.len() - 1 {
            assert(n[i] == s[i].0);
        } else {
            assert(akeys(s)[i] != akeys(s)[j]);
        }
    }
    assert forall|x: K| akeys(s).contains(x) implies #[trigger] akeys(s.push(e)).contains(x) by {
        let i = choose|i: int| 0 <= i < akeys(s).len() && akeys(s)[i] == x;
        assert(n[i] == x);
    }
    assert(n[n.len() - 1] == e.0);
}

/// Appending a `Neutral` label never changes which vertex is the first
/// `Start`-tagged one.
pub proof fn lemma_find_start_push_neutral(l: Seq<(Seq<char>, State)>, k: Seq<char>)
    ensures
        find_start(l.push((k, State::Neutral))) == find_start(l),
    decreases l.len(),
{
    if l.len() == 0 {
        assert(l.push((k, State::Neutral))[0] == (k, State::Neutral));
        assert(l.push((k, State::Neutral)).drop_first() =~= Seq::<(Seq<char>, State)>::empty());
    } else {
        assert(l.push((k, State::Neutral))[0] == l[0]);
        assert(l.push((k, State::Neutral)).drop_first() =~= l.drop_first().push(
            (k, State::Neutral),
        ));
        lemma_find_start_push_neutral(l.drop_first(), k);
    }
}

/// Making sure a vertex has a label never changes the start vertex.
pub proof fn lemma_ensure_label_start(l: Seq<(Seq<char>, State)>, k: Seq<char>)
    ensures
        find_start(ensure_label(l, k)) == find_start(l),
{
    if assoc_get(l, k) is None {
        lemma_find_start_push_neutral(l, k);
    }
}

/// Making sure a vertex has a label keeps the key sequence, or appends the
/// new vertex.
pub proof fn lemma_ensure_label_vkeys(l: Seq<(Seq<char>, State)>, k: Seq<char>)
    ensures
        akeys(ensure_label(l, k)) == (if assoc_get(l, k) is Some {
            akeys(l)
        } else {
            akeys(l).push(k)
        }),
{
    if assoc_get(l, k) is None {
        assert(akeys(l.push((k, State::Neutral))) =~= akeys(l).push(k));
    }
}

/// How appending one edge changes each vertex's edge list: the source's
/// list grows by the new edge (from nothing, if it had none); every other
/// list is untouched.
pub proof fn lemma_add_adj_get(
    a: Seq<(Seq<char>, Seq<(Seq<char>, int)>)>,
    from: Seq<char>,
    to: Seq<char>,
    w: int,
    k: Seq<char>,
)
    ensures
        assoc_get(add_adj(a, from, to, w), k) == (if k == from {
            match assoc_get(a, from) {
                Some(l) => Some(l.push((to, w))),
                None => Some(seq![(to, w)]),
            }
        } else {
            assoc_get(a, k)
        }),
    decreases a.len(),
{
    let out = add_adj(a, from, to, w);
    if a.len() == 0 {
        assert(out[0] == (from, seq![(to, w)]));
        assert(out.drop_first() =~= Seq::<(Seq<char>, Seq<(Seq<char>, int)>)>::empty());
    } else if a[0].0 == from {
        assert(out[0] == (a[0].0, a[0].1.push((to, w))));
        assert(out.drop_first() =~= a.drop_first());
    } else {
        assert(out[0] == a[0]);
        assert(out.drop_first() =~= add_adj(a.drop_first(), from, to, w));
        lemma_add_adj_get(a.drop_first(), from, to, w, k);
    }
}

/// A failed lookup means no entry holds the key.
pub proof fn lemma_assoc_get_none_all<K, V>(s: Seq<(K, V)>, k: K)
    requires
        assoc_get(s, k) is None,
    ensures
        forall|j: int| 0 <= j < s.len() ==> (#[trigger] s[j]).0 != k,
{
    lemma_assoc_get_some_iff(s, k);
    assert forall|j: int| 0 <= j < s.len() implies (#[trigger] s[j]).0 != k by {
        if s[j].0 == k {
            assert(akeys(s)[j] == k);
        }
    }
}

/// How a lookup behaves after making sure some vertex has a label.
pub proof fn lemma_ensure_label_get(s: Seq<(Seq<char>, State)>, k: Seq<char>, k2: Seq<char>)
    ensures
        assoc_get(ensure_label(s, k), k2) == (if assoc_get(s, k2) is Some {
            assoc_get(s, k2)
        } else if k2 == k {
            Some(State::Neutral)
        } else {
            None::<State>
        }),
{
    if assoc_get(s, k) is None {
        lemma_assoc_get_push(s, (k, State::Neutral), k2);
    }
}

impl Graph {
    /// Inserts or overwrites the label of a vertex. An existing vertex
    /// keeps its position in the insertion order; a new one is appended.
    pub fn push_vertex(&mut self, vid: &str, vertex: State)
        requires
            old(self).wf(),
        ensures
            final(self).wf(),
            final(self)@.labels == put(old(self)@.labels, vid@, vertex),
            final(self)@.adj == old(self)@.adj,
    {
        let key = vid.to_owned();
        let ghost kv = key@;
        let ghost pre = self.vertices@;
        let ghost lv = labels_view(pre);
        let idx = self.find_vertex(&key);
        proof {
            assert(forall|j: int| 0 <= j < lv.len() ==> (#[trigger] lv[j]).0 == pre[j].0@);
        }
        match idx {
            Some(i) => {
                self.vertices.remove(i);
                self.vertices.insert(i, (key, vertex));
                proof {
                    assert(labels_view(self.vertices@) =~= lv.update(i as int, (kv, vertex)));
                    lemma_put_found(lv, kv, vertex, i as int);
                    assert(akeys(lv.update(i as int, (kv, vertex))) =~= akeys(lv));
                    assert(adj_view(self.adjacency@) == old(self)@.adj);
                }
            },
            None => {
                self.vertices.push((key, vertex));
                proof {
                    assert(labels_view(self.vertices@) =~= lv.push((kv, vertex)));
                    lemma_put_absent(lv, kv, vertex);
                    lemma_push_key_fresh(lv, (kv, vertex));
                    assert(adj_view(self.adjacency@) == old(self)@.adj);
                    assert forall|i: int| 0 <= i < self@.adj.len() implies self@.vkeys().contains(
                        (#[trigger] self@.adj[i]).0,
                    ) by {
                        assert(old(self)@.vkeys().contains(old(self)@.adj[i].0));
                    }
                    assert forall|i: int, j: int|
                        0 <= i < self@.adj.len() && 0 <= j < self@.adj[i].1.len() implies self@.vkeys().contains(
                        (#[trigger] self@.adj[i].1[j]).0,
                    ) by {
                        assert(old(self)@.vkeys().contains(old(self)@.adj[i].1[j].0));
                    }
                }
            },
        }
    }

    /// Appends a directed edge. An endpoint without a label is auto-created
    /// with the default `Neutral` label, so edges never dangle.
    pub fn push_edge(&mut self, from: &str, to: &str, edge: Edge)
        requires
            old(self).wf(),
        ensures
            final(self).wf(),
            final(self)@.labels == ensure_label(ensure_label(old(self)@.labels, from@), to@),
            final(self)@.adj == add_adj(old(self)@.adj, from@, to@, edge.0 as int),
            final(self)@.start_of() == old(self)@.start_of(),
            final(self)@.adj_of(from@) == old(self)@.adj_of(from@).push((to@, edge.0 as int)),
            forall|v: Seq<char>|
                v != from@ ==> (#[trigger] final(self)@.adj_of(v)) == old(self)@.adj_of(v),
            forall|v: Seq<char>|
                (#[trigger] final(self)@.label_of(v)) == (if old(self)@.label_of(v) is Some {
                    old(self)@.label_of(v)
                } else if v == from@ || v == to@ {
                    Some(State::Neutral)
                } else {
                    None::<State>
                }),
            final(self)@.vkeys() == ({
                let k1 = if old(self)@.label_of(from@) is Some {
                    old(self)@.vkeys()
                } else {
                    old(self)@.vkeys().push(from@)
                };
                if old(self)@.label_of(to@) is Some || to@ == from@ {
                    k1
                } else {
                    k1.push(to@)
                }
            }),
            (0 <= edge.0 && crate::ucs::weights_ok(old(self)@)) ==> crate::ucs::weights_ok(final(self)@),
    {
        let ghost l0 = self@.labels;
        let ghost w = edge.0 as int;
        if self.get_vertex(from).is_none() {
            proof {
                lemma_assoc_get_none_all(l0, from@);
                lemma_put_absent(l0, from@, State::Neutral);
            }
            self.push_vertex(from, State::Neutral);
        }
        proof {
            assert(self@.labels == ensure_label(l0, from@));
        }
        let ghost l1 = self@.labels;
        if self.get_vertex(to).is_none() {
            proof {
                lemma_assoc_get_none_all(l1, to@);
                lemma_put_absent(l1, to@, State::Neutral);
            }
            self.push_vertex(to, State::Neutral);
        }
        proof {
            assert(self@.labels == ensure_label(l1, to@));
        }
        let ghost l2 = self@.labels;
        proof {
            lemma_ensure_label_get(l0, from@, from@);
            lemma_ensure_label_get(l1, to@, from@);
            lemma_ensure_label_get(l1, to@, to@);
            assert(assoc_get(l2, from@) is Some);
            assert(assoc_get(l2, to@) is Some);
            lemma_assoc_get_some_iff(l2, from@);
            lemma_assoc_get_some_iff(l2, to@);
        }
        let fkey = from.to_owned();
        let tkey = to.to_owned();
        let ghost a0 = self@.adj;
        let ghost mid = self@;
        let idx = self.find_adjacency(&fkey);
        proof {
            assert(forall|j: int|
                0 <= j < a0.len() ==> (#[trigger] a0[j]).0 == self.adjacency@[j].0@);
        }
        match idx {
            Some(i) => {
                let ghost pre = self.adjacency@;
                let entry = self.adjacency.remove(i);
                let (ekey, mut elist) = entry;
                elist.push((tkey, edge));
                self.adjacency.insert(i, (ekey, elist));
                proof {
                    assert(edges_view(elist@) =~= a0[i as int].1.push((to@, w)));
                    assert(adj_view(self.adjacency@) =~= a0.update(
                        i as int,
                        (a0[i as int].0, a0[i as int].1.push((to@, w))),
                    ));
                    lemma_add_adj_found(a0, from@, to@, w, i as int);
                    assert(akeys(self@.adj) =~= akeys(a0));
                    assert(self@.labels == l2);
                    assert forall|x: int, y: int|
                        0 <= x < self@.adj.len() && 0 <= y < self@.adj[x].1.len() implies self@
                        .vkeys().contains((#[trigger] self@.adj[x].1[y]).0) by {
                        if x == i as int && y == self@.adj[x].1.len() - 1 {
                            assert(self@.adj[x].1[y].0 == to@);
                        } else {
                            assert(self@.adj[x].1[y] == mid.adj[x].1[y]);
                            assert(mid.vkeys().contains(mid.adj[x].1[y].0));
                        }
                    }
                }
            },
            None => {
                let mut elist: Vec<(String, Edge)> = Vec::new();
                elist.push((tkey, edge));
                self.adjacency.push((fkey, elist));
                proof {
                    assert(edges_view(elist@) =~= seq![(to@, w)]);
                    assert(adj_view(self.adjacency@) =~= a0.push((from@, seq![(to@, w)])));
                    lemma_add_adj_absent(a0, from@, to@, w);
                    lemma_push_key_fresh(a0, (from@, seq![(to@, w)]));
                    assert(self@.labels == l2);
                    assert forall|x: int|
                        0 <= x < self@.adj.len() implies self@.vkeys().contains(
                        (#[trigger] self@.adj[x]).0,
                    ) by {
                        if x < self@.adj.len() - 1 {
                            assert(self@.adj[x] == mid.adj[x]);
                            assert(mid.vkeys().contains(mid.adj[x].0));
                        } else {
                            assert(self@.adj[x].0 == from@);
                        }
                    }
                    assert forall|x: int, y: int|
                        0 <= x < self@.adj.len() && 0 <= y < self@.adj[x].1.len() implies self@
                        .vkeys().contains((#[trigger] self@.adj[x].1[y]).0) by {
                        if x < self@.adj.len() - 1 {
                            assert(self@.adj[x].1[y] == mid.adj[x].1[y]);
                            assert(mid.vkeys().contains(mid.adj[x].1[y].0));
                        } else {
                            assert(self@.adj[x].1[y].0 == to@);
                        }
                    }
                }
            },
        }
        proof {
            assert(self@.adj == add_adj(a0, from@, to@, w));
            lemma_ensure_label_start(l0, from@);
            lemma_ensure_label_start(l1, to@);
            assert forall|v: Seq<char>| v != from@ implies (#[trigger] self@.adj_of(v)) == old(
                self,
            )@.adj_of(v) by {
                lemma_add_adj_get(a0, from@, to@, w, v);
            }
            assert(self@.adj_of(from@) == old(self)@.adj_of(from@).push((to@, w))) by {
                lemma_add_adj_get(a0, from@, to@, w, from@);
                if assoc_get(a0, from@) is None {
                    assert(Seq::<(Seq<char>, int)>::empty().push((to@, w)) =~= seq![(to@, w)]);
                }
            }
            assert forall|v: Seq<char>| (#[trigger] self@.label_of(v)) == (if old(
                self,
            )@.label_of(v) is Some {
                old(self)@.label_of(v)
            } else if v == from@ || v == to@ {
                Some(State::Neutral)
            } else {
                None::<State>
            }) by {
                lemma_ensure_label_get(l0, from@, v);
                lemma_ensure_label_get(l1, to@, v);
            }
            lemma_ensure_label_vkeys(l0, from@);
            lemma_ensure_label_vkeys(l1, to@);
            lemma_ensure_label_get(l0, from@, to@);
            if 0 <= w && crate::ucs::weights_ok(old(self)@) {
                assert(crate::ucs::weights_ok(self@)) by {
                    assert forall|x: int, y: int|
                        0 <= x < self@.adj.len() && 0 <= y < self@.adj[x].1.len() implies 0 <= (
                        #[trigger] self@.adj[x].1[y]).1 by {
                        if assoc_get(a0, from@) is Some {
                            lemma_assoc_get_is_entry(a0, from@);
                            let i = choose|i: int|
                                0 <= i < a0.len() && (#[trigger] a0[i]).0 == from@ && a0[i].1
                                    == assoc_get(a0, from@)->Some_0;
                            let i2 = choose|i2: int|
                                0 <= i2 < a0.len() && (#[trigger] a0[i2]).0 == from@ && forall|
                                    j: int,
                                |
                                    0 <= j < i2 ==> (#[trigger] a0[j]).0 != from@;
                            assert(self@.adj =~= a0.update(
                                i2,
                                (a0[i2].0, a0[i2].1.push((to@, w))),
                            )) by {
                                lemma_add_adj_found(a0, from@, to@, w, i2);
                            }
                            if x == i2 {
                                if y == self@.adj[x].1.len() - 1 {
                                } else {
                                    assert(self@.adj[x].1[y] == a0[x].1[y]);
                                    assert(0 <= old(self)@.adj[x].1[y].1);
                                }
                            } else {
                                assert(self@.adj[x] == a0[x]);
                                assert(0 <= old(self)@.adj[x].1[y].1);
                            }
                        } else {
                            lemma_assoc_get_none_all(a0, from@);
                            lemma_add_adj_absent(a0, from@, to@, w);
                            if x < self@.adj.len() - 1 {
                                assert(self@.adj[x] == a0[x]);
                                assert(0 <= old(self)@.adj[x].1[y].1);
                            } else {
                                assert(self@.adj[x].1 =~= seq![(to@, w)]);
                            }
                        }
                    }
                }
            }
        }
    }

    /// Appends an undirected edge: one directed edge in each direction,
    /// with the same weight.
    pub fn push_undirected_edge(&mut self, from: &str, to: &str, edge: Edge)
        requires
            old(self).wf(),
        ensures
            final(self).wf(),
            final(self)@.labels == ensure_label(ensure_label(old(self)@.labels, from@), to@),
            final(self)@.adj == add_adj(
                add_adj(old(self)@.adj, from@, to@, edge.0 as int),
                to@,
                from@,
                edge.0 as int,
            ),
            final(self)@.start_of() == old(self)@.start_of(),
            from@ != to@ ==> final(self)@.adj_of(from@) == old(self)@.adj_of(from@).push(
                (to@, edge.0 as int),
            ),
            from@ != to@ ==> final(self)@.adj_of(to@) == old(self)@.adj_of(to@).push(
                (from@, edge.0 as int),
            ),
            forall|v: Seq<char>|
                v != from@ && v != to@ ==> (#[trigger] final(self)@.adj_of(v)) == old(
                    self,
                )@.adj_of(v),
            forall|v: Seq<char>|
                (#[trigger] final(self)@.label_of(v)) == (if old(self)@.label_of(v) is Some {
                    old(self)@.label_of(v)
                } else if v == from@ || v == to@ {
                    Some(State::Neutral)
                } else {
                    None::<State>
                }),
            final(self)@.vkeys() == ({
                let k1 = if old(self)@.label_of(from@) is Some {
                    old(self)@.vkeys()
                } else {
                    old(self)@.vkeys().push(from@)
                };
                if old(self)@.label_of(to@) is Some || to@ == from@ {
                    k1
                } else {
                    k1.push(to@)
                }
            }),
            (0 <= edge.0 && crate::ucs::weights_ok(old(self)@)) ==> crate::ucs::weights_ok(
                final(self)@,
            ),
    {
        let ghost l0 = self@.labels;
        let ghost g0 = self@;
        self.push_edge(from, to, edge);
        let ghost l1 = self@.labels;
        let ghost g1 = self@;
        proof {
            lemma_ensure_label_get(l0, from@, from@);
            lemma_ensure_label_get(l0, from@, to@);
            lemma_ensure_label_get(ensure_label(l0, from@), to@, from@);
            lemma_ensure_label_get(ensure_label(l0, from@), to@, to@);
            assert(assoc_get(l1, to@) is Some);
            assert(assoc_get(l1, from@) is Some);
        }
        self.push_edge(to, from, edge);
        proof {
            assert(ensure_label(l1, to@) == l1);
            assert(ensure_label(l1, from@) == l1);
            assert forall|v: Seq<char>| (#[trigger] self@.label_of(v)) == (if g0.label_of(
                v,
            ) is Some {
                g0.label_of(v)
            } else if v == from@ || v == to@ {
                Some(State::Neutral)
            } else {
                None::<State>
            }) by {
                assert(g1.label_of(v) == (if g0.label_of(v) is Some {
                    g0.label_of(v)
                } else if v == from@ || v == to@ {
                    Some(State::Neutral)
                } else {
                    None::<State>
                }));
            }
        }
    }

    /// Registers a vertex with the default `Neutral` label.
    pub fn push_vid(&mut self, vid: &str)
        requires
            old(self).wf(),
        ensures
            final(self).wf(),
            final(self)@.labels == put(old(self)@.labels, vid@, State::Neutral),
            final(self)@.adj == old(self)@.adj,
    {
        self.push_vertex(vid, State::Neutral);
    }
}

impl Default for Graph {
    /// The default graph is empty.
    fn default() -> (r: Self)
        ensures
            r.wf(),
            r@.labels == Seq::<(Seq<char>, State)>::empty(),
            r@.adj == Seq::<(Seq<char>, Seq<(Seq<char>, int)>)>::empty(),
    {
        Graph::new()
    }
}

/// If no entry before `i` holds the key, the lookup is decided by the
/// remainder from `i` on.
pub proof fn lemma_assoc_get_prefix_miss<K, V>(s: Seq<(K, V)>, k: K, i: int)
    requires
        0 <= i <= s.len(),
        forall|j: int| 0 <= j < i ==> (#[trigger] s[j]).0 != k,
    ensures
        assoc_get(s, k) == assoc_get(s.skip(i), k),
    decreases i,
{
    if i > 0 {
        assert(s[0].0 != k);
        lemma_assoc_get_prefix_miss(s.drop_first(), k, i - 1);
        assert(s.skip(1) =~= s.drop_first());
        assert(s.drop_first().skip(i - 1) =~= s.skip(i));
    } else {
        assert(s.skip(0) =~= s);
    }
}

} // verus!
