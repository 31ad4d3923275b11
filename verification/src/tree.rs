//! Parent-pointer search trees and path reconstruction.
//!
//! During a search, every newly discovered vertex is recorded with the
//! vertex that discovered it. After the goal is found, walking the parent
//! pointers back from the goal and reversing the walk yields the solution
//! path in start-to-goal order.

use vstd::prelude::*;
use vstd::string::StringExecFns;
use crate::vid::vids;
use crate::graph::akeys;

verus! {

/// The map held by an entry list, later entries overriding earlier ones.
pub open spec fn map_of<K, V>(t: Seq<(K, V)>) -> Map<K, V>
    decreases t.len(),
{
    if t.len() == 0 {
        Map::empty()
    } else {
        map_of(t.drop_last()).insert(t.last().0, t.last().1)
    }
}

/// Dropping the last element of a duplicate-free sequence keeps it
/// duplicate free.
pub proof fn lemma_nodup_drop_last<A>(s: Seq<A>)
    requires
        s.len() > 0,
        s.no_duplicates(),
    ensures
        s.drop_last().no_duplicates(),
{
    assert forall|i: int, j: int|
        0 <= i < j < s.drop_last().len() implies s.drop_last()[i] != s.drop_last()[j] by {
        assert(s[i] != s[j]);
    }
}

/// With unique keys, the map of an entry list has exactly the keys as its
/// domain, and each entry gives its key's value.
pub proof fn lemma_map_of_unique<K, V>(t: Seq<(K, V)>)
    requires
        akeys(t).no_duplicates(),
    ensures
        map_of(t).dom() == akeys(t).to_set(),
        forall|i: int| 0 <= i < t.len() ==> map_of(t)[(#[trigger] t[i]).0] == t[i].1,
    decreases t.len(),
{
    if t.len() == 0 {
        assert(map_of(t).dom() =~= akeys(t).to_set());
    } else {
        let u = t.drop_last();
        assert(akeys(u) =~= akeys(t).drop_last());
        lemma_nodup_drop_last(akeys(t));
        lemma_map_of_unique(u);
        assert(map_of(t).dom() =~= akeys(t).to_set()) by {
            assert forall|x: K| akeys(t).to_set().contains(x) implies map_of(t).dom().contains(
                x,
            ) by {
                let i = choose|i: int| 0 <= i < akeys(t).len() && akeys(t)[i] == x;
                if i < t.len() - 1 {
                    assert(akeys(u)[i] == x);
                    assert(akeys(u).to_set().contains(x));
                }
            }
            assert forall|x: K| map_of(t).dom().contains(x) implies akeys(t).to_set().contains(
                x,
            ) by {
                if x == t.last().0 {
                    assert(akeys(t)[t.len() - 1] == x);
                } else {
                    let i = choose|i: int| 0 <= i < akeys(u).len() && akeys(u)[i] == x;
                    assert(akeys(t)[i] == x);
                }
            }
        }
        assert forall|i: int| 0 <= i < t.len() implies map_of(t)[(#[trigger] t[i]).0]
            == t[i].1 by {
            if i < t.len() - 1 {
                assert(akeys(t)[i] == t[i].0);
                assert(akeys(t)[t.len() - 1] == t.last().0);
                assert(t[i].0 != t.last().0);
                assert(u[i] == t[i]);
                assert(map_of(u)[t[i].0] == t[i].1);
            }
        }
    }
}

/// Appending an entry inserts its pair into the map.
pub proof fn lemma_map_of_push<K, V>(t: Seq<(K, V)>, e: (K, V))
    ensures
        map_of(t.push(e)) == map_of(t).insert(e.0, e.1),
{
    assert(t.push(e).drop_last() =~= t);
    assert(t.push(e).last() == e);
}

/// Overwriting the value of an entry in place inserts the new pair into
/// the map, provided keys are unique.
pub proof fn lemma_map_of_update<K, V>(t: Seq<(K, V)>, i: int, v: V)
    requires
        0 <= i < t.len(),
        akeys(t).no_duplicates(),
    ensures
        map_of(t.update(i, (t[i].0, v))) == map_of(t).insert(t[i].0, v),
    decreases t.len(),
{
    let s = t.update(i, (t[i].0, v));
    if i == t.len() - 1 {
        assert(s.drop_last() =~= t.drop_last());
        assert(s.last() == (t[i].0, v));
        assert(map_of(t.drop_last()).insert(t[i].0, t[i].1).insert(t[i].0, v) =~= map_of(
            t.drop_last(),
        ).insert(t[i].0, v));
    } else {
        let u = t.drop_last();
        assert(akeys(u) =~= akeys(t).drop_last());
        lemma_nodup_drop_last(akeys(t));
        assert(u[i] == t[i]);
        lemma_map_of_update(u, i, v);
        assert(s.drop_last() =~= u.update(i, (t[i].0, v)));
        assert(s.last() == t.last());
        assert(akeys(t)[i] == t[i].0);
        assert(akeys(t)[t.len() - 1] == t.last().0);
        assert(t[i].0 != t.last().0);
        assert(map_of(u).insert(t[i].0, v).insert(t.last().0, t.last().1) =~= map_of(u).insert(
            t.last().0,
            t.last().1,
        ).insert(t[i].0, v));
    }
}

/// The walk back along parent pointers from a key, bounded by `fuel`
/// steps, the key itself included.
pub open spec fn back_walk(
    tree: Map<Seq<char>, Seq<char>>,
    from: Seq<char>,
    fuel: nat,
) -> Seq<Seq<char>>
    decreases fuel,
{
    if fuel == 0 || !tree.dom().contains(from) {
        seq![from]
    } else {
        seq![from] + back_walk(tree, tree[from], (fuel - 1) as nat)
    }
}

/// The reconstructed path: the full parent walk from a key, reversed into
/// start-to-goal order.
pub open spec fn path_spec(tree: Map<Seq<char>, Seq<char>>, from: Seq<char>) -> Seq<Seq<char>> {
    back_walk(tree, from, tree.dom().len()).reverse()
}

/// The entry views of a stored parent map.
pub open spec fn pm_entries(s: Seq<(String, String)>) -> Seq<(Seq<char>, Seq<char>)> {
    s.map_values(|p: (String, String)| (p.0@, p.1@))
}

/// The parent map of a depth-first or breadth-first search: each
/// discovered vertex maps to the vertex that discovered it.
#[derive(Debug)]
pub struct ParentMap {
    entries: Vec<(String, String)>,
}

impl View for ParentMap {
    type V = Map<Seq<char>, Seq<char>>;

    closed spec fn view(&self) -> Map<Seq<char>, Seq<char>> {
        map_of(pm_entries(self.entries@))
    }
}

impl ParentMap {
    /// Well-formedness: one entry per discovered vertex.
    pub closed spec fn wf(&self) -> bool {
        akeys(pm_entries(self.entries@)).no_duplicates()
    }

    /// The recorded `(vertex, parent)` pairs, in insertion order; the map
    /// this tree holds is exactly `map_of` of these entries.
    pub closed spec fn entries_model(&self) -> Seq<(Seq<char>, Seq<char>)> {
        pm_entries(self.entries@)
    }

    /// Creates an empty parent map.
    pub fn new() -> (r: ParentMap)
        ensures
            r.wf(),
            r@ == Map::<Seq<char>, Seq<char>>::empty(),
            r.entries_model() == Seq::<(Seq<char>, Seq<char>)>::empty(),
    {
        let r = ParentMap { entries: Vec::new() };
        proof {
            assert(pm_entries(r.entries@) =~= Seq::<(Seq<char>, Seq<char>)>::empty());
        }
        r
    }

    /// The index of the first entry for `key`, if any.
    fn find(&self, key: &String) -> (r: Option<usize>)
        ensures
            match r {
                Some(i) => i < self.entries@.len() && self.entries@[i as int].0@ == key@
                    && forall|j: int| 0 <= j < i ==> (#[trigger] self.entries@[j]).0@ != key@,
                None => forall|j: int|
                    0 <= j < self.entries@.len() ==> (#[trigger] self.entries@[j]).0@ != key@,
            },
    {
        let mut i: usize = 0;
        while i < self.entries.len()
            invariant
                i <= self.entries@.len(),
                forall|j: int| 0 <= j < i ==> (#[trigger] self.entries@[j]).0@ != key@,
            decreases self.entries@.len() - i,
        {
            if self.entries[i].0 == *key {
                return Some(i);
            }
            i = i + 1;
        }
        None
    }

    /// Records or overwrites the parent of a discovered vertex. An
    /// existing vertex keeps its position in the insertion order; a new
    /// one is appended.
    pub fn insert(&mut self, child: &str, parent: &str)
        requires
            old(self).wf(),
        ensures
            final(self).wf(),
            final(self)@ == old(self)@.insert(child@, parent@),
            final(self).entries_model() == crate::graph::put(
                old(self).entries_model(),
                child@,
                parent@,
            ),
    {
        let ckey = child.to_owned();
        let pkey = parent.to_owned();
        let ghost ev = pm_entries(self.entries@);
        let idx = self.find(&ckey);
        match idx {
            Some(i) => {
                self.entries.remove(i);
                self.entries.insert(i, (ckey, pkey));
                proof {
                    assert(pm_entries(self.entries@) =~= ev.update(i as int, (child@, parent@)));
                    assert(ev[i as int].0 == child@);
                    lemma_map_of_update(ev, i as int, parent@);
                    assert(akeys(ev.update(i as int, (child@, parent@))) =~= akeys(ev));
                    assert(forall|j: int| 0 <= j < i ==> (#[trigger] ev[j]).0 != child@);
                    crate::graph::lemma_put_found(ev, child@, parent@, i as int);
                }
            },
            None => {
                self.entries.push((ckey, pkey));
                proof {
                    assert(pm_entries(self.entries@) =~= ev.push((child@, parent@)));
                    lemma_map_of_push(ev, (child@, parent@));
                    assert(akeys(ev.push((child@, parent@))) =~= akeys(ev).push(child@));
                    assert(forall|j: int| 0 <= j < ev.len() ==> (#[trigger] ev[j]).0 != child@);
                    crate::graph::lemma_put_absent(ev, child@, parent@);
                    assert forall|x: int, y: int|
                        0 <= x < y < akeys(ev).push(child@).len() implies akeys(ev).push(child@)[x]
                        != akeys(ev).push(child@)[y] by {
                        if y == akeys(ev).len() {
                            assert(akeys(ev)[x] == ev[x].0);
                        } else {
                            assert(akeys(ev)[x] != akeys(ev)[y]);
                        }
                    }
                }
            },
        }
    }

    /// Looks up the recorded parent of a vertex.
    pub fn get(&self, key: &str) -> (r: Option<String>)
        requires
            self.wf(),
        ensures
            match r {
                Some(p) => self@.dom().contains(key@) && self@[key@] == p@,
                None => !self@.dom().contains(key@),
            },
    {
        let kv = key.to_owned();
        let ghost ev = pm_entries(self.entries@);
        proof {
            lemma_map_of_unique(ev);
        }
        let idx = self.find(&kv);
        match idx {
            Some(i) => {
                proof {
                    assert(ev[i as int] == (self.entries@[i as int].0@,
                    self.entries@[i as int].1@));
                    assert(akeys(ev)[i as int] == ev[i as int].0);
                }
                Some(self.entries[i].1.clone())
            },
            None => {
                proof {
                    assert forall|j: int| 0 <= j < akeys(ev).len() implies #[trigger] akeys(
                        ev,
                    )[j] != key@ by {
                        assert(akeys(ev)[j] == ev[j].0);
                        assert(ev[j].0 == self.entries@[j].0@);
                    }
                    assert(!akeys(ev).contains(key@));
                }
                None
            },
        }
    }

    /// The number of recorded vertices.
    pub fn len(&self) -> (r: usize)
        requires
            self.wf(),
        ensures
            r == self@.dom().len(),
    {
        proof {
            let ev = pm_entries(self.entries@);
            lemma_map_of_unique(ev);
            akeys(ev).unique_seq_to_set();
        }
        self.entries.len()
    }

    /// The recorded `(vertex, parent)` pairs, one per recorded vertex, in
    /// insertion order; a lossless listing of the map, for external
    /// diagnostic rendering.
    pub fn items(&self) -> (r: Vec<(String, String)>)
        requires
            self.wf(),
        ensures
            pm_entries(r@) == self.entries_model(),
            r@.len() == self@.dom().len(),
            forall|i: int|
                0 <= i < r@.len() ==> self@.dom().contains((#[trigger] r@[i]).0@)
                    && self@[r@[i].0@] == r@[i].1@,
            forall|i: int, j: int| 0 <= i < j < r@.len() ==> (#[trigger] r@[i]).0@ != (
            #[trigger] r@[j]).0@,
    {
        proof {
            let ev = pm_entries(self.entries@);
            lemma_map_of_unique(ev);
            akeys(ev).unique_seq_to_set();
        }
        let mut out: Vec<(String, String)> = Vec::new();
        let mut i: usize = 0;
        while i < self.entries.len()
            invariant
                i <= self.entries@.len(),
                out@.len() == i,
                forall|j: int|
                    0 <= j < i ==> (#[trigger] out@[j]).0@ == self.entries@[j].0@ && out@[j].1@
                        == self.entries@[j].1@,
            decreases self.entries@.len() - i,
        {
            let e = &self.entries[i];
            out.push((e.0.clone(), e.1.clone()));
            i = i + 1;
        }
        proof {
            let ev = pm_entries(self.entries@);
            lemma_map_of_unique(ev);
            assert(pm_entries(out@) =~= ev);
            assert forall|j: int| 0 <= j < out@.len() implies self@.dom().contains(
                (#[trigger] out@[j]).0@,
            ) && self@[out@[j].0@] == out@[j].1@ by {
                assert(ev[j] == (self.entries@[j].0@, self.entries@[j].1@));
                assert(akeys(ev)[j] == ev[j].0);
                assert(self@[ev[j].0] == ev[j].1);
            }
            assert forall|i: int, j: int| 0 <= i < j < out@.len() implies (#[trigger] out@[i]).0@
                != (#[trigger] out@[j]).0@ by {
                assert(akeys(ev)[i] == ev[i].0 && akeys(ev)[j] == ev[j].0);
                assert(akeys(ev)[i] != akeys(ev)[j]);
            }
        }
        out
    }

    /// Reconstructs the path that discovered `from`: the parent walk back
    /// from it, reversed into start-to-goal order.
    pub fn build_path(&self, from: &str) -> (r: Vec<String>)
        requires
            self.wf(),
        ensures
            vids(r@) == path_spec(self@, from@),
    {
        let fuel = self.len();
        let mut rev: Vec<String> = Vec::new();
        rev.push(from.to_owned());
        let mut current = from.to_owned();
        let mut steps: usize = 0;
        proof {
            assert(vids(rev@) =~= seq![from@]);
        }
        loop
            invariant
                self.wf(),
                steps <= fuel,
                fuel == self@.dom().len(),
                vids(rev@).len() >= 1,
                vids(rev@).last() == current@,
                back_walk(self@, from@, fuel as nat) == vids(rev@).drop_last() + back_walk(
                    self@,
                    current@,
                    (fuel - steps) as nat,
                ),
            ensures
                back_walk(self@, from@, fuel as nat) == vids(rev@),
            decreases fuel - steps,
        {
            if steps == fuel {
                proof {
                    assert(back_walk(self@, current@, 0) =~= seq![current@]);
                    assert(vids(rev@).drop_last() + seq![current@] =~= vids(rev@));
                }
                break;
            }
            let nxt = self.get(current.as_str());
            match nxt {
                None => {
                    proof {
                        assert(back_walk(self@, current@, (fuel - steps) as nat) =~= seq![
                            current@,
                        ]);
                        assert(vids(rev@).drop_last() + seq![current@] =~= vids(rev@));
                    }
                    break;
                },
                Some(next) => {
                    let ghost pre = vids(rev@);
                    rev.push(next.clone());
                    proof {
                        assert(vids(rev@) =~= pre.push(next@));
                        assert(back_walk(self@, current@, (fuel - steps) as nat) == seq![current@]
                            + back_walk(self@, next@, (fuel - steps - 1) as nat));
                        assert(pre.drop_last() + (seq![current@] + back_walk(
                            self@,
                            next@,
                            (fuel - steps - 1) as nat,
                        )) =~= pre.push(next@).drop_last() + back_walk(
                            self@,
                            next@,
                            (fuel - steps - 1) as nat,
                        ));
                    }
                    current = next;
                    steps = steps + 1;
                },
            }
        }
        reverse_ids(&rev)
    }
}

/// A path rendered as text: the identifiers joined by arrows.
pub open spec fn join_arrows(p: Seq<Seq<char>>) -> Seq<char>
    decreases p.len(),
{
    if p.len() == 0 {
        Seq::empty()
    } else if p.len() == 1 {
        p[0]
    } else {
        join_arrows(p.drop_last()) + " -> "@ + p.last()
    }
}

/// Renders a path as text, identifiers joined by arrows.
pub fn join_path(path: &Vec<String>) -> (r: String)
    ensures
        r@ == join_arrows(vids(path@)),
{
    let mut out = String::new();
    let mut k: usize = 0;
    proof {
        assert(vids(path@).take(0) =~= Seq::<Seq<char>>::empty());
        assert(out@ =~= Seq::<char>::empty());
    }
    while k < path.len()
        invariant
            k <= path@.len(),
            out@ == join_arrows(vids(path@).take(k as int)),
        decreases path@.len() - k,
    {
        let ghost pre = vids(path@).take(k as int);
        if k > 0 {
            out.append(" -> ");
        }
        out.append(path[k].as_str());
        proof {
            let post = vids(path@).take(k as int + 1);
            assert(post.drop_last() =~= pre);
            assert(post.last() == vids(path@)[k as int]);
            if k == 0 {
                assert(out@ == Seq::<char>::empty() + vids(path@)[0]);
                assert(Seq::<char>::empty() + vids(path@)[0] =~= vids(path@)[0]);
            }
        }
        k = k + 1;
    }
    proof {
        assert(vids(path@).take(path@.len() as int) =~= vids(path@));
    }
    out
}

/// Reverses a list of identifiers.
pub fn reverse_ids(v: &Vec<String>) -> (r: Vec<String>)
    ensures
        vids(r@) == vids(v@).reverse(),
{
    let mut out: Vec<String> = Vec::new();
    let mut k: usize = v.len();
    while k > 0
        invariant
            k <= v.len(),
            out@.len() == v.len() - k,
            forall|idx: int|
                0 <= idx < out@.len() ==> (#[trigger] vids(out@)[idx]) == vids(v@)[v@.len() - 1
                    - idx],
        decreases k,
    {
        k = k - 1;
        let ghost pre = out@;
        out.push(v[k].clone());
        proof {
            assert(out@ == pre.push(out@[pre.len() as int]));
            assert forall|idx: int| 0 <= idx < out@.len() implies (#[trigger] vids(out@)[idx])
                == vids(v@)[v@.len() - 1 - idx] by {
                if idx < pre.len() {
                    assert(vids(pre)[idx] == vids(v@)[v@.len() - 1 - idx]);
                    assert(out@[idx] == pre[idx]);
                } else {
                    assert(out@[idx]@ == v@[k as int]@);
                }
            }
        }
    }
    proof {
        assert(vids(out@) =~= vids(v@).reverse());
    }
    out
}

} // verus!
