//! Laws of the search engine, stated and proved over the specifications:
//! how every run fails on a graph without a start vertex, how every run
//! fails when no goal is reachable, and how every returned solution
//! reconstructs to a path made of real edges.

use vstd::prelude::*;
use vstd::seq_lib::seq_to_set_is_finite;
use crate::SearchError;
use crate::graph::{GraphModel, lemma_find_start_in_keys, lemma_targets_labeled};
use crate::engine::{
    search_loop, search_spec, dfs_spec, bfs_spec, step_children, tree_with, lemma_children_ok,
    lemma_expand_decreases,
};
use crate::tree::{back_walk, path_spec};
use crate::ucs::{ucs_loop, ucs_spec, ucs_expand, back_walk_c, ucs_path, lemma_ucs_expand_elems,
    lemma_fr_insert_elems, weights_ok};
use crate::vid::{lemma_add_contains, lemma_filter_sub};

verus! {

/// A walk through the graph: at least one vertex, each consecutive pair
/// joined by an edge.
pub open spec fn is_path(g: GraphModel, p: Seq<Seq<char>>) -> bool {
    p.len() >= 1 && forall|i: int|
        0 <= i < p.len() - 1 ==> g.targets_of(#[trigger] p[i]).contains(p[i + 1])
}

/// Whether `to` can be reached from `from` along edges.
pub open spec fn reachable(g: GraphModel, from: Seq<char>, to: Seq<char>) -> bool {
    exists|p: Seq<Seq<char>>| is_path(g, p) && p.first() == from && p.last() == to
}

/// Every vertex reaches itself.
pub proof fn lemma_reachable_refl(g: GraphModel, v: Seq<char>)
    ensures
        reachable(g, v, v),
{
    let p = seq![v];
    assert(is_path(g, p) && p.first() == v && p.last() == v);
}

/// Reachability extends along one edge.
pub proof fn lemma_reachable_step(g: GraphModel, s: Seq<char>, a: Seq<char>, b: Seq<char>)
    requires
        reachable(g, s, a),
        g.targets_of(a).contains(b),
    ensures
        reachable(g, s, b),
{
    let p = choose|p: Seq<Seq<char>>| is_path(g, p) && p.first() == s && p.last() == a;
    let q = p.push(b);
    assert(q.last() == b);
    assert(q.first() == s);
    assert forall|i: int| 0 <= i < q.len() - 1 implies g.targets_of(#[trigger] q[i]).contains(
        q[i + 1],
    ) by {
        if i < p.len() - 1 {
            assert(q[i] == p[i] && q[i + 1] == p[i + 1]);
        } else {
            assert(q[i] == p.last() && q[i + 1] == b);
        }
    }
    assert(is_path(g, q) && q.first() == s && q.last() == b);
}

/// Whatever the shared loop returns from a state whose frontier holds only
/// vertices reachable from `s`: a success carries a reachable goal vertex,
/// and the only failure is frontier exhaustion.
pub proof fn lemma_search_loop_sound(
    g: GraphModel,
    lifo: bool,
    eql: Seq<Seq<char>>,
    fr: Seq<Seq<char>>,
    tree: Map<Seq<char>, Seq<char>>,
    s: Seq<char>,
)
    requires
        g.wf(),
        eql.to_set().subset_of(g.vkeys().to_set()),
        forall|i: int| 0 <= i < fr.len() ==> reachable(g, s, #[trigger] fr[i]),
    ensures
        match search_loop(g, lifo, eql, fr, tree) {
            Ok(p) => g.is_goal_spec(p.0) && reachable(g, s, p.0),
            Err(e) => e == SearchError::NoPathFound,
        },
    decreases g.vkeys().to_set().difference(eql.to_set()).len(), fr.len(),
{
    if fr.len() == 0 {
    } else {
        let node = if lifo {
            fr.last()
        } else {
            fr.first()
        };
        let rest = if lifo {
            fr.drop_last()
        } else {
            fr.drop_first()
        };
        assert(reachable(g, s, node)) by {
            if lifo {
                assert(fr[fr.len() - 1] == node);
            } else {
                assert(fr[0] == node);
            }
        }
        if g.is_goal_spec(node) {
        } else {
            let cs = step_children(g, eql, node);
            let order = if lifo {
                cs.reverse()
            } else {
                cs
            };
            lemma_children_ok(g, eql, node);
            assert forall|j: int| 0 <= j < order.len() implies g.vkeys().contains(
                #[trigger] order[j],
            ) && !eql.contains(order[j]) && g.targets_of(node).contains(order[j]) by {
                if lifo {
                    assert(order[j] == cs[cs.len() - 1 - j]);
                }
            }
            lemma_expand_decreases(g, eql, order);
            if order.len() == 0 {
                assert(eql + order =~= eql);
            }
            assert forall|i: int| 0 <= i < (rest + order).len() implies reachable(
                g,
                s,
                #[trigger] (rest + order)[i],
            ) by {
                if i < rest.len() {
                    assert((rest + order)[i] == rest[i]);
                    if lifo {
                        assert(rest[i] == fr[i]);
                    } else {
                        assert(rest[i] == fr[i + 1]);
                    }
                } else {
                    assert((rest + order)[i] == order[i - rest.len()]);
                    lemma_reachable_step(g, s, node, order[i - rest.len()]);
                }
            }
            lemma_search_loop_sound(
                g,
                lifo,
                eql + order,
                rest + order,
                tree_with(tree, order, node),
                s,
            );
        }
    }
}

/// With no `Start`-tagged vertex, every algorithm fails with
/// `NoStartNode`.
pub proof fn lemma_no_start(g: GraphModel)
    requires
        g.start_of() is None,
    ensures
        dfs_spec(g) == Err::<(Seq<char>, Map<Seq<char>, Seq<char>>), SearchError>(
            SearchError::NoStartNode,
        ),
        bfs_spec(g) == Err::<(Seq<char>, Map<Seq<char>, Seq<char>>), SearchError>(
            SearchError::NoStartNode,
        ),
        ucs_spec(g) == Err::<
            ((int, Seq<char>), Map<(int, Seq<char>), (int, Seq<char>)>),
            SearchError,
        >(SearchError::NoStartNode),
{
}

/// When the start vertex reaches no goal vertex, depth-first and
/// breadth-first search fail with `NoPathFound`.
pub proof fn lemma_unreachable_goal_search(g: GraphModel, lifo: bool)
    requires
        g.wf(),
        g.start_of() is Some,
        forall|v: Seq<char>| reachable(g, g.start_of()->Some_0, v) ==> !g.is_goal_spec(v),
    ensures
        search_spec(g, lifo) == Err::<(Seq<char>, Map<Seq<char>, Seq<char>>), SearchError>(
            SearchError::NoPathFound,
        ),
{
    let s = g.start_of()->Some_0;
    lemma_find_start_in_keys(g.labels);
    assert forall|x: Seq<char>| seq![s].to_set().contains(x) implies g.vkeys().to_set().contains(
        x,
    ) by {
        let i = choose|i: int| 0 <= i < seq![s].len() && seq![s][i] == x;
        assert(x == s);
    }
    lemma_reachable_refl(g, s);
    assert forall|i: int| 0 <= i < seq![s].len() implies reachable(g, s, #[trigger] seq![s][i]) by {
        assert(seq![s][i] == s);
    }
    lemma_search_loop_sound(g, lifo, seq![s], seq![s], Map::empty(), s);
}

/// Whatever the uniform-cost loop returns from a state whose frontier
/// holds only vertices reachable from `s`: a success carries a reachable
/// goal vertex, and the only failure is frontier exhaustion.
pub proof fn lemma_ucs_loop_sound(
    g: GraphModel,
    exl: Seq<Seq<char>>,
    fr: Seq<(int, Seq<char>)>,
    tree: Map<(int, Seq<char>), (int, Seq<char>)>,
    s: Seq<char>,
)
    requires
        g.wf(),
        exl.to_set().subset_of(g.vkeys().to_set()),
        forall|i: int| 0 <= i < fr.len() ==> g.vkeys().contains((#[trigger] fr[i]).1),
        forall|i: int| 0 <= i < fr.len() ==> reachable(g, s, (#[trigger] fr[i]).1),
    ensures
        match ucs_loop(g, exl, fr, tree) {
            Ok(p) => g.is_goal_spec(p.0.1) && reachable(g, s, p.0.1),
            Err(e) => e == SearchError::NoGoalFound,
        },
    decreases g.vkeys().to_set().difference(exl.to_set()).len(), fr.len(),
{
    broadcast use seq_to_set_is_finite;
    broadcast use vstd::set::group_set_axioms;

    if fr.len() == 0 {
    } else {
        let top = fr.last();
        let rest = fr.drop_last();
        assert(g.vkeys().contains(top.1) && reachable(g, s, top.1)) by {
            assert(fr[fr.len() - 1] == top);
        }
        assert forall|i: int| 0 <= i < rest.len() implies g.vkeys().contains(
            (#[trigger] rest[i]).1,
        ) && reachable(g, s, rest[i].1) by {
            assert(rest[i] == fr[i]);
        }
        if exl.contains(top.1) {
            lemma_ucs_loop_sound(g, exl, rest, tree, s);
        } else if g.is_goal_spec(top.1) {
        } else {
            let exl2 = exl.push(top.1);
            let cs = g.targets_of(top.1).filter(|t: Seq<char>| !exl2.contains(t));
            let next = ucs_expand(g, cs, top.0, top.1, rest, tree);
            assert(exl2.to_set() =~= exl.to_set().insert(top.1)) by {
                assert forall|x: Seq<char>| exl2.contains(x) implies exl.contains(x) || x
                    == top.1 by {
                    let i = choose|i: int| 0 <= i < exl2.len() && exl2[i] == x;
                    if i < exl.len() {
                        assert(exl[i] == x);
                    }
                }
                assert(exl2[exl.len() as int] == top.1);
                assert forall|x: Seq<char>| exl.contains(x) implies exl2.contains(x) by {
                    let i = choose|i: int| 0 <= i < exl.len() && exl[i] == x;
                    assert(exl2[i] == x);
                }
            }
            g.vkeys().to_set().lemma_set_insert_diff_decreases(exl.to_set(), top.1);
            lemma_targets_labeled(g, top.1);
            lemma_ucs_expand_elems(g, cs, top.0, top.1, rest, tree);
            assert forall|i: int| 0 <= i < next.0.len() implies g.vkeys().contains(
                (#[trigger] next.0[i]).1,
            ) && reachable(g, s, next.0[i].1) by {
                if cs.contains(next.0[i].1) {
                    let n = choose|n: int| 0 <= n < cs.len() && cs[n] == next.0[i].1;
                    lemma_filter_sub(g.targets_of(top.1), |t: Seq<char>| !exl2.contains(t), n);
                    lemma_reachable_step(g, s, top.1, next.0[i].1);
                } else {
                    let m = choose|m: int| 0 <= m < rest.len() && rest[m] == next.0[i];
                }
            }
            lemma_ucs_loop_sound(g, exl2, next.0, next.1, s);
        }
    }
}

/// When the start vertex reaches no goal vertex, uniform-cost search
/// fails with `NoGoalFound`.
pub proof fn lemma_unreachable_goal_ucs(g: GraphModel)
    requires
        g.wf(),
        g.start_of() is Some,
        forall|v: Seq<char>| reachable(g, g.start_of()->Some_0, v) ==> !g.is_goal_spec(v),
    ensures
        ucs_spec(g) == Err::<
            ((int, Seq<char>), Map<(int, Seq<char>), (int, Seq<char>)>),
            SearchError,
        >(SearchError::NoGoalFound),
{
    let s = g.start_of()->Some_0;
    lemma_find_start_in_keys(g.labels);
    let fr0 = seq![(0int, s)];
    assert(Seq::<Seq<char>>::empty().to_set() =~= Set::<Seq<char>>::empty());
    lemma_reachable_refl(g, s);
    assert forall|i: int| 0 <= i < fr0.len() implies g.vkeys().contains((#[trigger] fr0[i]).1)
        && reachable(g, s, fr0[i].1) by {
        assert(fr0[i] == (0int, s));
    }
    lemma_ucs_loop_sound(g, Seq::empty(), fr0, Map::empty(), s);
}

/// The cumulative weight of a walk, edge by edge; each step is charged
/// the weight of the first edge between its endpoints, exactly as the
/// search reads weights.
pub open spec fn path_cost(g: GraphModel, p: Seq<Seq<char>>) -> int
    decreases p.len(),
{
    if p.len() <= 1 {
        0
    } else {
        path_cost(g, p.drop_last()) + g.cost_of(p[p.len() - 2], p.last())->Some_0
    }
}

/// Each edge of a walk exists and, with non-negative weights, costs at
/// least nothing.
pub proof fn lemma_path_edge(g: GraphModel, p: Seq<Seq<char>>, i: int)
    requires
        weights_ok(g),
        is_path(g, p),
        0 <= i < p.len() - 1,
    ensures
        g.cost_of(p[i], p[i + 1]) is Some,
        0 <= g.cost_of(p[i], p[i + 1])->Some_0,
{
    assert(g.targets_of(p[i]).contains(p[i + 1]));
    crate::graph::lemma_assoc_get_some_iff(g.adj_of(p[i]), p[i + 1]);
    assert(crate::graph::akeys(g.adj_of(p[i])) =~= g.targets_of(p[i]));
    crate::ucs::lemma_weight_in_range(g, p[i], p[i + 1]);
}

/// A prefix of a walk costs no more than the walk, when weights are
/// non-negative.
pub proof fn lemma_path_cost_prefix(g: GraphModel, p: Seq<Seq<char>>, m: int)
    requires
        weights_ok(g),
        is_path(g, p),
        1 <= m <= p.len(),
    ensures
        path_cost(g, p.take(m)) <= path_cost(g, p),
    decreases p.len(),
{
    if m == p.len() {
        assert(p.take(m) =~= p);
    } else {
        let q = p.drop_last();
        assert(q.take(m) =~= p.take(m));
        assert(is_path(g, q)) by {
            assert forall|i: int| 0 <= i < q.len() - 1 implies g.targets_of(
                #[trigger] q[i],
            ).contains(q[i + 1]) by {
                assert(q[i] == p[i] && q[i + 1] == p[i + 1]);
            }
        }
        lemma_path_cost_prefix(g, q, m);
        lemma_path_edge(g, p, p.len() - 2);
    }
}

/// Extending a walk by one edge adds exactly that edge's weight.
pub proof fn lemma_path_cost_push(g: GraphModel, p: Seq<Seq<char>>, x: Seq<char>)
    requires
        p.len() >= 1,
    ensures
        path_cost(g, p.push(x)) == path_cost(g, p) + g.cost_of(p.last(), x)->Some_0,
{
    assert(p.push(x).drop_last() =~= p);
    assert(p.push(x).last() == x);
    assert(p.push(x)[p.push(x).len() - 2] == p.last());
}

/// The position of the first vertex of a walk outside a visited list.
pub open spec fn first_out(exl: Seq<Seq<char>>, q: Seq<Seq<char>>) -> int
    decreases q.len(),
{
    if q.len() == 0 {
        0
    } else if !exl.contains(q[0]) {
        0
    } else {
        1 + first_out(exl, q.drop_first())
    }
}

/// When a walk ends outside the visited list, its first vertex outside
/// the list exists, and everything before it is inside.
pub proof fn lemma_first_out(exl: Seq<Seq<char>>, q: Seq<Seq<char>>)
    requires
        q.len() >= 1,
        !exl.contains(q.last()),
    ensures
        0 <= first_out(exl, q) < q.len(),
        !exl.contains(q[first_out(exl, q)]),
        forall|i: int| 0 <= i < first_out(exl, q) ==> exl.contains(#[trigger] q[i]),
    decreases q.len(),
{
    if exl.contains(q[0]) {
        assert(q.len() >= 2);
        assert(q.drop_first().last() == q.last());
        lemma_first_out(exl, q.drop_first());
        let m = first_out(exl, q.drop_first());
        assert(q.drop_first()[m] == q[m + 1]);
        assert forall|i: int| 0 <= i < m + 1 implies exl.contains(#[trigger] q[i]) by {
            if i > 0 {
                assert(q.drop_first()[i - 1] == q[i]);
            }
        }
    }
}

/// The frontier order: costs never increase toward the popping end.
pub open spec fn fr_sorted(fr: Seq<(int, Seq<char>)>) -> bool {
    forall|i: int, j: int| 0 <= i <= j < fr.len() ==> (#[trigger] fr[i]).0 >= (#[trigger] fr[j]).0
}

/// Insertion keeps the frontier order.
pub proof fn lemma_fr_insert_sorted(s: Seq<(int, Seq<char>)>, c: int, v: Seq<char>)
    requires
        fr_sorted(s),
    ensures
        fr_sorted(crate::ucs::fr_insert(s, c, v)),
    decreases s.len(),
{
    let out = crate::ucs::fr_insert(s, c, v);
    if s.len() == 0 {
    } else if s[0].0 >= c {
        assert(fr_sorted(s.drop_first())) by {
            assert forall|i: int, j: int|
                0 <= i <= j < s.drop_first().len() implies (#[trigger] s.drop_first()[i]).0
                >= (#[trigger] s.drop_first()[j]).0 by {
                assert(s.drop_first()[i] == s[i + 1] && s.drop_first()[j] == s[j + 1]);
            }
        }
        lemma_fr_insert_sorted(s.drop_first(), c, v);
        let sub = crate::ucs::fr_insert(s.drop_first(), c, v);
        assert forall|i: int, j: int| 0 <= i <= j < out.len() implies (#[trigger] out[i]).0
            >= (#[trigger] out[j]).0 by {
            if i == 0 && j > 0 {
                assert(out[j] == sub[j - 1]);
                crate::ucs::lemma_fr_insert_elems(s.drop_first(), c, v, sub[j - 1]);
                assert(sub.contains(sub[j - 1]));
                if sub[j - 1] == (c, v) {
                } else {
                    let m = choose|m: int|
                        0 <= m < s.drop_first().len() && s.drop_first()[m] == sub[j - 1];
                    assert(s[m + 1] == sub[j - 1]);
                    assert(s[0].0 >= s[m + 1].0);
                }
            } else if i > 0 {
                assert(out[i] == sub[i - 1] && out[j] == sub[j - 1]);
            }
        }
    } else {
        assert forall|i: int, j: int| 0 <= i <= j < out.len() implies (#[trigger] out[i]).0
            >= (#[trigger] out[j]).0 by {
            if i == 0 && j > 0 {
                assert(out[j] == s[j - 1]);
                assert(s[0].0 >= s[j - 1].0);
            } else if i > 0 {
                assert(out[i] == s[i - 1] && out[j] == s[j - 1]);
            }
        }
    }
}

/// An expansion keeps the frontier order.
pub proof fn lemma_ucs_expand_sorted(
    g: GraphModel,
    cs: Seq<Seq<char>>,
    cost: int,
    node: Seq<char>,
    fr: Seq<(int, Seq<char>)>,
    tree: Map<(int, Seq<char>), (int, Seq<char>)>,
)
    requires
        fr_sorted(fr),
    ensures
        fr_sorted(ucs_expand(g, cs, cost, node, fr, tree).0),
    decreases cs.len(),
{
    if cs.len() > 0 {
        lemma_ucs_expand_sorted(g, cs.drop_last(), cost, node, fr, tree);
        let prev = ucs_expand(g, cs.drop_last(), cost, node, fr, tree);
        lemma_fr_insert_sorted(prev.0, cost + g.cost_of(node, cs.last())->Some_0, cs.last());
    }
}

/// An expansion keeps every item that was already on the frontier.
pub proof fn lemma_ucs_expand_keeps(
    g: GraphModel,
    cs: Seq<Seq<char>>,
    cost: int,
    node: Seq<char>,
    fr: Seq<(int, Seq<char>)>,
    tree: Map<(int, Seq<char>), (int, Seq<char>)>,
    y: (int, Seq<char>),
)
    requires
        fr.contains(y),
    ensures
        ucs_expand(g, cs, cost, node, fr, tree).0.contains(y),
    decreases cs.len(),
{
    if cs.len() > 0 {
        lemma_ucs_expand_keeps(g, cs.drop_last(), cost, node, fr, tree, y);
        let prev = ucs_expand(g, cs.drop_last(), cost, node, fr, tree);
        crate::ucs::lemma_fr_insert_elems(
            prev.0,
            cost + g.cost_of(node, cs.last())->Some_0,
            cs.last(),
            y,
        );
    }
}

/// An expansion offers every child of the batch at its discovery cost.
pub proof fn lemma_ucs_expand_offers(
    g: GraphModel,
    cs: Seq<Seq<char>>,
    cost: int,
    node: Seq<char>,
    fr: Seq<(int, Seq<char>)>,
    tree: Map<(int, Seq<char>), (int, Seq<char>)>,
    j: int,
)
    requires
        0 <= j < cs.len(),
    ensures
        ucs_expand(g, cs, cost, node, fr, tree).0.contains(
            (cost + g.cost_of(node, cs[j])->Some_0, cs[j]),
        ),
    decreases cs.len(),
{
    let prev = ucs_expand(g, cs.drop_last(), cost, node, fr, tree);
    let c = cs.last();
    let gc = cost + g.cost_of(node, c)->Some_0;
    if j == cs.len() - 1 {
        crate::ucs::lemma_fr_insert_elems(prev.0, gc, c, (gc, c));
    } else {
        assert(cs.drop_last()[j] == cs[j]);
        lemma_ucs_expand_offers(g, cs.drop_last(), cost, node, fr, tree, j);
        crate::ucs::lemma_fr_insert_elems(
            prev.0,
            gc,
            c,
            (cost + g.cost_of(node, cs[j])->Some_0, cs[j]),
        );
    }
}

/// Every item on the frontier after an expansion was already there or is
/// one of the offered children at its discovery cost.
pub proof fn lemma_ucs_expand_elems_exact(
    g: GraphModel,
    cs: Seq<Seq<char>>,
    cost: int,
    node: Seq<char>,
    fr: Seq<(int, Seq<char>)>,
    tree: Map<(int, Seq<char>), (int, Seq<char>)>,
    y: (int, Seq<char>),
)
    requires
        ucs_expand(g, cs, cost, node, fr, tree).0.contains(y),
    ensures
        fr.contains(y) || exists|j: int|
            0 <= j < cs.len() && y == (cost + g.cost_of(node, #[trigger] cs[j])->Some_0, cs[j]),
    decreases cs.len(),
{
    if cs.len() > 0 {
        let prev = ucs_expand(g, cs.drop_last(), cost, node, fr, tree);
        let c = cs.last();
        let gc = cost + g.cost_of(node, c)->Some_0;
        crate::ucs::lemma_fr_insert_elems(prev.0, gc, c, y);
        if y == (gc, c) {
            assert(cs[cs.len() - 1] == c);
        } else {
            lemma_ucs_expand_elems_exact(g, cs.drop_last(), cost, node, fr, tree, y);
            if !fr.contains(y) {
                let j = choose|j: int|
                    0 <= j < cs.drop_last().len() && y == (cost + g.cost_of(
                        node,
                        #[trigger] cs.drop_last()[j],
                    )->Some_0, cs.drop_last()[j]);
                assert(cs[j] == cs.drop_last()[j]);
            }
        }
    }
}

/// The finalized vertices carry exact settled costs: each is a non-goal
/// vertex with a recorded cost that some walk from `s` attains.
pub open spec fn settled_sound(
    g: GraphModel,
    s: Seq<char>,
    exl: Seq<Seq<char>>,
    d: Map<Seq<char>, int>,
) -> bool {
    forall|u: Seq<char>| #[trigger]
        exl.contains(u) ==> d.dom().contains(u) && !g.is_goal_spec(u) && (exists|
            q: Seq<Seq<char>>,
        |
            is_path(g, q) && q.first() == s && q.last() == u && #[trigger] path_cost(g, q)
                == d[u])
}

/// The finalized vertices are settled at their cheapest: no walk from `s`
/// beats a finalized vertex's recorded cost.
pub open spec fn settled_optimal(
    g: GraphModel,
    s: Seq<char>,
    exl: Seq<Seq<char>>,
    d: Map<Seq<char>, int>,
) -> bool {
    forall|u: Seq<char>, q: Seq<Seq<char>>|
        #![trigger exl.contains(u), path_cost(g, q)]
        exl.contains(u) && is_path(g, q) && q.first() == s && q.last() == u ==> path_cost(g, q)
            >= d[u]
}

/// Every edge leaving a finalized vertex has been accounted for: a
/// finalized head is already at most as expensive, an open head sits on
/// the frontier at no more than the relaxed cost.
pub open spec fn edges_relaxed(
    g: GraphModel,
    exl: Seq<Seq<char>>,
    fr: Seq<(int, Seq<char>)>,
    d: Map<Seq<char>, int>,
) -> bool {
    forall|u: Seq<char>, x: Seq<char>|
        #![trigger exl.contains(u), g.targets_of(u).contains(x)]
        exl.contains(u) && g.targets_of(u).contains(x) ==> {
            &&& (exl.contains(x) ==> d[x] <= d[u] + g.cost_of(u, x)->Some_0)
            &&& (!exl.contains(x) ==> exists|i: int|
                0 <= i < fr.len() && (#[trigger] fr[i]).1 == x && fr[i].0 <= d[u] + g.cost_of(
                    u,
                    x,
                )->Some_0)
        }
}

/// Every frontier item's cost is attained by some walk from `s` to its
/// vertex.
pub open spec fn frontier_sound(g: GraphModel, s: Seq<char>, fr: Seq<(int, Seq<char>)>) -> bool {
    forall|i: int|
        0 <= i < fr.len() ==> exists|q: Seq<Seq<char>>|
            is_path(g, q) && q.first() == s && q.last() == (#[trigger] fr[i]).1 && path_cost(g, q)
                == fr[i].0
}

/// The start vertex is finalized or still on the frontier at cost zero.
pub open spec fn start_covered(s: Seq<char>, exl: Seq<Seq<char>>, fr: Seq<(int, Seq<char>)>) -> bool {
    exl.contains(s) || exists|i: int| 0 <= i < fr.len() && (#[trigger] fr[i]).1 == s && fr[i].0 <= 0
}

/// No frontier item is cheaper than a settled cost: pops never get
/// cheaper.
pub open spec fn settled_below(
    exl: Seq<Seq<char>>,
    fr: Seq<(int, Seq<char>)>,
    d: Map<Seq<char>, int>,
) -> bool {
    forall|i: int, u: Seq<char>|
        #![trigger fr[i], exl.contains(u)]
        0 <= i < fr.len() && exl.contains(u) ==> d[u] <= fr[i].0
}

/// Under the relaxation invariants, no walk from `s` to an open vertex is
/// cheaper than the next pop.
pub proof fn lemma_path_lower_bound(
    g: GraphModel,
    exl: Seq<Seq<char>>,
    fr: Seq<(int, Seq<char>)>,
    s: Seq<char>,
    d: Map<Seq<char>, int>,
    q: Seq<Seq<char>>,
)
    requires
        g.wf(),
        weights_ok(g),
        fr.len() >= 1,
        fr_sorted(fr),
        edges_relaxed(g, exl, fr, d),
        start_covered(s, exl, fr),
        settled_optimal(g, s, exl, d),
        is_path(g, q),
        q.first() == s,
        !exl.contains(q.last()),
    ensures
        path_cost(g, q) >= fr.last().0,
{
    let m = first_out(exl, q);
    lemma_first_out(exl, q);
    assert(forall|i: int| 0 <= i < fr.len() ==> (#[trigger] fr[i]).0 >= fr[fr.len() - 1].0);
    if m == 0 {
        assert(!exl.contains(s));
        let i = choose|i: int| 0 <= i < fr.len() && (#[trigger] fr[i]).1 == s && fr[i].0 <= 0;
        lemma_path_cost_prefix(g, q, 1);
        assert(path_cost(g, q.take(1)) == 0);
        assert(fr.last().0 <= fr[i].0);
    } else {
        let u = q[m - 1];
        let x = q[m];
        assert(exl.contains(u));
        assert(g.targets_of(u).contains(x));
        assert(!exl.contains(x));
        let i = choose|i: int|
            0 <= i < fr.len() && (#[trigger] fr[i]).1 == x && fr[i].0 <= d[u] + g.cost_of(
                u,
                x,
            )->Some_0;
        let pre = q.take(m);
        assert(is_path(g, pre)) by {
            assert forall|k: int| 0 <= k < pre.len() - 1 implies g.targets_of(
                #[trigger] pre[k],
            ).contains(pre[k + 1]) by {
                assert(pre[k] == q[k] && pre[k + 1] == q[k + 1]);
            }
        }
        assert(pre.first() == s);
        assert(pre.last() == u);
        assert(path_cost(g, pre) >= d[u]);
        lemma_path_cost_prefix(g, q, m + 1);
        assert(q.take(m + 1).drop_last() =~= pre);
        assert(q.take(m + 1).last() == x);
        assert(q.take(m + 1)[m - 1] == u);
        assert(path_cost(g, q.take(m + 1)) == path_cost(g, pre) + g.cost_of(u, x)->Some_0);
        assert(fr.last().0 <= fr[i].0);
    }
}

/// What a run of the uniform-cost loop returns under the relaxation
/// invariants: a success names a goal vertex together with the exact cost
/// of a walk to it, and no walk from `s` to any goal vertex is cheaper.
pub proof fn lemma_ucs_loop_optimal(
    g: GraphModel,
    exl: Seq<Seq<char>>,
    fr: Seq<(int, Seq<char>)>,
    tree: Map<(int, Seq<char>), (int, Seq<char>)>,
    s: Seq<char>,
    d: Map<Seq<char>, int>,
)
    requires
        g.wf(),
        weights_ok(g),
        exl.to_set().subset_of(g.vkeys().to_set()),
        forall|i: int| 0 <= i < fr.len() ==> g.vkeys().contains((#[trigger] fr[i]).1),
        fr_sorted(fr),
        settled_sound(g, s, exl, d),
        settled_optimal(g, s, exl, d),
        edges_relaxed(g, exl, fr, d),
        frontier_sound(g, s, fr),
        start_covered(s, exl, fr),
        settled_below(exl, fr, d),
    ensures
        ucs_loop(g, exl, fr, tree) matches Ok(p) ==> g.is_goal_spec(p.0.1) && (exists|
            q: Seq<Seq<char>>,
        |
            is_path(g, q) && q.first() == s && q.last() == p.0.1 && #[trigger] path_cost(g, q)
                == p.0.0) && (forall|q: Seq<Seq<char>>|
            is_path(g, q) && q.first() == s && g.is_goal_spec(q.last()) ==> #[trigger] path_cost(
                g,
                q,
            ) >= p.0.0),
    decreases g.vkeys().to_set().difference(exl.to_set()).len(), fr.len(),
{
    broadcast use seq_to_set_is_finite;
    broadcast use vstd::set::group_set_axioms;

    if fr.len() == 0 {
    } else {
        let top = fr.last();
        let rest = fr.drop_last();
        assert(g.vkeys().contains(top.1)) by {
            assert(fr[fr.len() - 1] == top);
        }
        assert(forall|i: int| 0 <= i < rest.len() ==> rest[i] == fr[i]);
        assert(forall|i: int| 0 <= i < fr.len() ==> (#[trigger] fr[i]).0 >= fr[fr.len() - 1].0);
        if exl.contains(top.1) {
            assert(fr_sorted(rest));
            assert(edges_relaxed(g, exl, rest, d)) by {
                assert forall|u: Seq<char>, x: Seq<char>|
                    #![trigger exl.contains(u), g.targets_of(u).contains(x)]
                    exl.contains(u) && g.targets_of(u).contains(x) && !exl.contains(
                        x,
                    ) implies exists|i: int|
                    0 <= i < rest.len() && (#[trigger] rest[i]).1 == x && rest[i].0 <= d[u]
                        + g.cost_of(u, x)->Some_0 by {
                    let i = choose|i: int|
                        0 <= i < fr.len() && (#[trigger] fr[i]).1 == x && fr[i].0 <= d[u]
                            + g.cost_of(u, x)->Some_0;
                    assert(i < fr.len() - 1);
                    assert(rest[i] == fr[i]);
                }
            }
            assert(start_covered(s, exl, rest)) by {
                if !exl.contains(s) {
                    let i = choose|i: int|
                        0 <= i < fr.len() && (#[trigger] fr[i]).1 == s && fr[i].0 <= 0;
                    assert(i < fr.len() - 1);
                    assert(rest[i] == fr[i]);
                }
            }
            lemma_ucs_loop_optimal(g, exl, rest, tree, s, d);
        } else if g.is_goal_spec(top.1) {
            assert(fr[fr.len() - 1] == top);
            assert forall|q: Seq<Seq<char>>|
                is_path(g, q) && q.first() == s && g.is_goal_spec(q.last()) implies #[trigger]
            path_cost(g, q) >= top.0 by {
                assert(!exl.contains(q.last()));
                lemma_path_lower_bound(g, exl, fr, s, d, q);
            }
        } else {
            let exl2 = exl.push(top.1);
            let cs = g.targets_of(top.1).filter(|t: Seq<char>| !exl2.contains(t));
            let next = ucs_expand(g, cs, top.0, top.1, rest, tree);
            let d2 = d.insert(top.1, top.0);
            assert(!exl.contains(top.1));
            assert(forall|u: Seq<char>| #[trigger] exl.contains(u) ==> u != top.1 && d2[u] == d[u]);
            assert(forall|u: Seq<char>| #[trigger]
                exl2.contains(u) ==> exl.contains(u) || u == top.1) by {
                assert forall|u: Seq<char>| #[trigger] exl2.contains(u) implies exl.contains(u)
                    || u == top.1 by {
                    let i = choose|i: int| 0 <= i < exl2.len() && exl2[i] == u;
                    if i < exl.len() {
                        assert(exl[i] == u);
                    }
                }
            }
            assert(exl2.contains(top.1)) by {
                assert(exl2[exl.len() as int] == top.1);
            }
            assert(forall|u: Seq<char>| exl.contains(u) ==> #[trigger] exl2.contains(u)) by {
                assert forall|u: Seq<char>| exl.contains(u) implies #[trigger] exl2.contains(
                    u,
                ) by {
                    let i = choose|i: int| 0 <= i < exl.len() && exl[i] == u;
                    assert(exl2[i] == u);
                }
            }
            // The popped item's cost is attained by a real walk.
            assert(exists|q: Seq<Seq<char>>|
                is_path(g, q) && q.first() == s && q.last() == top.1 && #[trigger] path_cost(g, q)
                    == top.0) by {
                assert(fr[fr.len() - 1] == top);
            }
            // Children are real edge targets with defined, non-negative weights.
            lemma_targets_labeled(g, top.1);
            assert forall|j: int| 0 <= j < cs.len() implies g.targets_of(top.1).contains(
                #[trigger] cs[j],
            ) && !exl2.contains(cs[j]) && g.cost_of(top.1, cs[j]) is Some && 0 <= g.cost_of(
                top.1,
                cs[j],
            )->Some_0 by {
                lemma_filter_sub(g.targets_of(top.1), |t: Seq<char>| !exl2.contains(t), j);
                Seq::lemma_filter_pred(g.targets_of(top.1), |t: Seq<char>| !exl2.contains(t), j);
                crate::graph::lemma_assoc_get_some_iff(g.adj_of(top.1), cs[j]);
                assert(crate::graph::akeys(g.adj_of(top.1)) =~= g.targets_of(top.1));
                crate::ucs::lemma_weight_in_range(g, top.1, cs[j]);
            }
            // New settled facts for the finalized vertex.
            assert(settled_sound(g, s, exl2, d2));
            assert(settled_optimal(g, s, exl2, d2)) by {
                assert forall|u: Seq<char>, q: Seq<Seq<char>>|
                    #![trigger exl2.contains(u), path_cost(g, q)]
                    exl2.contains(u) && is_path(g, q) && q.first() == s && q.last()
                        == u implies path_cost(g, q) >= d2[u] by {
                    if u == top.1 {
                        lemma_path_lower_bound(g, exl, fr, s, d, q);
                    } else {
                        assert(exl.contains(u));
                        assert(path_cost(g, q) >= d[u]);
                    }
                }
            }
            // Sortedness and the when-conditions of the next state.
            assert(fr_sorted(rest));
            lemma_ucs_expand_sorted(g, cs, top.0, top.1, rest, tree);
            lemma_ucs_expand_elems(g, cs, top.0, top.1, rest, tree);
            assert forall|i: int| 0 <= i < next.0.len() implies g.vkeys().contains(
                (#[trigger] next.0[i]).1,
            ) by {
                if cs.contains(next.0[i].1) {
                    let n = choose|n: int| 0 <= n < cs.len() && cs[n] == next.0[i].1;
                } else {
                    let m = choose|m: int| 0 <= m < rest.len() && rest[m] == next.0[i];
                }
            }
            // Relaxation of every edge out of the finalized vertex, and
            // survival of every older witness.
            assert(edges_relaxed(g, exl2, next.0, d2)) by {
                assert forall|u: Seq<char>, x: Seq<char>|
                    #![trigger exl2.contains(u), g.targets_of(u).contains(x)]
                    exl2.contains(u) && g.targets_of(u).contains(x) implies {
                    &&& (exl2.contains(x) ==> d2[x] <= d2[u] + g.cost_of(u, x)->Some_0)
                    &&& (!exl2.contains(x) ==> exists|i: int|
                        0 <= i < next.0.len() && (#[trigger] next.0[i]).1 == x && next.0[i].0
                            <= d2[u] + g.cost_of(u, x)->Some_0)
                } by {
                    assert(g.cost_of(u, x) is Some && 0 <= g.cost_of(u, x)->Some_0) by {
                        crate::graph::lemma_assoc_get_some_iff(g.adj_of(u), x);
                        assert(crate::graph::akeys(g.adj_of(u)) =~= g.targets_of(u));
                        crate::ucs::lemma_weight_in_range(g, u, x);
                    }
                    let w = g.cost_of(u, x)->Some_0;
                    if u == top.1 {
                        if exl2.contains(x) {
                            if x == top.1 {
                            } else {
                                assert(exl.contains(x));
                                assert(d[x] <= fr[fr.len() - 1].0);
                            }
                        } else {
                            assert(!exl2.contains(x));
                            let t = choose|t: int|
                                0 <= t < g.targets_of(u).len() && g.targets_of(u)[t] == x;
                            Seq::lemma_filter_contains(
                                g.targets_of(u),
                                |t: Seq<char>| !exl2.contains(t),
                                t,
                            );
                            let j = choose|j: int| 0 <= j < cs.len() && cs[j] == x;
                            lemma_ucs_expand_offers(g, cs, top.0, top.1, rest, tree, j);
                            let i = choose|i: int|
                                0 <= i < next.0.len() && next.0[i] == (top.0 + g.cost_of(
                                    top.1,
                                    cs[j],
                                )->Some_0, cs[j]);
                        }
                    } else {
                        assert(exl.contains(u));
                        if exl2.contains(x) {
                            if x == top.1 {
                                let i = choose|i: int|
                                    0 <= i < fr.len() && (#[trigger] fr[i]).1 == x && fr[i].0
                                        <= d[u] + w;
                                assert(fr[fr.len() - 1].0 <= fr[i].0);
                            } else {
                                assert(exl.contains(x));
                            }
                        } else {
                            let i = choose|i: int|
                                0 <= i < fr.len() && (#[trigger] fr[i]).1 == x && fr[i].0 <= d[u]
                                    + w;
                            assert(i < fr.len() - 1);
                            assert(rest[i] == fr[i]);
                            assert(rest.contains(fr[i]));
                            lemma_ucs_expand_keeps(g, cs, top.0, top.1, rest, tree, fr[i]);
                            let i2 = choose|i2: int|
                                0 <= i2 < next.0.len() && next.0[i2] == fr[i];
                        }
                    }
                }
            }
            // Every item of the next frontier has a sound cost.
            assert(frontier_sound(g, s, next.0)) by {
                assert forall|i: int| 0 <= i < next.0.len() implies exists|q: Seq<Seq<char>>|
                    is_path(g, q) && q.first() == s && q.last() == (#[trigger] next.0[i]).1
                        && path_cost(g, q) == next.0[i].0 by {
                    lemma_ucs_expand_elems_exact(g, cs, top.0, top.1, rest, tree, next.0[i]);
                    if rest.contains(next.0[i]) {
                        let m = choose|m: int| 0 <= m < rest.len() && rest[m] == next.0[i];
                        assert(fr[m] == next.0[i]);
                    } else {
                        let j = choose|j: int|
                            0 <= j < cs.len() && next.0[i] == (top.0 + g.cost_of(
                                top.1,
                                #[trigger] cs[j],
                            )->Some_0, cs[j]);
                        let q0 = choose|q0: Seq<Seq<char>>|
                            is_path(g, q0) && q0.first() == s && q0.last() == top.1
                                && #[trigger] path_cost(g, q0) == top.0;
                        let q1 = q0.push(cs[j]);
                        lemma_path_cost_push(g, q0, cs[j]);
                        assert(is_path(g, q1)) by {
                            assert forall|k: int| 0 <= k < q1.len() - 1 implies g.targets_of(
                                #[trigger] q1[k],
                            ).contains(q1[k + 1]) by {
                                if k < q0.len() - 1 {
                                    assert(q1[k] == q0[k] && q1[k + 1] == q0[k + 1]);
                                } else {
                                    assert(q1[k] == q0.last() && q1[k + 1] == cs[j]);
                                }
                            }
                        }
                        assert(q1.first() == q0.first());
                        assert(q1.last() == cs[j]);
                    }
                }
            }
            // The start vertex stays covered.
            assert(start_covered(s, exl2, next.0)) by {
                if !exl.contains(s) && s != top.1 {
                    let i = choose|i: int|
                        0 <= i < fr.len() && (#[trigger] fr[i]).1 == s && fr[i].0 <= 0;
                    assert(i < fr.len() - 1);
                    assert(rest[i] == fr[i]);
                    assert(rest.contains(fr[i]));
                    lemma_ucs_expand_keeps(g, cs, top.0, top.1, rest, tree, fr[i]);
                    let i2 = choose|i2: int| 0 <= i2 < next.0.len() && next.0[i2] == fr[i];
                    assert(!exl2.contains(s));
                }
            }
            // Settled costs stay below every frontier cost.
            assert(settled_below(exl2, next.0, d2)) by {
                assert forall|i: int, u: Seq<char>|
                    #![trigger next.0[i], exl2.contains(u)]
                    0 <= i < next.0.len() && exl2.contains(u) implies d2[u] <= next.0[i].0 by {
                    lemma_ucs_expand_elems_exact(g, cs, top.0, top.1, rest, tree, next.0[i]);
                    if rest.contains(next.0[i]) {
                        let m = choose|m: int| 0 <= m < rest.len() && rest[m] == next.0[i];
                        assert(fr[m] == next.0[i]);
                        if u == top.1 {
                            assert(fr[m].0 >= fr[fr.len() - 1].0);
                        } else {
                            assert(d[u] <= fr[m].0);
                        }
                    } else {
                        let j = choose|j: int|
                            0 <= j < cs.len() && next.0[i] == (top.0 + g.cost_of(
                                top.1,
                                #[trigger] cs[j],
                            )->Some_0, cs[j]);
                        if u == top.1 {
                        } else {
                            assert(d[u] <= fr[fr.len() - 1].0);
                        }
                    }
                }
            }
            // Termination bookkeeping.
            assert(exl2.to_set() =~= exl.to_set().insert(top.1));
            g.vkeys().to_set().lemma_set_insert_diff_decreases(exl.to_set(), top.1);
            lemma_ucs_loop_optimal(g, exl2, next.0, next.1, s, d2);
        }
    }
}

/// Cost optimality of uniform-cost search, with non-negative weights: a
/// returned solution's cost is attained by a real walk from the start to
/// the returned goal vertex, and no walk from the start to any goal
/// vertex costs less.
pub proof fn lemma_ucs_optimal(g: GraphModel)
    requires
        g.wf(),
        weights_ok(g),
        ucs_spec(g) is Ok,
    ensures
        g.is_goal_spec(ucs_spec(g)->Ok_0.0.1),
        exists|q: Seq<Seq<char>>|
            is_path(g, q) && q.first() == g.start_of()->Some_0 && q.last() == ucs_spec(
                g,
            )->Ok_0.0.1 && #[trigger] path_cost(g, q) == ucs_spec(g)->Ok_0.0.0,
        forall|q: Seq<Seq<char>>|
            is_path(g, q) && q.first() == g.start_of()->Some_0 && g.is_goal_spec(q.last())
                ==> #[trigger] path_cost(g, q) >= ucs_spec(g)->Ok_0.0.0,
{
    let s = g.start_of()->Some_0;
    lemma_find_start_in_keys(g.labels);
    let fr0 = seq![(0int, s)];
    assert(Seq::<Seq<char>>::empty().to_set() =~= Set::<Seq<char>>::empty());
    assert forall|i: int| 0 <= i < fr0.len() implies g.vkeys().contains(
        (#[trigger] fr0[i]).1,
    ) by {
        assert(fr0[i] == (0int, s));
    }
    assert(frontier_sound(g, s, fr0)) by {
        assert forall|i: int| 0 <= i < fr0.len() implies exists|q: Seq<Seq<char>>|
            is_path(g, q) && q.first() == s && q.last() == (#[trigger] fr0[i]).1 && path_cost(g, q)
                == fr0[i].0 by {
            let q = seq![s];
            assert(is_path(g, q) && q.first() == s && q.last() == s);
            assert(path_cost(g, q) == 0);
            assert(fr0[i] == (0int, s));
        }
    }
    assert(start_covered(s, Seq::empty(), fr0)) by {
        assert(fr0[0].1 == s && fr0[0].0 <= 0);
    }
    lemma_ucs_loop_optimal(g, Seq::empty(), fr0, Map::empty(), s, Map::empty());
}

/// Every vertex of a walk rooted in a goal-free, expansion-closed set
/// stays in the set, so the walk never reaches a goal.
pub proof fn lemma_closed_path(g: GraphModel, done: Seq<Seq<char>>, q: Seq<Seq<char>>)
    requires
        forall|u: Seq<char>| #[trigger]
            done.contains(u) ==> !g.is_goal_spec(u) && (forall|j: int|
                0 <= j < g.targets_of(u).len() ==> done.contains(#[trigger] g.targets_of(u)[j])),
        is_path(g, q),
        done.contains(q.first()),
    ensures
        done.contains(q.last()),
        !g.is_goal_spec(q.last()),
    decreases q.len(),
{
    if q.len() > 1 {
        let r = q.drop_last();
        assert(is_path(g, r)) by {
            assert forall|i: int| 0 <= i < r.len() - 1 implies g.targets_of(
                #[trigger] r[i],
            ).contains(r[i + 1]) by {
                assert(r[i] == q[i] && r[i + 1] == q[i + 1]);
            }
        }
        assert(r.first() == q.first());
        lemma_closed_path(g, done, r);
        assert(g.targets_of(q[q.len() - 2]).contains(q.last()));
        assert(r.last() == q[q.len() - 2]);
        let u = q[q.len() - 2];
        let j = choose|j: int| 0 <= j < g.targets_of(u).len() && g.targets_of(u)[j] == q.last();
    }
}

/// The visited list is expansion-closed off the frontier: every visited
/// vertex is still pending on the frontier, or is a non-goal vertex all
/// of whose targets are visited.
pub open spec fn eql_closed(g: GraphModel, eql: Seq<Seq<char>>, fr: Seq<Seq<char>>) -> bool {
    forall|u: Seq<char>| #[trigger]
        eql.contains(u) ==> fr.contains(u) || (!g.is_goal_spec(u) && (forall|j: int|
            0 <= j < g.targets_of(u).len() ==> eql.contains(#[trigger] g.targets_of(u)[j])))
}

/// When the shared loop exhausts its frontier, nothing reachable from a
/// visited vertex is a goal.
pub proof fn lemma_search_loop_complete(
    g: GraphModel,
    lifo: bool,
    eql: Seq<Seq<char>>,
    fr: Seq<Seq<char>>,
    tree: Map<Seq<char>, Seq<char>>,
)
    requires
        g.wf(),
        eql.to_set().subset_of(g.vkeys().to_set()),
        eql_closed(g, eql, fr),
    ensures
        search_loop(g, lifo, eql, fr, tree) is Err ==> forall|q: Seq<Seq<char>>|
            is_path(g, q) && eql.contains(q.first()) ==> !g.is_goal_spec(#[trigger] q.last()),
    decreases g.vkeys().to_set().difference(eql.to_set()).len(), fr.len(),
{
    if fr.len() == 0 {
        if search_loop(g, lifo, eql, fr, tree) is Err {
            assert forall|q: Seq<Seq<char>>|
                is_path(g, q) && eql.contains(q.first()) implies !g.is_goal_spec(
                #[trigger] q.last(),
            ) by {
                lemma_closed_path(g, eql, q);
            }
        }
    } else {
        let node = if lifo {
            fr.last()
        } else {
            fr.first()
        };
        let rest = if lifo {
            fr.drop_last()
        } else {
            fr.drop_first()
        };
        if g.is_goal_spec(node) {
        } else {
            let cs = step_children(g, eql, node);
            let order = if lifo {
                cs.reverse()
            } else {
                cs
            };
            lemma_children_ok(g, eql, node);
            assert forall|j: int| 0 <= j < order.len() implies g.vkeys().contains(
                #[trigger] order[j],
            ) && !eql.contains(order[j]) by {
                if lifo {
                    assert(order[j] == cs[cs.len() - 1 - j]);
                }
            }
            lemma_expand_decreases(g, eql, order);
            if order.len() == 0 {
                assert(eql + order =~= eql);
            }
            let eql2 = eql + order;
            let fr2 = rest + order;
            assert(eql_closed(g, eql2, fr2)) by {
                assert forall|u: Seq<char>| #[trigger] eql2.contains(u) implies fr2.contains(u)
                    || (!g.is_goal_spec(u) && (forall|j: int|
                    0 <= j < g.targets_of(u).len() ==> eql2.contains(
                        #[trigger] g.targets_of(u)[j],
                    ))) by {
                    lemma_add_contains(eql, order, u);
                    lemma_add_contains(rest, order, u);
                    if order.contains(u) {
                    } else if u == node {
                        assert forall|j: int| 0 <= j < g.targets_of(u).len() implies eql2.contains(
                            #[trigger] g.targets_of(u)[j],
                        ) by {
                            let x = g.targets_of(u)[j];
                            lemma_add_contains(eql, order, x);
                            if !eql.contains(x) {
                                Seq::lemma_filter_contains(
                                    g.targets_of(node),
                                    |t: Seq<char>| !eql.contains(t),
                                    j,
                                );
                                crate::vid::lemma_sort_contains(
                                    g.targets_of(node).filter(|t: Seq<char>| !eql.contains(t)),
                                    x,
                                );
                                assert(cs.contains(x));
                                if lifo {
                                    let n = choose|n: int| 0 <= n < cs.len() && cs[n] == x;
                                    assert(order[cs.len() - 1 - n] == x);
                                }
                                assert(order.contains(x));
                            }
                        }
                    } else if eql.contains(u) {
                        if fr.contains(u) {
                            let i = choose|i: int| 0 <= i < fr.len() && fr[i] == u;
                            if lifo {
                                assert(i < fr.len() - 1);
                                assert(rest[i] == u);
                            } else {
                                assert(i > 0);
                                assert(rest[i - 1] == u);
                            }
                            assert(rest.contains(u));
                        } else {
                            assert forall|j: int|
                                0 <= j < g.targets_of(u).len() implies eql2.contains(
                                #[trigger] g.targets_of(u)[j],
                            ) by {
                                lemma_add_contains(eql, order, g.targets_of(u)[j]);
                            }
                        }
                    }
                }
            }
            lemma_search_loop_complete(g, lifo, eql2, fr2, tree_with(tree, order, node));
            if search_loop(g, lifo, eql, fr, tree) is Err {
                assert forall|q: Seq<Seq<char>>|
                    is_path(g, q) && eql.contains(q.first()) implies !g.is_goal_spec(
                    #[trigger] q.last(),
                ) by {
                    lemma_add_contains(eql, order, q.first());
                }
            }
        }
    }
}

/// Completeness of depth-first and breadth-first search: when some goal
/// vertex is reachable from the start vertex, the search succeeds.
pub proof fn lemma_reachable_goal_found(g: GraphModel, lifo: bool)
    requires
        g.wf(),
        g.start_of() is Some,
        exists|v: Seq<char>|
            reachable(g, g.start_of()->Some_0, v) && #[trigger] g.is_goal_spec(v),
    ensures
        search_spec(g, lifo) is Ok,
{
    let s = g.start_of()->Some_0;
    lemma_find_start_in_keys(g.labels);
    assert forall|x: Seq<char>| seq![s].to_set().contains(x) implies g.vkeys().to_set().contains(
        x,
    ) by {
        let i = choose|i: int| 0 <= i < seq![s].len() && seq![s][i] == x;
        assert(x == s);
    }
    assert(eql_closed(g, seq![s], seq![s])) by {
        assert forall|u: Seq<char>| #[trigger] seq![s].contains(u) implies seq![s].contains(u) by {
        }
    }
    lemma_search_loop_complete(g, lifo, seq![s], seq![s], Map::empty());
    if search_spec(g, lifo) is Err {
        let v = choose|v: Seq<char>| reachable(g, s, v) && #[trigger] g.is_goal_spec(v);
        let q = choose|q: Seq<Seq<char>>| is_path(g, q) && q.first() == s && q.last() == v;
        assert(seq![s].contains(q.first())) by {
            assert(seq![s][0] == s);
        }
    }
}

/// Whether some frontier item is pending for a vertex.
pub open spec fn fr_has(fr: Seq<(int, Seq<char>)>, x: Seq<char>) -> bool {
    exists|i: int| 0 <= i < fr.len() && (#[trigger] fr[i]).1 == x
}

/// The finalized list is expansion-closed off the frontier: every
/// finalized vertex is a non-goal vertex each of whose targets is
/// finalized or pending.
pub open spec fn exl_closed(g: GraphModel, exl: Seq<Seq<char>>, fr: Seq<(int, Seq<char>)>) -> bool {
    forall|u: Seq<char>| #[trigger]
        exl.contains(u) ==> !g.is_goal_spec(u) && (forall|j: int|
            0 <= j < g.targets_of(u).len() ==> exl.contains(#[trigger] g.targets_of(u)[j])
                || fr_has(fr, g.targets_of(u)[j]))
}

/// When the uniform-cost loop exhausts its frontier, nothing reachable
/// from the start vertex is a goal.
pub proof fn lemma_ucs_loop_complete(
    g: GraphModel,
    exl: Seq<Seq<char>>,
    fr: Seq<(int, Seq<char>)>,
    tree: Map<(int, Seq<char>), (int, Seq<char>)>,
    s: Seq<char>,
)
    requires
        g.wf(),
        exl.to_set().subset_of(g.vkeys().to_set()),
        forall|i: int| 0 <= i < fr.len() ==> g.vkeys().contains((#[trigger] fr[i]).1),
        exl_closed(g, exl, fr),
        exl.contains(s) || fr_has(fr, s),
    ensures
        ucs_loop(g, exl, fr, tree) is Err ==> forall|q: Seq<Seq<char>>|
            is_path(g, q) && q.first() == s ==> !g.is_goal_spec(#[trigger] q.last()),
    decreases g.vkeys().to_set().difference(exl.to_set()).len(), fr.len(),
{
    broadcast use seq_to_set_is_finite;
    broadcast use vstd::set::group_set_axioms;

    if fr.len() == 0 {
        if ucs_loop(g, exl, fr, tree) is Err {
            assert(exl.contains(s));
            assert forall|q: Seq<Seq<char>>| is_path(g, q) && q.first() == s implies !g
                .is_goal_spec(#[trigger] q.last()) by {
                assert forall|u: Seq<char>| #[trigger] exl.contains(u) implies !g.is_goal_spec(u)
                    && (forall|j: int|
                    0 <= j < g.targets_of(u).len() ==> exl.contains(
                        #[trigger] g.targets_of(u)[j],
                    )) by {
                    assert forall|j: int| 0 <= j < g.targets_of(u).len() implies exl.contains(
                        #[trigger] g.targets_of(u)[j],
                    ) by {
                        assert(!fr_has(fr, g.targets_of(u)[j]));
                    }
                }
                lemma_closed_path(g, exl, q);
            }
        }
    } else {
        let top = fr.last();
        let rest = fr.drop_last();
        assert(g.vkeys().contains(top.1)) by {
            assert(fr[fr.len() - 1] == top);
        }
        assert(forall|i: int| 0 <= i < rest.len() ==> rest[i] == fr[i]);
        if exl.contains(top.1) {
            assert(exl_closed(g, exl, rest)) by {
                assert forall|u: Seq<char>| #[trigger] exl.contains(u) implies !g.is_goal_spec(u)
                    && (forall|j: int|
                    0 <= j < g.targets_of(u).len() ==> exl.contains(#[trigger] g.targets_of(u)[j])
                        || fr_has(rest, g.targets_of(u)[j])) by {
                    assert forall|j: int|
                        0 <= j < g.targets_of(u).len() && !exl.contains(
                            #[trigger] g.targets_of(u)[j],
                        ) implies fr_has(rest, g.targets_of(u)[j]) by {
                        let x = g.targets_of(u)[j];
                        let i = choose|i: int| 0 <= i < fr.len() && (#[trigger] fr[i]).1 == x;
                        assert(x != top.1);
                        assert(i < fr.len() - 1);
                        assert(rest[i].1 == x);
                    }
                }
            }
            assert(exl.contains(s) || fr_has(rest, s)) by {
                if !exl.contains(s) {
                    let i = choose|i: int| 0 <= i < fr.len() && (#[trigger] fr[i]).1 == s;
                    assert(s != top.1);
                    assert(i < fr.len() - 1);
                    assert(rest[i].1 == s);
                }
            }
            lemma_ucs_loop_complete(g, exl, rest, tree, s);
        } else if g.is_goal_spec(top.1) {
        } else {
            let exl2 = exl.push(top.1);
            let cs = g.targets_of(top.1).filter(|t: Seq<char>| !exl2.contains(t));
            let next = ucs_expand(g, cs, top.0, top.1, rest, tree);
            assert(forall|u: Seq<char>| #[trigger]
                exl2.contains(u) ==> exl.contains(u) || u == top.1) by {
                assert forall|u: Seq<char>| #[trigger] exl2.contains(u) implies exl.contains(u)
                    || u == top.1 by {
                    let i = choose|i: int| 0 <= i < exl2.len() && exl2[i] == u;
                    if i < exl.len() {
                        assert(exl[i] == u);
                    }
                }
            }
            assert(exl2.contains(top.1)) by {
                assert(exl2[exl.len() as int] == top.1);
            }
            assert(forall|u: Seq<char>| exl.contains(u) ==> #[trigger] exl2.contains(u)) by {
                assert forall|u: Seq<char>| exl.contains(u) implies #[trigger] exl2.contains(
                    u,
                ) by {
                    let i = choose|i: int| 0 <= i < exl.len() && exl[i] == u;
                    assert(exl2[i] == u);
                }
            }
            lemma_targets_labeled(g, top.1);
            lemma_ucs_expand_elems(g, cs, top.0, top.1, rest, tree);
            assert forall|i: int| 0 <= i < next.0.len() implies g.vkeys().contains(
                (#[trigger] next.0[i]).1,
            ) by {
                if cs.contains(next.0[i].1) {
                    let n = choose|n: int| 0 <= n < cs.len() && cs[n] == next.0[i].1;
                    lemma_filter_sub(g.targets_of(top.1), |t: Seq<char>| !exl2.contains(t), n);
                } else {
                    let m = choose|m: int| 0 <= m < rest.len() && rest[m] == next.0[i];
                }
            }
            assert(exl_closed(g, exl2, next.0)) by {
                assert forall|u: Seq<char>| #[trigger] exl2.contains(u) implies !g.is_goal_spec(u)
                    && (forall|j: int|
                    0 <= j < g.targets_of(u).len() ==> exl2.contains(#[trigger] g.targets_of(u)[j])
                        || fr_has(next.0, g.targets_of(u)[j])) by {
                    if u == top.1 {
                        assert forall|j: int|
                            0 <= j < g.targets_of(u).len() && !exl2.contains(
                                #[trigger] g.targets_of(u)[j],
                            ) implies fr_has(next.0, g.targets_of(u)[j]) by {
                            let x = g.targets_of(u)[j];
                            Seq::lemma_filter_contains(
                                g.targets_of(top.1),
                                |t: Seq<char>| !exl2.contains(t),
                                j,
                            );
                            let n = choose|n: int| 0 <= n < cs.len() && cs[n] == x;
                            lemma_ucs_expand_offers(g, cs, top.0, top.1, rest, tree, n);
                            let i = choose|i: int|
                                0 <= i < next.0.len() && next.0[i] == (top.0 + g.cost_of(
                                    top.1,
                                    cs[n],
                                )->Some_0, cs[n]);
                            assert(next.0[i].1 == x);
                        }
                    } else {
                        assert(exl.contains(u));
                        assert forall|j: int|
                            0 <= j < g.targets_of(u).len() && !exl2.contains(
                                #[trigger] g.targets_of(u)[j],
                            ) implies fr_has(next.0, g.targets_of(u)[j]) by {
                            let x = g.targets_of(u)[j];
                            assert(!exl.contains(x));
                            let i = choose|i: int| 0 <= i < fr.len() && (#[trigger] fr[i]).1 == x;
                            assert(x != top.1);
                            assert(i < fr.len() - 1);
                            assert(rest.contains(fr[i]));
                            lemma_ucs_expand_keeps(g, cs, top.0, top.1, rest, tree, fr[i]);
                            let i2 = choose|i2: int|
                                0 <= i2 < next.0.len() && next.0[i2] == fr[i];
                            assert(next.0[i2].1 == x);
                        }
                    }
                }
            }
            assert(exl2.contains(s) || fr_has(next.0, s)) by {
                if !exl2.contains(s) {
                    assert(!exl.contains(s) && s != top.1);
                    let i = choose|i: int| 0 <= i < fr.len() && (#[trigger] fr[i]).1 == s;
                    assert(i < fr.len() - 1);
                    assert(rest.contains(fr[i]));
                    lemma_ucs_expand_keeps(g, cs, top.0, top.1, rest, tree, fr[i]);
                    let i2 = choose|i2: int| 0 <= i2 < next.0.len() && next.0[i2] == fr[i];
                    assert(next.0[i2].1 == s);
                }
            }
            assert(exl2.to_set() =~= exl.to_set().insert(top.1)) by {
                assert forall|x: Seq<char>| exl2.to_set().contains(x) implies exl.to_set().insert(
                    top.1,
                ).contains(x) by {
                    assert(exl2.contains(x));
                }
                assert forall|x: Seq<char>| exl.to_set().insert(top.1).contains(x) implies exl2
                    .to_set().contains(x) by {
                    assert(exl2.contains(x));
                }
            }
            g.vkeys().to_set().lemma_set_insert_diff_decreases(exl.to_set(), top.1);
            lemma_ucs_loop_complete(g, exl2, next.0, next.1, s);
        }
    }
}

/// Completeness of uniform-cost search: when some goal vertex is
/// reachable from the start vertex, the search succeeds.
pub proof fn lemma_reachable_goal_found_ucs(g: GraphModel)
    requires
        g.wf(),
        g.start_of() is Some,
        exists|v: Seq<char>|
            reachable(g, g.start_of()->Some_0, v) && #[trigger] g.is_goal_spec(v),
    ensures
        ucs_spec(g) is Ok,
{
    let s = g.start_of()->Some_0;
    lemma_find_start_in_keys(g.labels);
    let fr0 = seq![(0int, s)];
    assert(Seq::<Seq<char>>::empty().to_set() =~= Set::<Seq<char>>::empty());
    assert forall|i: int| 0 <= i < fr0.len() implies g.vkeys().contains(
        (#[trigger] fr0[i]).1,
    ) by {
        assert(fr0[i] == (0int, s));
    }
    assert(fr_has(fr0, s)) by {
        assert(fr0[0].1 == s);
    }
    lemma_ucs_loop_complete(g, Seq::empty(), fr0, Map::empty(), s);
    if ucs_spec(g) is Err {
        let v = choose|v: Seq<char>| reachable(g, s, v) && #[trigger] g.is_goal_spec(v);
        let q = choose|q: Seq<Seq<char>>| is_path(g, q) && q.first() == s && q.last() == v;
    }
}

/// A hop-count certificate for a goal vertex: some walk from `s` reaches
/// it in `n` vertices, and no walk from `s` to any goal vertex is shorter.
pub open spec fn hop_witness(g: GraphModel, s: Seq<char>, v: Seq<char>, n: int) -> bool {
    &&& exists|p0: Seq<Seq<char>>|
        #[trigger] is_path(g, p0) && p0.first() == s && p0.last() == v && p0.len() == n
    &&& forall|q: Seq<Seq<char>>|
        #[trigger] is_path(g, q) && q.first() == s && g.is_goal_spec(q.last()) ==> q.len() >= n
}

/// What the queue-disciplined loop returns under the level invariants: a
/// success names a goal vertex reachable in as few hops as any goal
/// vertex at all. The ghost map `d` assigns each discovered vertex its
/// discovery depth; the queue holds depths in nondecreasing order spanning
/// at most two levels, and every discovered vertex's depth is a lower
/// bound on the hops of every walk to it, attained by some walk.
pub proof fn lemma_bfs_loop_optimal(
    g: GraphModel,
    eql: Seq<Seq<char>>,
    fr: Seq<Seq<char>>,
    tree: Map<Seq<char>, Seq<char>>,
    s: Seq<char>,
    d: Map<Seq<char>, int>,
)
    requires
        g.wf(),
        eql.to_set().subset_of(g.vkeys().to_set()),
        eql.contains(s),
        forall|i: int| 0 <= i < fr.len() ==> eql.contains(#[trigger] fr[i]),
        eql_closed(g, eql, fr),
        forall|v: Seq<char>| eql.contains(v) ==> d.dom().contains(v),
        forall|i: int, j: int|
            0 <= i <= j < fr.len() ==> d[#[trigger] fr[i]] <= d[#[trigger] fr[j]] <= d[fr[i]] + 1,
        forall|v: Seq<char>, q: Seq<Seq<char>>|
            #![trigger eql.contains(v), is_path(g, q)]
            eql.contains(v) && is_path(g, q) && q.first() == s && q.last() == v ==> q.len() >= d[v]
                + 1,
        forall|v: Seq<char>| #[trigger]
            eql.contains(v) ==> exists|p0: Seq<Seq<char>>|
                #[trigger] is_path(g, p0) && p0.first() == s && p0.last() == v && p0.len() == d[v]
                    + 1,
    ensures
        search_loop(g, false, eql, fr, tree) matches Ok(p) ==> exists|n: int|
            #[trigger] hop_witness(g, s, p.0, n),
    decreases g.vkeys().to_set().difference(eql.to_set()).len(), fr.len(),
{
    if fr.len() == 0 {
    } else {
        let node = fr.first();
        let rest = fr.drop_first();
        assert(eql.contains(node)) by {
            assert(fr[0] == node);
        }
        assert(forall|i: int| 0 <= i < rest.len() ==> rest[i] == fr[i + 1]);
        if g.is_goal_spec(node) {
            let n = d[node] + 1;
            assert forall|q: Seq<Seq<char>>|
                #[trigger] is_path(g, q) && q.first() == s && g.is_goal_spec(
                    q.last(),
                ) implies q.len() >= n by {
                if eql.contains(q.last()) {
                    let z = q.last();
                    if !fr.contains(z) {
                        assert(!g.is_goal_spec(z));
                    }
                    let i = choose|i: int| 0 <= i < fr.len() && fr[i] == z;
                    assert(d[fr[0]] <= d[fr[i]]);
                    assert(q.len() >= d[z] + 1);
                } else {
                    lemma_first_out(eql, q);
                    let m = first_out(eql, q);
                    assert(m >= 1) by {
                        assert(q[0] == s);
                    }
                    let u = q[m - 1];
                    assert(eql.contains(u));
                    assert(g.targets_of(u).contains(q[m]));
                    assert(fr.contains(u)) by {
                        if !fr.contains(u) {
                            let t = choose|t: int|
                                0 <= t < g.targets_of(u).len() && g.targets_of(u)[t] == q[m];
                            assert(eql.contains(g.targets_of(u)[t]));
                        }
                    }
                    let i = choose|i: int| 0 <= i < fr.len() && fr[i] == u;
                    assert(d[fr[0]] <= d[fr[i]]);
                    let pre = q.take(m);
                    assert(is_path(g, pre)) by {
                        assert forall|k: int| 0 <= k < pre.len() - 1 implies g.targets_of(
                            #[trigger] pre[k],
                        ).contains(pre[k + 1]) by {
                            assert(pre[k] == q[k] && pre[k + 1] == q[k + 1]);
                        }
                    }
                    assert(pre.first() == s && pre.last() == u);
                    assert(pre.len() >= d[u] + 1);
                }
            }
            assert(hop_witness(g, s, node, n));
            let res = search_loop(g, false, eql, fr, tree);
            assert(res == Ok::<(Seq<char>, Map<Seq<char>, Seq<char>>), SearchError>((node, tree)));
            assert(hop_witness(g, s, res->Ok_0.0, n));
        } else {
            let cs = step_children(g, eql, node);
            let order = cs;
            lemma_children_ok(g, eql, node);
            lemma_expand_decreases(g, eql, order);
            if order.len() == 0 {
                assert(eql + order =~= eql);
            }
            let eql2 = eql + order;
            let fr2 = rest + order;
            let du = d[node];
            let d2 = d.union_prefer_right(
                Map::new(|k: Seq<char>| order.contains(k), |k: Seq<char>| du + 1),
            );
            assert(forall|v: Seq<char>|
                eql.contains(v) ==> !order.contains(v) && d2[v] == d[v]) by {
                assert forall|v: Seq<char>| eql.contains(v) implies !order.contains(v) && d2[v]
                    == d[v] by {
                    if order.contains(v) {
                        let j = choose|j: int| 0 <= j < order.len() && order[j] == v;
                    }
                }
            }
            assert(forall|v: Seq<char>| order.contains(v) ==> d2.dom().contains(v) && d2[v] == du
                + 1);
            assert(eql2.contains(s)) by {
                lemma_add_contains(eql, order, s);
            }
            assert forall|i: int| 0 <= i < fr2.len() implies eql2.contains(#[trigger] fr2[i]) by {
                lemma_add_contains(eql, order, fr2[i]);
                if i < rest.len() {
                    assert(fr2[i] == fr[i + 1]);
                } else {
                    assert(fr2[i] == order[i - rest.len()]);
                    assert(order.contains(order[i - rest.len()]));
                }
            }
            // The visited list stays expansion-closed off the new frontier.
            assert(eql_closed(g, eql2, fr2)) by {
                assert forall|u: Seq<char>| #[trigger] eql2.contains(u) implies fr2.contains(u)
                    || (!g.is_goal_spec(u) && (forall|j: int|
                    0 <= j < g.targets_of(u).len() ==> eql2.contains(
                        #[trigger] g.targets_of(u)[j],
                    ))) by {
                    lemma_add_contains(eql, order, u);
                    lemma_add_contains(rest, order, u);
                    if order.contains(u) {
                    } else if u == node {
                        assert forall|j: int| 0 <= j < g.targets_of(u).len() implies eql2.contains(
                            #[trigger] g.targets_of(u)[j],
                        ) by {
                            let x = g.targets_of(u)[j];
                            lemma_add_contains(eql, order, x);
                            if !eql.contains(x) {
                                Seq::lemma_filter_contains(
                                    g.targets_of(node),
                                    |t: Seq<char>| !eql.contains(t),
                                    j,
                                );
                                crate::vid::lemma_sort_contains(
                                    g.targets_of(node).filter(|t: Seq<char>| !eql.contains(t)),
                                    x,
                                );
                            }
                        }
                    } else if eql.contains(u) {
                        if fr.contains(u) {
                            let i = choose|i: int| 0 <= i < fr.len() && fr[i] == u;
                            if i > 0 {
                                assert(rest[i - 1] == u);
                                assert(rest.contains(u));
                            } else {
                                assert(u == node);
                            }
                        } else {
                            assert forall|j: int|
                                0 <= j < g.targets_of(u).len() implies eql2.contains(
                                #[trigger] g.targets_of(u)[j],
                            ) by {
                                lemma_add_contains(eql, order, g.targets_of(u)[j]);
                            }
                        }
                    }
                }
            }
            // Depth coverage and the two-level queue window.
            assert forall|v: Seq<char>| eql2.contains(v) implies d2.dom().contains(v) by {
                lemma_add_contains(eql, order, v);
            }
            assert(d[fr[0]] == du);
            assert forall|i: int, j: int| 0 <= i <= j < fr2.len() implies d2[#[trigger] fr2[i]]
                <= d2[#[trigger] fr2[j]] <= d2[fr2[i]] + 1 by {
                if i < rest.len() {
                    assert(fr2[i] == fr[i + 1]);
                    assert(eql.contains(fr[i + 1]));
                    assert(d[fr[0]] <= d[fr[i + 1]] <= d[fr[0]] + 1);
                    if j < rest.len() {
                        assert(fr2[j] == fr[j + 1]);
                        assert(d[fr[i + 1]] <= d[fr[j + 1]] <= d[fr[i + 1]] + 1);
                    } else {
                        assert(fr2[j] == order[j - rest.len()]);
                        assert(order.contains(order[j - rest.len()]));
                    }
                } else {
                    assert(fr2[i] == order[i - rest.len()]);
                    assert(order.contains(order[i - rest.len()]));
                    assert(fr2[j] == order[j - rest.len()]);
                    assert(order.contains(order[j - rest.len()]));
                }
            }
            // Every walk to a newly discovered vertex crosses the old
            // frontier, so its depth is a true lower bound.
            assert forall|v: Seq<char>, q: Seq<Seq<char>>|
                #![trigger eql2.contains(v), is_path(g, q)]
                eql2.contains(v) && is_path(g, q) && q.first() == s && q.last()
                    == v implies q.len() >= d2[v] + 1 by {
                lemma_add_contains(eql, order, v);
                if eql.contains(v) {
                    assert(q.len() >= d[v] + 1);
                } else {
                    assert(order.contains(v));
                    assert(!eql.contains(q.last()));
                    lemma_first_out(eql, q);
                    let m = first_out(eql, q);
                    assert(m >= 1) by {
                        assert(q[0] == s);
                    }
                    let u = q[m - 1];
                    assert(eql.contains(u));
                    assert(g.targets_of(u).contains(q[m]));
                    assert(fr.contains(u)) by {
                        if !fr.contains(u) {
                            let t = choose|t: int|
                                0 <= t < g.targets_of(u).len() && g.targets_of(u)[t] == q[m];
                            assert(eql.contains(g.targets_of(u)[t]));
                        }
                    }
                    let i = choose|i: int| 0 <= i < fr.len() && fr[i] == u;
                    assert(d[fr[0]] <= d[fr[i]]);
                    let pre = q.take(m);
                    assert(is_path(g, pre)) by {
                        assert forall|k: int| 0 <= k < pre.len() - 1 implies g.targets_of(
                            #[trigger] pre[k],
                        ).contains(pre[k + 1]) by {
                            assert(pre[k] == q[k] && pre[k + 1] == q[k + 1]);
                        }
                    }
                    assert(pre.first() == s && pre.last() == u);
                    assert(pre.len() >= d[u] + 1);
                    assert(q.len() >= m + 1);
                }
            }
            // Every newly discovered vertex is reached by extending the
            // expanded vertex's realizing walk by one edge.
            assert forall|v: Seq<char>| #[trigger] eql2.contains(v) implies exists|
                p0: Seq<Seq<char>>,
            |
                #[trigger] is_path(g, p0) && p0.first() == s && p0.last() == v && p0.len() == d2[v]
                    + 1 by {
                lemma_add_contains(eql, order, v);
                if eql.contains(v) {
                    let p0 = choose|p0: Seq<Seq<char>>|
                        #[trigger] is_path(g, p0) && p0.first() == s && p0.last() == v && p0.len()
                            == d[v] + 1;
                    assert(is_path(g, p0) && p0.first() == s && p0.last() == v && p0.len() == d2[v]
                        + 1);
                } else {
                    assert(order.contains(v));
                    let pn = choose|pn: Seq<Seq<char>>|
                        #[trigger] is_path(g, pn) && pn.first() == s && pn.last() == node
                            && pn.len() == d[node] + 1;
                    let p0 = pn.push(v);
                    assert(g.targets_of(node).contains(v)) by {
                        let j = choose|j: int| 0 <= j < order.len() && order[j] == v;
                    }
                    assert(is_path(g, p0)) by {
                        assert forall|k: int| 0 <= k < p0.len() - 1 implies g.targets_of(
                            #[trigger] p0[k],
                        ).contains(p0[k + 1]) by {
                            if k < pn.len() - 1 {
                                assert(p0[k] == pn[k] && p0[k + 1] == pn[k + 1]);
                            } else {
                                assert(p0[k] == pn.last() && p0[k + 1] == v);
                            }
                        }
                    }
                    assert(p0.first() == s && p0.last() == v && p0.len() == d2[v] + 1);
                }
            }
            lemma_bfs_loop_optimal(g, eql2, fr2, tree_with(tree, order, node), s, d2);
            let res = search_loop(g, false, eql, fr, tree);
            let res2 = search_loop(g, false, eql2, fr2, tree_with(tree, order, node));
            assert(res == res2);
            if res is Ok {
                let n = choose|n: int| #[trigger] hop_witness(g, s, res2->Ok_0.0, n);
                assert(hop_witness(g, s, res->Ok_0.0, n));
            }
        }
    }
}

/// Hop-count optimality of breadth-first search: some walk realizes the
/// returned goal vertex in as few vertices as any walk from the start to
/// any goal vertex at all. Weighted cost plays no part in this bound.
pub proof fn lemma_bfs_hop_optimal(g: GraphModel)
    requires
        g.wf(),
        bfs_spec(g) is Ok,
    ensures
        exists|n: int| #[trigger] hop_witness(g, g.start_of()->Some_0, bfs_spec(g)->Ok_0.0, n),
{
    let s = g.start_of()->Some_0;
    lemma_find_start_in_keys(g.labels);
    assert forall|x: Seq<char>| seq![s].to_set().contains(x) implies g.vkeys().to_set().contains(
        x,
    ) by {
        let i = choose|i: int| 0 <= i < seq![s].len() && seq![s][i] == x;
        assert(x == s);
    }
    let d0 = Map::<Seq<char>, int>::empty().insert(s, 0);
    assert(seq![s].contains(s)) by {
        assert(seq![s][0] == s);
    }
    assert(eql_closed(g, seq![s], seq![s]));
    assert forall|v: Seq<char>, q: Seq<Seq<char>>|
        #![trigger seq![s].contains(v), is_path(g, q)]
        seq![s].contains(v) && is_path(g, q) && q.first() == s && q.last() == v implies q.len()
        >= d0[v] + 1 by {
        let i = choose|i: int| 0 <= i < seq![s].len() && seq![s][i] == v;
        assert(v == s);
    }
    assert forall|v: Seq<char>| #[trigger] seq![s].contains(v) implies exists|p0: Seq<Seq<char>>|
        #[trigger] is_path(g, p0) && p0.first() == s && p0.last() == v && p0.len() == d0[v]
            + 1 by {
        let i = choose|i: int| 0 <= i < seq![s].len() && seq![s][i] == v;
        assert(v == s);
        let p0 = seq![s];
        assert(is_path(g, p0) && p0.first() == s && p0.last() == v && p0.len() == d0[v] + 1);
    }
    lemma_bfs_loop_optimal(g, seq![s], seq![s], Map::empty(), s, d0);
}

/// Whether every parent link in a search tree is a real edge of the
/// graph: each recorded vertex is an edge target of its parent.
pub open spec fn tree_edges_ok(g: GraphModel, tree: Map<Seq<char>, Seq<char>>) -> bool {
    forall|c: Seq<char>| tree.dom().contains(c) ==> g.targets_of(#[trigger] tree[c]).contains(c)
}

/// The shared loop only ever records real edges in its search tree.
pub proof fn lemma_search_loop_tree(
    g: GraphModel,
    lifo: bool,
    eql: Seq<Seq<char>>,
    fr: Seq<Seq<char>>,
    tree: Map<Seq<char>, Seq<char>>,
)
    requires
        g.wf(),
        eql.to_set().subset_of(g.vkeys().to_set()),
        tree_edges_ok(g, tree),
    ensures
        search_loop(g, lifo, eql, fr, tree) matches Ok(p) ==> tree_edges_ok(g, p.1),
    decreases g.vkeys().to_set().difference(eql.to_set()).len(), fr.len(),
{
    if fr.len() == 0 {
    } else {
        let node = if lifo {
            fr.last()
        } else {
            fr.first()
        };
        let rest = if lifo {
            fr.drop_last()
        } else {
            fr.drop_first()
        };
        if g.is_goal_spec(node) {
        } else {
            let cs = step_children(g, eql, node);
            let order = if lifo {
                cs.reverse()
            } else {
                cs
            };
            lemma_children_ok(g, eql, node);
            assert forall|j: int| 0 <= j < order.len() implies g.vkeys().contains(
                #[trigger] order[j],
            ) && !eql.contains(order[j]) && g.targets_of(node).contains(order[j]) by {
                if lifo {
                    assert(order[j] == cs[cs.len() - 1 - j]);
                }
            }
            lemma_expand_decreases(g, eql, order);
            if order.len() == 0 {
                assert(eql + order =~= eql);
            }
            let t2 = tree_with(tree, order, node);
            assert forall|c: Seq<char>| t2.dom().contains(c) implies g.targets_of(
                #[trigger] t2[c],
            ).contains(c) by {
                if order.contains(c) {
                    assert(t2[c] == node);
                    let j = choose|j: int| 0 <= j < order.len() && order[j] == c;
                } else {
                    assert(t2[c] == tree[c]);
                    assert(tree.dom().contains(c));
                }
            }
            lemma_search_loop_tree(g, lifo, eql + order, rest + order, t2);
        }
    }
}

/// Along a bounded parent walk, each vertex is an edge target of the one
/// that follows it.
pub proof fn lemma_back_walk_edges(
    g: GraphModel,
    tree: Map<Seq<char>, Seq<char>>,
    from: Seq<char>,
    fuel: nat,
)
    requires
        tree_edges_ok(g, tree),
    ensures
        forall|i: int|
            0 <= i < back_walk(tree, from, fuel).len() - 1 ==> g.targets_of(
                back_walk(tree, from, fuel)[i + 1],
            ).contains(#[trigger] back_walk(tree, from, fuel)[i]),
    decreases fuel,
{
    let w = back_walk(tree, from, fuel);
    if fuel == 0 || !tree.dom().contains(from) {
    } else {
        let sub = back_walk(tree, tree[from], (fuel - 1) as nat);
        lemma_back_walk_edges(g, tree, tree[from], (fuel - 1) as nat);
        assert forall|i: int| 0 <= i < w.len() - 1 implies g.targets_of(w[i + 1]).contains(
            #[trigger] w[i],
        ) by {
            if i == 0 {
                assert(w[0] == from);
                assert(w[1] == sub[0]);
                assert(sub[0] == tree[from]);
            } else {
                assert(w[i] == sub[i - 1]);
                assert(w[i + 1] == sub[i]);
                assert(g.targets_of(sub[i]).contains(sub[i - 1]));
            }
        }
    }
}

/// Round trip for depth-first and breadth-first search: each consecutive
/// pair of the path reconstructed from a returned solution's parent map
/// is a real edge of the graph.
pub proof fn lemma_solution_path_edges(g: GraphModel, lifo: bool)
    requires
        g.wf(),
        search_spec(g, lifo) is Ok,
    ensures
        path_spec(search_spec(g, lifo)->Ok_0.1, search_spec(g, lifo)->Ok_0.0).len() >= 1,
        path_spec(search_spec(g, lifo)->Ok_0.1, search_spec(g, lifo)->Ok_0.0).last() == search_spec(
            g,
            lifo,
        )->Ok_0.0,
        forall|i: int|
            0 <= i < path_spec(search_spec(g, lifo)->Ok_0.1, search_spec(g, lifo)->Ok_0.0).len()
                - 1 ==> g.targets_of(
                #[trigger] path_spec(
                    search_spec(g, lifo)->Ok_0.1,
                    search_spec(g, lifo)->Ok_0.0,
                )[i],
            ).contains(
                path_spec(search_spec(g, lifo)->Ok_0.1, search_spec(g, lifo)->Ok_0.0)[i + 1],
            ),
{
    let s = g.start_of()->Some_0;
    lemma_find_start_in_keys(g.labels);
    assert forall|x: Seq<char>| seq![s].to_set().contains(x) implies g.vkeys().to_set().contains(
        x,
    ) by {
        let i = choose|i: int| 0 <= i < seq![s].len() && seq![s][i] == x;
        assert(x == s);
    }
    lemma_search_loop_tree(g, lifo, seq![s], seq![s], Map::empty());
    let p = search_spec(g, lifo)->Ok_0;
    let path = path_spec(p.1, p.0);
    let w = back_walk(p.1, p.0, p.1.dom().len());
    lemma_back_walk_edges(g, p.1, p.0, p.1.dom().len());
    assert(w[0] == p.0);
    assert(path.last() == w[0]);
    assert forall|i: int| 0 <= i < path.len() - 1 implies g.targets_of(
        #[trigger] path[i],
    ).contains(path[i + 1]) by {
        assert(path[i] == w[w.len() - 1 - i]);
        assert(path[i + 1] == w[w.len() - 2 - i]);
        assert(g.targets_of(w[w.len() - 2 - i + 1]).contains(w[w.len() - 2 - i]));
    }
}

/// The position of the first occurrence of an element.
pub open spec fn first_idx<A>(s: Seq<A>, x: A) -> int
    decreases s.len(),
{
    if s.len() == 0 {
        0
    } else if s[0] == x {
        0
    } else {
        1 + first_idx(s.drop_first(), x)
    }
}

/// The first occurrence of a present element is a real position, holds
/// the element, and nothing before it does.
pub proof fn lemma_first_idx<A>(s: Seq<A>, x: A)
    requires
        s.contains(x),
    ensures
        0 <= first_idx(s, x) < s.len(),
        s[first_idx(s, x)] == x,
        forall|i: int| 0 <= i < first_idx(s, x) ==> s[i] != x,
    decreases s.len(),
{
    if s[0] != x {
        assert(s.drop_first().contains(x)) by {
            let i = choose|i: int| 0 <= i < s.len() && s[i] == x;
            assert(s.drop_first()[i - 1] == x);
        }
        lemma_first_idx(s.drop_first(), x);
        let m = first_idx(s.drop_first(), x);
        assert(s[m + 1] == s.drop_first()[m]);
        assert forall|i: int| 0 <= i < m + 1 implies s[i] != x by {
            if i > 0 {
                assert(s.drop_first()[i - 1] == s[i]);
            }
        }
    }
}

/// Appending elements does not move the first occurrence of a present
/// element.
pub proof fn lemma_first_idx_append<A>(s: Seq<A>, t: Seq<A>, x: A)
    requires
        s.contains(x),
    ensures
        first_idx(s + t, x) == first_idx(s, x),
    decreases s.len(),
{
    assert(s.len() > 0);
    assert((s + t)[0] == s[0]);
    if s[0] != x {
        assert(s.drop_first().contains(x)) by {
            let i = choose|i: int| 0 <= i < s.len() && s[i] == x;
            assert(s.drop_first()[i - 1] == x);
        }
        lemma_first_idx_append(s.drop_first(), t, x);
        assert((s + t).drop_first() =~= s.drop_first() + t);
    }
}

/// An element found only in the appended part occurs no earlier than the
/// original length.
pub proof fn lemma_first_idx_fresh<A>(s: Seq<A>, t: Seq<A>, x: A)
    requires
        !s.contains(x),
        (s + t).contains(x),
    ensures
        first_idx(s + t, x) >= s.len(),
    decreases s.len(),
{
    if s.len() == 0 {
        assert(s + t =~= t);
        lemma_first_idx(s + t, x);
    } else {
        assert((s + t)[0] == s[0]);
        assert(s[0] != x);
        assert((s + t).drop_first() =~= s.drop_first() + t);
        assert(!s.drop_first().contains(x)) by {
            if s.drop_first().contains(x) {
                let i = choose|i: int| 0 <= i < s.drop_first().len() && s.drop_first()[i] == x;
                assert(s[i + 1] == x);
            }
        }
        assert((s.drop_first() + t).contains(x)) by {
            let i = choose|i: int| 0 <= i < (s + t).len() && (s + t)[i] == x;
            assert(i > 0);
            assert((s + t).drop_first()[i - 1] == x);
        }
        lemma_first_idx_fresh(s.drop_first(), t, x);
    }
}

/// A search tree ranked by the visited list: each recorded vertex was
/// discovered strictly after its parent, the start vertex heads the list
/// and is never recorded, and every other visited vertex is recorded.
pub open spec fn tree_ranked(
    eql: Seq<Seq<char>>,
    tree: Map<Seq<char>, Seq<char>>,
    s: Seq<char>,
) -> bool {
    &&& tree.dom().finite()
    &&& eql.len() >= 1 && eql[0] == s
    &&& !tree.dom().contains(s)
    &&& forall|c: Seq<char>| #[trigger]
        tree.dom().contains(c) ==> eql.contains(c) && eql.contains(tree[c]) && first_idx(
            eql,
            tree[c],
        ) < first_idx(eql, c)
    &&& forall|u: Seq<char>| eql.contains(u) && u != s ==> #[trigger] tree.dom().contains(u)
}

/// The recorded vertices discovered strictly before a given one.
pub open spec fn ranked_before(
    eql: Seq<Seq<char>>,
    tree: Map<Seq<char>, Seq<char>>,
    u: Seq<char>,
) -> Set<Seq<char>> {
    tree.dom().filter(|c: Seq<char>| first_idx(eql, c) < first_idx(eql, u))
}

/// A bounded parent walk with enough fuel leaves the recorded vertices,
/// and in a ranked tree it can only leave at the start vertex.
pub proof fn lemma_walk_reaches_start(
    eql: Seq<Seq<char>>,
    tree: Map<Seq<char>, Seq<char>>,
    s: Seq<char>,
    v: Seq<char>,
    fuel: nat,
)
    requires
        tree_ranked(eql, tree, s),
        eql.contains(v),
        fuel >= (if tree.dom().contains(v) {
            ranked_before(eql, tree, v).len() + 1
        } else {
            0
        }),
    ensures
        back_walk(tree, v, fuel).last() == s,
    decreases fuel,
{
    broadcast use vstd::set::group_set_axioms;

    if !tree.dom().contains(v) || fuel == 0 {
        assert(v == s);
    } else {
        let nxt = tree[v];
        lemma_first_idx(eql, v);
        lemma_first_idx(eql, nxt);
        if tree.dom().contains(nxt) {
            let dn = ranked_before(eql, tree, nxt);
            let dv = ranked_before(eql, tree, v);
            assert(dn.subset_of(dv.remove(nxt))) by {
                assert forall|c: Seq<char>| dn.contains(c) implies dv.remove(nxt).contains(c) by {
                    assert(first_idx(eql, c) < first_idx(eql, nxt) < first_idx(eql, v));
                }
            }
            assert(dv.contains(nxt));
            assert(dv.finite()) by {
                assert(dv.subset_of(tree.dom()));
                lemma_len_subset_laws(dv, tree.dom());
            }
            lemma_len_subset_laws(dn, dv.remove(nxt));
            assert(dv.remove(nxt).len() == dv.len() - 1);
        }
        lemma_walk_reaches_start(eql, tree, s, nxt, (fuel - 1) as nat);
        assert(back_walk(tree, v, fuel).last() == back_walk(tree, nxt, (fuel - 1) as nat).last());
    }
}

/// A subset of a finite set is finite and no larger.
pub proof fn lemma_len_subset_laws<A>(s1: Set<A>, s2: Set<A>)
    requires
        s1.subset_of(s2),
        s2.finite(),
    ensures
        s1.finite(),
        s1.len() <= s2.len(),
{
    broadcast use vstd::set::group_set_axioms;

    assert(s1 =~= s2.intersect(s1));
    vstd::set_lib::lemma_len_subset(s1, s2);
}

/// The shared loop keeps its search tree ranked by the visited list and
/// its frontier within the visited list.
pub proof fn lemma_search_loop_ranked(
    g: GraphModel,
    lifo: bool,
    eql: Seq<Seq<char>>,
    fr: Seq<Seq<char>>,
    tree: Map<Seq<char>, Seq<char>>,
    s: Seq<char>,
)
    requires
        g.wf(),
        eql.to_set().subset_of(g.vkeys().to_set()),
        tree_ranked(eql, tree, s),
        forall|i: int| 0 <= i < fr.len() ==> eql.contains(#[trigger] fr[i]),
    ensures
        search_loop(g, lifo, eql, fr, tree) matches Ok(p) ==> exists|e2: Seq<Seq<char>>|
            #[trigger] tree_ranked(e2, p.1, s) && e2.contains(p.0),
    decreases g.vkeys().to_set().difference(eql.to_set()).len(), fr.len(),
{
    if fr.len() == 0 {
    } else {
        let node = if lifo {
            fr.last()
        } else {
            fr.first()
        };
        let rest = if lifo {
            fr.drop_last()
        } else {
            fr.drop_first()
        };
        assert(eql.contains(node)) by {
            if lifo {
                assert(fr[fr.len() - 1] == node);
            } else {
                assert(fr[0] == node);
            }
        }
        if g.is_goal_spec(node) {
            assert(tree_ranked(eql, tree, s) && eql.contains(node));
            let res = search_loop(g, lifo, eql, fr, tree);
            assert(res == Ok::<(Seq<char>, Map<Seq<char>, Seq<char>>), SearchError>(
                (node, tree),
            ));
            assert(tree_ranked(eql, res->Ok_0.1, s) && eql.contains(res->Ok_0.0));
        } else {
            let cs = step_children(g, eql, node);
            let order = if lifo {
                cs.reverse()
            } else {
                cs
            };
            lemma_children_ok(g, eql, node);
            assert forall|j: int| 0 <= j < order.len() implies g.vkeys().contains(
                #[trigger] order[j],
            ) && !eql.contains(order[j]) by {
                if lifo {
                    assert(order[j] == cs[cs.len() - 1 - j]);
                }
            }
            lemma_expand_decreases(g, eql, order);
            if order.len() == 0 {
                assert(eql + order =~= eql);
            }
            let eql2 = eql + order;
            let t2 = tree_with(tree, order, node);
            assert((eql2)[0] == s);
            assert(eql2.contains(node)) by {
                lemma_add_contains(eql, order, node);
            }
            assert(t2.dom().finite()) by {
                assert(t2.dom() =~= tree.dom().union(
                    Map::new(
                        |k: Seq<char>| order.contains(k),
                        |k: Seq<char>| node,
                    ).dom(),
                ));
                assert(Map::new(
                    |k: Seq<char>| order.contains(k),
                    |k: Seq<char>| node,
                ).dom() =~= order.to_set());
                broadcast use seq_to_set_is_finite;
                broadcast use vstd::set::group_set_axioms;

            }
            assert(!t2.dom().contains(s)) by {
                assert(eql.contains(s)) by {
                    assert(eql[0] == s);
                }
            }
            assert(tree_ranked(eql2, t2, s)) by {
                assert forall|c: Seq<char>| #[trigger] t2.dom().contains(c) implies eql2.contains(
                    c,
                ) && eql2.contains(t2[c]) && first_idx(eql2, t2[c]) < first_idx(eql2, c) by {
                    lemma_add_contains(eql, order, c);
                    if order.contains(c) {
                        assert(t2[c] == node);
                        lemma_first_idx_append(eql, order, node);
                        lemma_first_idx(eql, node);
                        lemma_first_idx_fresh(eql, order, c);
                        lemma_add_contains(eql, order, node);
                    } else {
                        assert(tree.dom().contains(c));
                        assert(t2[c] == tree[c]);
                        lemma_first_idx_append(eql, order, c);
                        lemma_first_idx_append(eql, order, tree[c]);
                        lemma_add_contains(eql, order, tree[c]);
                    }
                }
                assert forall|u: Seq<char>| eql2.contains(u) && u != s implies #[trigger] t2.dom(
                ).contains(u) by {
                    lemma_add_contains(eql, order, u);
                    if eql.contains(u) {
                        assert(tree.dom().contains(u));
                    }
                }
            }
            assert forall|i: int| 0 <= i < (rest + order).len() implies eql2.contains(
                #[trigger] (rest + order)[i],
            ) by {
                if i < rest.len() {
                    assert((rest + order)[i] == rest[i]);
                    if lifo {
                        assert(rest[i] == fr[i]);
                    } else {
                        assert(rest[i] == fr[i + 1]);
                    }
                    lemma_add_contains(eql, order, (rest + order)[i]);
                } else {
                    assert((rest + order)[i] == order[i - rest.len()]);
                    lemma_add_contains(eql, order, order[i - rest.len()]);
                }
            }
            lemma_search_loop_ranked(g, lifo, eql2, rest + order, t2, s);
            let res = search_loop(g, lifo, eql, fr, tree);
            let res2 = search_loop(g, lifo, eql2, rest + order, t2);
            assert(res == res2);
            if res is Ok {
                let ew = choose|e2: Seq<Seq<char>>|
                    #[trigger] tree_ranked(e2, res2->Ok_0.1, s) && e2.contains(res2->Ok_0.0);
                assert(tree_ranked(ew, res->Ok_0.1, s) && ew.contains(res->Ok_0.0));
            }
        }
    }
}

/// The reconstructed path of a returned depth-first or breadth-first
/// solution runs from the start vertex to the returned goal vertex.
pub proof fn lemma_solution_path_endpoints(g: GraphModel, lifo: bool)
    requires
        g.wf(),
        search_spec(g, lifo) is Ok,
    ensures
        path_spec(search_spec(g, lifo)->Ok_0.1, search_spec(g, lifo)->Ok_0.0).first()
            == g.start_of()->Some_0,
        path_spec(search_spec(g, lifo)->Ok_0.1, search_spec(g, lifo)->Ok_0.0).last() == search_spec(
            g,
            lifo,
        )->Ok_0.0,
{
    let s = g.start_of()->Some_0;
    lemma_find_start_in_keys(g.labels);
    assert forall|x: Seq<char>| seq![s].to_set().contains(x) implies g.vkeys().to_set().contains(
        x,
    ) by {
        let i = choose|i: int| 0 <= i < seq![s].len() && seq![s][i] == x;
        assert(x == s);
    }
    assert(tree_ranked(seq![s], Map::empty(), s)) by {
        assert(Map::<Seq<char>, Seq<char>>::empty().dom() =~= Set::<Seq<char>>::empty());
        assert forall|u: Seq<char>| seq![s].contains(u) && u != s implies #[trigger] Map::<
            Seq<char>,
            Seq<char>,
        >::empty().dom().contains(u) by {
            let i = choose|i: int| 0 <= i < seq![s].len() && seq![s][i] == u;
            assert(u == s);
        }
    }
    assert forall|i: int| 0 <= i < seq![s].len() implies seq![s].contains(
        #[trigger] seq![s][i],
    ) by {
    }
    lemma_search_loop_ranked(g, lifo, seq![s], seq![s], Map::empty(), s);
    let p = search_spec(g, lifo)->Ok_0;
    let e2 = choose|e2: Seq<Seq<char>>| #[trigger] tree_ranked(e2, p.1, s) && e2.contains(p.0);
    let fuel = p.1.dom().len();
    assert(fuel >= (if p.1.dom().contains(p.0) {
        ranked_before(e2, p.1, p.0).len() + 1
    } else {
        0
    })) by {
        broadcast use vstd::set::group_set_axioms;

        if p.1.dom().contains(p.0) {
            let dv = ranked_before(e2, p.1, p.0);
            lemma_first_idx(e2, p.0);
            assert(dv.subset_of(p.1.dom().remove(p.0))) by {
                assert forall|c: Seq<char>| dv.contains(c) implies p.1.dom().remove(p.0).contains(
                    c,
                ) by {
                    assert(first_idx(e2, c) < first_idx(e2, p.0));
                }
            }
            lemma_len_subset_laws(dv, p.1.dom().remove(p.0));
            assert(p.1.dom().remove(p.0).len() == p.1.dom().len() - 1);
        }
    }
    lemma_walk_reaches_start(e2, p.1, s, p.0, fuel);
    let w = back_walk(p.1, p.0, fuel);
    assert(path_spec(p.1, p.0).first() == w.last()) by {
        assert(w.reverse()[0] == w[w.len() - 1]);
    }
    assert(w[0] == p.0);
    assert(path_spec(p.1, p.0).last() == w[0]);
}

/// How one expansion changes the recorded keys: old keys survive; every
/// offered key is recorded and points at the freshly expanded key; any
/// other key keeps its old parent.
pub open spec fn offered(
    g: GraphModel,
    cs: Seq<Seq<char>>,
    cost: int,
    node: Seq<char>,
    k: (int, Seq<char>),
) -> bool {
    exists|j: int| 0 <= j < cs.len() && k == (cost + g.cost_of(node, #[trigger] cs[j])->Some_0, cs[j])
}

pub proof fn lemma_ucs_expand_dom(
    g: GraphModel,
    cs: Seq<Seq<char>>,
    cost: int,
    node: Seq<char>,
    fr: Seq<(int, Seq<char>)>,
    tree: Map<(int, Seq<char>), (int, Seq<char>)>,
)
    ensures
        forall|k: (int, Seq<char>)| tree.dom().contains(k) ==> #[trigger] ucs_expand(
            g,
            cs,
            cost,
            node,
            fr,
            tree,
        ).1.dom().contains(k),
        forall|k: (int, Seq<char>)| #[trigger]
            offered(g, cs, cost, node, k) ==> ucs_expand(g, cs, cost, node, fr, tree).1.dom(
            ).contains(k) && ucs_expand(g, cs, cost, node, fr, tree).1[k] == (cost, node),
        forall|k: (int, Seq<char>)| #[trigger]
            ucs_expand(g, cs, cost, node, fr, tree).1.dom().contains(k) ==> offered(
                g,
                cs,
                cost,
                node,
                k,
            ) || (tree.dom().contains(k) && ucs_expand(g, cs, cost, node, fr, tree).1[k]
                == tree[k]),
        tree.dom().finite() ==> ucs_expand(g, cs, cost, node, fr, tree).1.dom().finite(),
    decreases cs.len(),
{
    broadcast use vstd::set::group_set_axioms;

    if cs.len() > 0 {
        lemma_ucs_expand_dom(g, cs.drop_last(), cost, node, fr, tree);
        let prev = ucs_expand(g, cs.drop_last(), cost, node, fr, tree);
        let out = ucs_expand(g, cs, cost, node, fr, tree);
        let c = cs.last();
        let gc = cost + g.cost_of(node, c)->Some_0;
        assert(out.1 == prev.1.insert((gc, c), (cost, node)));
        assert(forall|j: int| 0 <= j < cs.drop_last().len() ==> cs.drop_last()[j] == cs[j]);
        assert(cs[cs.len() - 1] == c);
        assert forall|k: (int, Seq<char>)| #[trigger] offered(g, cs, cost, node, k) implies out
            .1.dom().contains(k) && out.1[k] == (cost, node) by {
            let j = choose|j: int|
                0 <= j < cs.len() && k == (cost + g.cost_of(node, #[trigger] cs[j])->Some_0,
                cs[j]);
            if j < cs.len() - 1 {
                assert(offered(g, cs.drop_last(), cost, node, k)) by {
                    assert(k == (cost + g.cost_of(node, cs.drop_last()[j])->Some_0, cs.drop_last(
                    )[j]));
                }
            }
        }
        assert forall|k: (int, Seq<char>)| #[trigger] out.1.dom().contains(k) implies offered(
            g,
            cs,
            cost,
            node,
            k,
        ) || (tree.dom().contains(k) && out.1[k] == tree[k]) by {
            if k == (gc, c) {
                assert(offered(g, cs, cost, node, k)) by {
                    assert(k == (cost + g.cost_of(node, cs[cs.len() - 1])->Some_0, cs[cs.len()
                        - 1]));
                }
            } else {
                if offered(g, cs.drop_last(), cost, node, k) {
                    let j = choose|j: int|
                        0 <= j < cs.drop_last().len() && k == (cost + g.cost_of(
                            node,
                            #[trigger] cs.drop_last()[j],
                        )->Some_0, cs.drop_last()[j]);
                    assert(offered(g, cs, cost, node, k)) by {
                        assert(k == (cost + g.cost_of(node, cs[j])->Some_0, cs[j]));
                    }
                }
            }
        }
    }
}

/// The invariant that ties a uniform-cost tree to the finalized order:
/// each recorded key points at a key whose vertex is finalized and which
/// is itself recorded or is the start key; a recorded key whose own
/// vertex is finalized was finalized strictly after its parent; and
/// finalized vertices are never goals.
pub open spec fn ucs_tree_ranked(
    g: GraphModel,
    exl: Seq<Seq<char>>,
    tree: Map<(int, Seq<char>), (int, Seq<char>)>,
    s: Seq<char>,
) -> bool {
    &&& tree.dom().finite()
    &&& forall|c: (int, Seq<char>)| #[trigger]
        tree.dom().contains(c) ==> exl.contains(tree[c].1) && (tree.dom().contains(tree[c])
            || tree[c] == (0int, s))
    &&& forall|c: (int, Seq<char>)|
        #[trigger] tree.dom().contains(c) && exl.contains(c.1) ==> first_idx(exl, tree[c].1)
            < first_idx(exl, c.1)
    &&& forall|u: Seq<char>| #[trigger] exl.contains(u) ==> !g.is_goal_spec(u)
}

/// The recorded keys whose finalized vertices come strictly before a
/// given finalized vertex.
pub open spec fn ranked_before_c(
    exl: Seq<Seq<char>>,
    tree: Map<(int, Seq<char>), (int, Seq<char>)>,
    u: Seq<char>,
) -> Set<(int, Seq<char>)> {
    tree.dom().filter(
        |c: (int, Seq<char>)| exl.contains(c.1) && first_idx(exl, c.1) < first_idx(exl, u),
    )
}

/// A bounded parent walk from a key with a finalized vertex, given enough
/// fuel, ends at the start key.
pub proof fn lemma_walk_c_reaches_start(
    g: GraphModel,
    exl: Seq<Seq<char>>,
    tree: Map<(int, Seq<char>), (int, Seq<char>)>,
    s: Seq<char>,
    k: (int, Seq<char>),
    fuel: nat,
)
    requires
        ucs_tree_ranked(g, exl, tree, s),
        exl.contains(k.1),
        tree.dom().contains(k) || k == (0int, s),
        fuel >= (if tree.dom().contains(k) {
            ranked_before_c(exl, tree, k.1).len() + 1
        } else {
            0
        }),
    ensures
        back_walk_c(tree, k, fuel).last() == (0int, s),
    decreases fuel,
{
    broadcast use vstd::set::group_set_axioms;

    if !tree.dom().contains(k) || fuel == 0 {
        assert(k == (0int, s));
    } else {
        let nxt = tree[k];
        lemma_first_idx(exl, k.1);
        lemma_first_idx(exl, nxt.1);
        if tree.dom().contains(nxt) {
            let dn = ranked_before_c(exl, tree, nxt.1);
            let dv = ranked_before_c(exl, tree, k.1);
            assert(dn.subset_of(dv.remove(nxt))) by {
                assert forall|c: (int, Seq<char>)| dn.contains(c) implies dv.remove(nxt).contains(
                    c,
                ) by {
                    assert(first_idx(exl, c.1) < first_idx(exl, nxt.1) < first_idx(exl, k.1));
                }
            }
            assert(dv.contains(nxt));
            assert(dv.finite()) by {
                assert(dv.subset_of(tree.dom()));
                lemma_len_subset_laws(dv, tree.dom());
            }
            lemma_len_subset_laws(dn, dv.remove(nxt));
            assert(dv.remove(nxt).len() == dv.len() - 1);
        }
        lemma_walk_c_reaches_start(g, exl, tree, s, nxt, (fuel - 1) as nat);
        assert(back_walk_c(tree, k, fuel).last() == back_walk_c(
            tree,
            nxt,
            (fuel - 1) as nat,
        ).last());
    }
}

/// The uniform-cost loop keeps its search tree ranked by the finalized
/// order and every frontier item recorded or at the start key; when it
/// succeeds, the full parent walk of the returned key ends at the start
/// key.
pub proof fn lemma_ucs_loop_ranked(
    g: GraphModel,
    exl: Seq<Seq<char>>,
    fr: Seq<(int, Seq<char>)>,
    tree: Map<(int, Seq<char>), (int, Seq<char>)>,
    s: Seq<char>,
)
    requires
        g.wf(),
        !g.is_goal_spec(s),
        exl.to_set().subset_of(g.vkeys().to_set()),
        forall|i: int| 0 <= i < fr.len() ==> g.vkeys().contains((#[trigger] fr[i]).1),
        ucs_tree_ranked(g, exl, tree, s),
        forall|i: int|
            0 <= i < fr.len() ==> tree.dom().contains(#[trigger] fr[i]) || fr[i] == (0int, s),
    ensures
        ucs_loop(g, exl, fr, tree) matches Ok(p) ==> back_walk_c(
            p.1,
            p.0,
            p.1.dom().len(),
        ).last() == (0int, s),
    decreases g.vkeys().to_set().difference(exl.to_set()).len(), fr.len(),
{
    broadcast use seq_to_set_is_finite;
    broadcast use vstd::set::group_set_axioms;

    if fr.len() == 0 {
    } else {
        let top = fr.last();
        let rest = fr.drop_last();
        assert(g.vkeys().contains(top.1) && (tree.dom().contains(top) || top == (0int, s))) by {
            assert(fr[fr.len() - 1] == top);
        }
        assert(forall|i: int| 0 <= i < rest.len() ==> rest[i] == fr[i]);
        if exl.contains(top.1) {
            lemma_ucs_loop_ranked(g, exl, rest, tree, s);
        } else if g.is_goal_spec(top.1) {
            assert(top.1 != s);
            assert(tree.dom().contains(top));
            let fuel = tree.dom().len();
            assert(fuel >= 1) by {
                assert(tree.dom().remove(top).len() == tree.dom().len() - 1);
                vstd::set_lib::lemma_len_subset(
                    Set::<(int, Seq<char>)>::empty(),
                    tree.dom().remove(top),
                );
            }
            let nxt = tree[top];
            assert(back_walk_c(tree, top, fuel).last() == back_walk_c(
                tree,
                nxt,
                (fuel - 1) as nat,
            ).last());
            assert(exl.contains(nxt.1));
            if tree.dom().contains(nxt) {
                let dn = ranked_before_c(exl, tree, nxt.1);
                assert(dn.subset_of(tree.dom().remove(nxt).remove(top))) by {
                    assert forall|c: (int, Seq<char>)| dn.contains(c) implies tree.dom().remove(
                        nxt,
                    ).remove(top).contains(c) by {
                        lemma_first_idx(exl, nxt.1);
                        if c == top {
                            assert(exl.contains(top.1));
                        }
                    }
                }
                lemma_len_subset_laws(dn, tree.dom().remove(nxt).remove(top));
                assert(tree.dom().remove(nxt).remove(top).len() == tree.dom().len() - 2);
            }
            lemma_walk_c_reaches_start(g, exl, tree, s, nxt, (fuel - 1) as nat);
        } else {
            let exl2 = exl.push(top.1);
            let cs = g.targets_of(top.1).filter(|t: Seq<char>| !exl2.contains(t));
            let next = ucs_expand(g, cs, top.0, top.1, rest, tree);
            assert(!exl.contains(top.1));
            assert(exl2 =~= exl + seq![top.1]);
            assert(forall|u: Seq<char>| #[trigger]
                exl2.contains(u) ==> exl.contains(u) || u == top.1) by {
                assert forall|u: Seq<char>| #[trigger] exl2.contains(u) implies exl.contains(u)
                    || u == top.1 by {
                    let i = choose|i: int| 0 <= i < exl2.len() && exl2[i] == u;
                    if i < exl.len() {
                        assert(exl[i] == u);
                    }
                }
            }
            assert(exl2.contains(top.1)) by {
                assert(exl2[exl.len() as int] == top.1);
            }
            assert(forall|u: Seq<char>| exl.contains(u) ==> #[trigger] exl2.contains(u)) by {
                assert forall|u: Seq<char>| exl.contains(u) implies #[trigger] exl2.contains(
                    u,
                ) by {
                    let i = choose|i: int| 0 <= i < exl.len() && exl[i] == u;
                    assert(exl2[i] == u);
                }
            }
            assert(first_idx(exl2, top.1) == exl.len()) by {
                lemma_first_idx_fresh(exl, seq![top.1], top.1);
                lemma_first_idx(exl2, top.1);
            }
            lemma_targets_labeled(g, top.1);
            assert forall|j: int| 0 <= j < cs.len() implies g.vkeys().contains(#[trigger] cs[j])
                && !exl2.contains(cs[j]) by {
                lemma_filter_sub(g.targets_of(top.1), |t: Seq<char>| !exl2.contains(t), j);
                Seq::lemma_filter_pred(g.targets_of(top.1), |t: Seq<char>| !exl2.contains(t), j);
            }
            lemma_ucs_expand_dom(g, cs, top.0, top.1, rest, tree);
            assert(ucs_tree_ranked(g, exl2, next.1, s)) by {
                assert forall|c: (int, Seq<char>)| #[trigger] next.1.dom().contains(
                    c,
                ) implies exl2.contains(next.1[c].1) && (next.1.dom().contains(next.1[c])
                    || next.1[c] == (0int, s)) by {
                    if offered(g, cs, top.0, top.1, c) {
                        assert(next.1[c] == (top.0, top.1));
                        if tree.dom().contains(top) {
                            assert(next.1.dom().contains(top));
                        }
                    } else {
                        assert(tree.dom().contains(c) && next.1[c] == tree[c]);
                        assert(exl.contains(tree[c].1));
                        if tree.dom().contains(tree[c]) {
                            assert(next.1.dom().contains(tree[c]));
                        }
                    }
                }
                assert forall|c: (int, Seq<char>)|
                    #[trigger] next.1.dom().contains(c) && exl2.contains(c.1) implies first_idx(
                    exl2,
                    next.1[c].1,
                ) < first_idx(exl2, c.1) by {
                    if offered(g, cs, top.0, top.1, c) {
                        let j = choose|j: int|
                            0 <= j < cs.len() && c == (top.0 + g.cost_of(
                                top.1,
                                #[trigger] cs[j],
                            )->Some_0, cs[j]);
                        assert(!exl2.contains(c.1));
                    } else {
                        assert(tree.dom().contains(c) && next.1[c] == tree[c]);
                        assert(exl.contains(tree[c].1));
                        lemma_first_idx_append(exl, seq![top.1], tree[c].1);
                        lemma_first_idx(exl, tree[c].1);
                        if exl.contains(c.1) {
                            lemma_first_idx_append(exl, seq![top.1], c.1);
                        } else {
                            assert(c.1 == top.1);
                        }
                    }
                }
            }
            crate::ucs::lemma_ucs_expand_elems(g, cs, top.0, top.1, rest, tree);
            assert forall|i: int| 0 <= i < next.0.len() implies g.vkeys().contains(
                (#[trigger] next.0[i]).1,
            ) && (next.1.dom().contains(next.0[i]) || next.0[i] == (0int, s)) by {
                assert(next.0.contains(next.0[i]));
                lemma_ucs_expand_elems_exact(g, cs, top.0, top.1, rest, tree, next.0[i]);
                if rest.contains(next.0[i]) {
                    let m = choose|m: int| 0 <= m < rest.len() && rest[m] == next.0[i];
                    assert(fr[m] == next.0[i]);
                    if tree.dom().contains(next.0[i]) {
                        assert(next.1.dom().contains(next.0[i]));
                    }
                } else {
                    let j = choose|j: int|
                        0 <= j < cs.len() && next.0[i] == (top.0 + g.cost_of(
                            top.1,
                            #[trigger] cs[j],
                        )->Some_0, cs[j]);
                    assert(offered(g, cs, top.0, top.1, next.0[i]));
                }
            }
            assert(exl2.to_set() =~= exl.to_set().insert(top.1)) by {
                assert forall|x: Seq<char>| exl2.to_set().contains(x) implies exl.to_set().insert(
                    top.1,
                ).contains(x) by {
                    assert(exl2.contains(x));
                }
                assert forall|x: Seq<char>| exl.to_set().insert(top.1).contains(x) implies exl2
                    .to_set().contains(x) by {
                    assert(exl2.contains(x));
                }
            }
            g.vkeys().to_set().lemma_set_insert_diff_decreases(exl.to_set(), top.1);
            lemma_ucs_loop_ranked(g, exl2, next.0, next.1, s);
        }
    }
}

/// The reconstructed path of a returned uniform-cost solution runs from
/// the start vertex to the returned goal vertex.
pub proof fn lemma_ucs_solution_path_endpoints(g: GraphModel)
    requires
        g.wf(),
        ucs_spec(g) is Ok,
    ensures
        ucs_path(ucs_spec(g)->Ok_0.1, ucs_spec(g)->Ok_0.0).first() == g.start_of()->Some_0,
        ucs_path(ucs_spec(g)->Ok_0.1, ucs_spec(g)->Ok_0.0).last() == ucs_spec(g)->Ok_0.0.1,
{
    broadcast use vstd::set::group_set_axioms;

    let s = g.start_of()->Some_0;
    lemma_find_start_in_keys(g.labels);
    crate::graph::lemma_find_start_label(g.labels);
    assert(!g.is_goal_spec(s));
    let fr0 = seq![(0int, s)];
    assert(Seq::<Seq<char>>::empty().to_set() =~= Set::<Seq<char>>::empty());
    assert forall|i: int| 0 <= i < fr0.len() implies g.vkeys().contains(
        (#[trigger] fr0[i]).1,
    ) && (Map::<(int, Seq<char>), (int, Seq<char>)>::empty().dom().contains(fr0[i]) || fr0[i] == (
    0int,
    s,
    )) by {
        assert(fr0[i] == (0int, s));
    }
    assert(ucs_tree_ranked(g, Seq::empty(), Map::empty(), s)) by {
        assert(Map::<(int, Seq<char>), (int, Seq<char>)>::empty().dom() =~= Set::<
            (int, Seq<char>),
        >::empty());
    }
    lemma_ucs_loop_ranked(g, Seq::empty(), fr0, Map::empty(), s);
    let p = ucs_spec(g)->Ok_0;
    let w = back_walk_c(p.1, p.0, p.1.dom().len());
    assert(w.last() == (0int, s));
    assert(w[0] == p.0);
    let path = ucs_path(p.1, p.0);
    assert(path.first() == w.reverse().map_values(|q: (int, Seq<char>)| q.1)[0]);
    assert(path.first() == w[w.len() - 1].1);
    assert(path.last() == w.reverse().map_values(|q: (int, Seq<char>)| q.1)[w.len() - 1]);
    assert(path.last() == w[0].1);
}

/// Whether every parent link in a uniform-cost search tree is a real
/// edge: each recorded key's vertex is an edge target of its parent's
/// vertex.
pub open spec fn ucs_tree_edges_ok(
    g: GraphModel,
    tree: Map<(int, Seq<char>), (int, Seq<char>)>,
) -> bool {
    forall|c: (int, Seq<char>)|
        tree.dom().contains(c) ==> g.targets_of((#[trigger] tree[c]).1).contains(c.1)
}

/// Offering one batch of children only records real edges.
pub proof fn lemma_ucs_expand_tree(
    g: GraphModel,
    cs: Seq<Seq<char>>,
    cost: int,
    node: Seq<char>,
    fr: Seq<(int, Seq<char>)>,
    tree: Map<(int, Seq<char>), (int, Seq<char>)>,
)
    requires
        ucs_tree_edges_ok(g, tree),
        forall|j: int| 0 <= j < cs.len() ==> g.targets_of(node).contains(#[trigger] cs[j]),
    ensures
        ucs_tree_edges_ok(g, ucs_expand(g, cs, cost, node, fr, tree).1),
    decreases cs.len(),
{
    if cs.len() > 0 {
        lemma_ucs_expand_tree(g, cs.drop_last(), cost, node, fr, tree);
        let prev = ucs_expand(g, cs.drop_last(), cost, node, fr, tree);
        let c = cs.last();
        let gc = cost + g.cost_of(node, c)->Some_0;
        let t2 = prev.1.insert((gc, c), (cost, node));
        assert forall|k: (int, Seq<char>)| t2.dom().contains(k) implies g.targets_of(
            (#[trigger] t2[k]).1,
        ).contains(k.1) by {
            if k == (gc, c) {
                assert(t2[k] == (cost, node));
                assert(cs[cs.len() - 1] == c);
            } else {
                assert(t2[k] == prev.1[k]);
            }
        }
    }
}

/// The uniform-cost loop only ever records real edges in its search tree.
pub proof fn lemma_ucs_loop_tree(
    g: GraphModel,
    exl: Seq<Seq<char>>,
    fr: Seq<(int, Seq<char>)>,
    tree: Map<(int, Seq<char>), (int, Seq<char>)>,
)
    requires
        g.wf(),
        exl.to_set().subset_of(g.vkeys().to_set()),
        forall|i: int| 0 <= i < fr.len() ==> g.vkeys().contains((#[trigger] fr[i]).1),
        ucs_tree_edges_ok(g, tree),
    ensures
        ucs_loop(g, exl, fr, tree) matches Ok(p) ==> ucs_tree_edges_ok(g, p.1),
    decreases g.vkeys().to_set().difference(exl.to_set()).len(), fr.len(),
{
    broadcast use seq_to_set_is_finite;
    broadcast use vstd::set::group_set_axioms;

    if fr.len() == 0 {
    } else {
        let top = fr.last();
        let rest = fr.drop_last();
        assert(g.vkeys().contains(top.1)) by {
            assert(fr[fr.len() - 1] == top);
        }
        assert forall|i: int| 0 <= i < rest.len() implies g.vkeys().contains(
            (#[trigger] rest[i]).1,
        ) by {
            assert(rest[i] == fr[i]);
        }
        if exl.contains(top.1) {
            lemma_ucs_loop_tree(g, exl, rest, tree);
        } else if g.is_goal_spec(top.1) {
        } else {
            let exl2 = exl.push(top.1);
            let cs = g.targets_of(top.1).filter(|t: Seq<char>| !exl2.contains(t));
            let next = ucs_expand(g, cs, top.0, top.1, rest, tree);
            assert(exl2.to_set() =~= exl.to_set().insert(top.1)) by {
                assert forall|x: Seq<char>| exl2.contains(x) implies exl.contains(x) || x
                    == top.1 by {
                    let i = choose|i: int| 0 <= i < exl2.len() && exl2[i] == x;
                    if i < exl.len() {
                        assert(exl[i] == x);
                    }
                }
                assert(exl2[exl.len() as int] == top.1);
                assert forall|x: Seq<char>| exl.contains(x) implies exl2.contains(x) by {
                    let i = choose|i: int| 0 <= i < exl.len() && exl[i] == x;
                    assert(exl2[i] == x);
                }
            }
            g.vkeys().to_set().lemma_set_insert_diff_decreases(exl.to_set(), top.1);
            lemma_targets_labeled(g, top.1);
            assert forall|j: int| 0 <= j < cs.len() implies g.targets_of(top.1).contains(
                #[trigger] cs[j],
            ) by {
                lemma_filter_sub(g.targets_of(top.1), |t: Seq<char>| !exl2.contains(t), j);
            }
            lemma_ucs_expand_tree(g, cs, top.0, top.1, rest, tree);
            lemma_ucs_expand_elems(g, cs, top.0, top.1, rest, tree);
            assert forall|i: int| 0 <= i < next.0.len() implies g.vkeys().contains(
                (#[trigger] next.0[i]).1,
            ) by {
                if cs.contains(next.0[i].1) {
                    let n = choose|n: int| 0 <= n < cs.len() && cs[n] == next.0[i].1;
                } else {
                    let m = choose|m: int| 0 <= m < rest.len() && rest[m] == next.0[i];
                }
            }
            lemma_ucs_loop_tree(g, exl2, next.0, next.1);
        }
    }
}

/// Whether every parent link in a uniform-cost search tree carries the
/// exact arithmetic of its discovery: the child key's cost is its
/// parent's cost plus the weight of the edge that discovered it.
pub open spec fn ucs_tree_costs_ok(
    g: GraphModel,
    tree: Map<(int, Seq<char>), (int, Seq<char>)>,
) -> bool {
    forall|c: (int, Seq<char>)|
        tree.dom().contains(c) ==> g.cost_of((#[trigger] tree[c]).1, c.1) is Some && c.0
            == tree[c].0 + g.cost_of(tree[c].1, c.1)->Some_0
}

/// Offering one batch of children records exact discovery costs.
pub proof fn lemma_ucs_expand_costs(
    g: GraphModel,
    cs: Seq<Seq<char>>,
    cost: int,
    node: Seq<char>,
    fr: Seq<(int, Seq<char>)>,
    tree: Map<(int, Seq<char>), (int, Seq<char>)>,
)
    requires
        ucs_tree_costs_ok(g, tree),
        forall|j: int| 0 <= j < cs.len() ==> g.cost_of(node, #[trigger] cs[j]) is Some,
    ensures
        ucs_tree_costs_ok(g, ucs_expand(g, cs, cost, node, fr, tree).1),
    decreases cs.len(),
{
    if cs.len() > 0 {
        lemma_ucs_expand_costs(g, cs.drop_last(), cost, node, fr, tree);
        let prev = ucs_expand(g, cs.drop_last(), cost, node, fr, tree);
        let c = cs.last();
        let gc = cost + g.cost_of(node, c)->Some_0;
        let t2 = prev.1.insert((gc, c), (cost, node));
        assert forall|k: (int, Seq<char>)| t2.dom().contains(k) implies g.cost_of(
            (#[trigger] t2[k]).1,
            k.1,
        ) is Some && k.0 == t2[k].0 + g.cost_of(t2[k].1, k.1)->Some_0 by {
            if k == (gc, c) {
                assert(t2[k] == (cost, node));
                assert(cs[cs.len() - 1] == c);
            } else {
                assert(t2[k] == prev.1[k]);
            }
        }
    }
}

/// The uniform-cost loop only ever records exact discovery costs.
pub proof fn lemma_ucs_loop_costs(
    g: GraphModel,
    exl: Seq<Seq<char>>,
    fr: Seq<(int, Seq<char>)>,
    tree: Map<(int, Seq<char>), (int, Seq<char>)>,
)
    requires
        g.wf(),
        exl.to_set().subset_of(g.vkeys().to_set()),
        forall|i: int| 0 <= i < fr.len() ==> g.vkeys().contains((#[trigger] fr[i]).1),
        ucs_tree_costs_ok(g, tree),
    ensures
        ucs_loop(g, exl, fr, tree) matches Ok(p) ==> ucs_tree_costs_ok(g, p.1),
    decreases g.vkeys().to_set().difference(exl.to_set()).len(), fr.len(),
{
    broadcast use seq_to_set_is_finite;
    broadcast use vstd::set::group_set_axioms;

    if fr.len() == 0 {
    } else {
        let top = fr.last();
        let rest = fr.drop_last();
        assert(g.vkeys().contains(top.1)) by {
            assert(fr[fr.len() - 1] == top);
        }
        assert forall|i: int| 0 <= i < rest.len() implies g.vkeys().contains(
            (#[trigger] rest[i]).1,
        ) by {
            assert(rest[i] == fr[i]);
        }
        if exl.contains(top.1) {
            lemma_ucs_loop_costs(g, exl, rest, tree);
        } else if g.is_goal_spec(top.1) {
        } else {
            let exl2 = exl.push(top.1);
            let cs = g.targets_of(top.1).filter(|t: Seq<char>| !exl2.contains(t));
            let next = ucs_expand(g, cs, top.0, top.1, rest, tree);
            assert(exl2.to_set() =~= exl.to_set().insert(top.1)) by {
                assert forall|x: Seq<char>| exl2.contains(x) implies exl.contains(x) || x
                    == top.1 by {
                    let i = choose|i: int| 0 <= i < exl2.len() && exl2[i] == x;
                    if i < exl.len() {
                        assert(exl[i] == x);
                    }
                }
                assert(exl2[exl.len() as int] == top.1);
                assert forall|x: Seq<char>| exl.contains(x) implies exl2.contains(x) by {
                    let i = choose|i: int| 0 <= i < exl.len() && exl[i] == x;
                    assert(exl2[i] == x);
                }
            }
            g.vkeys().to_set().lemma_set_insert_diff_decreases(exl.to_set(), top.1);
            lemma_targets_labeled(g, top.1);
            assert forall|j: int| 0 <= j < cs.len() implies g.cost_of(
                top.1,
                #[trigger] cs[j],
            ) is Some by {
                lemma_filter_sub(g.targets_of(top.1), |t: Seq<char>| !exl2.contains(t), j);
                crate::graph::lemma_assoc_get_some_iff(g.adj_of(top.1), cs[j]);
                assert(crate::graph::akeys(g.adj_of(top.1)) =~= g.targets_of(top.1));
            }
            lemma_ucs_expand_costs(g, cs, top.0, top.1, rest, tree);
            lemma_ucs_expand_elems(g, cs, top.0, top.1, rest, tree);
            assert forall|i: int| 0 <= i < next.0.len() implies g.vkeys().contains(
                (#[trigger] next.0[i]).1,
            ) by {
                if cs.contains(next.0[i].1) {
                    let n = choose|n: int| 0 <= n < cs.len() && cs[n] == next.0[i].1;
                    lemma_filter_sub(g.targets_of(top.1), |t: Seq<char>| !exl2.contains(t), n);
                } else {
                    let m = choose|m: int| 0 <= m < rest.len() && rest[m] == next.0[i];
                }
            }
            lemma_ucs_loop_costs(g, exl2, next.0, next.1);
        }
    }
}

/// Along a bounded parent walk of a cost-exact tree, each key's cost is
/// the cost of the key that follows it plus the weight of the joining
/// edge.
pub proof fn lemma_back_walk_c_costs(
    g: GraphModel,
    tree: Map<(int, Seq<char>), (int, Seq<char>)>,
    from: (int, Seq<char>),
    fuel: nat,
)
    requires
        ucs_tree_costs_ok(g, tree),
    ensures
        forall|i: int|
            0 <= i < back_walk_c(tree, from, fuel).len() - 1 ==> g.cost_of(
                back_walk_c(tree, from, fuel)[i + 1].1,
                (#[trigger] back_walk_c(tree, from, fuel)[i]).1,
            ) is Some && back_walk_c(tree, from, fuel)[i].0 == back_walk_c(tree, from, fuel)[i
                + 1].0 + g.cost_of(
                back_walk_c(tree, from, fuel)[i + 1].1,
                back_walk_c(tree, from, fuel)[i].1,
            )->Some_0,
    decreases fuel,
{
    let w = back_walk_c(tree, from, fuel);
    if fuel == 0 || !tree.dom().contains(from) {
    } else {
        let sub = back_walk_c(tree, tree[from], (fuel - 1) as nat);
        lemma_back_walk_c_costs(g, tree, tree[from], (fuel - 1) as nat);
        assert forall|i: int| 0 <= i < w.len() - 1 implies g.cost_of(
            w[i + 1].1,
            (#[trigger] w[i]).1,
        ) is Some && w[i].0 == w[i + 1].0 + g.cost_of(w[i + 1].1, w[i].1)->Some_0 by {
            if i == 0 {
                assert(w[0] == from);
                assert(w[1] == sub[0]);
                assert(sub[0] == tree[from]);
            } else {
                assert(w[i] == sub[i - 1]);
                assert(w[i + 1] == sub[i]);
                assert(g.cost_of(sub[i].1, sub[i - 1].1) is Some && sub[i - 1].0 == sub[i].0
                    + g.cost_of(sub[i].1, sub[i - 1].1)->Some_0);
            }
        }
    }
}

/// Cost soundness of uniform-cost search: along the parent walk of a
/// returned solution, each key's cost is exactly the next key's cost plus
/// the weight of the joining edge, so the goal key's cost decomposes into
/// the edge weights of the reconstructed path above the walk's final key.
pub proof fn lemma_ucs_solution_costs(g: GraphModel)
    requires
        g.wf(),
        ucs_spec(g) is Ok,
    ensures
        forall|i: int|
            0 <= i < back_walk_c(
                ucs_spec(g)->Ok_0.1,
                ucs_spec(g)->Ok_0.0,
                ucs_spec(g)->Ok_0.1.dom().len(),
            ).len() - 1 ==> (#[trigger] back_walk_c(
                ucs_spec(g)->Ok_0.1,
                ucs_spec(g)->Ok_0.0,
                ucs_spec(g)->Ok_0.1.dom().len(),
            )[i]).0 == back_walk_c(
                ucs_spec(g)->Ok_0.1,
                ucs_spec(g)->Ok_0.0,
                ucs_spec(g)->Ok_0.1.dom().len(),
            )[i + 1].0 + g.cost_of(
                back_walk_c(
                    ucs_spec(g)->Ok_0.1,
                    ucs_spec(g)->Ok_0.0,
                    ucs_spec(g)->Ok_0.1.dom().len(),
                )[i + 1].1,
                back_walk_c(
                    ucs_spec(g)->Ok_0.1,
                    ucs_spec(g)->Ok_0.0,
                    ucs_spec(g)->Ok_0.1.dom().len(),
                )[i].1,
            )->Some_0,
{
    let s = g.start_of()->Some_0;
    lemma_find_start_in_keys(g.labels);
    let fr0 = seq![(0int, s)];
    assert(Seq::<Seq<char>>::empty().to_set() =~= Set::<Seq<char>>::empty());
    assert forall|i: int| 0 <= i < fr0.len() implies g.vkeys().contains(
        (#[trigger] fr0[i]).1,
    ) by {
        assert(fr0[i] == (0int, s));
    }
    lemma_ucs_loop_costs(g, Seq::empty(), fr0, Map::empty());
    let p = ucs_spec(g)->Ok_0;
    lemma_back_walk_c_costs(g, p.1, p.0, p.1.dom().len());
}

/// Along a bounded parent walk of a uniform-cost tree, each key's vertex
/// is an edge target of the vertex of the key that follows it.
pub proof fn lemma_back_walk_c_edges(
    g: GraphModel,
    tree: Map<(int, Seq<char>), (int, Seq<char>)>,
    from: (int, Seq<char>),
    fuel: nat,
)
    requires
        ucs_tree_edges_ok(g, tree),
    ensures
        forall|i: int|
            0 <= i < back_walk_c(tree, from, fuel).len() - 1 ==> g.targets_of(
                back_walk_c(tree, from, fuel)[i + 1].1,
            ).contains((#[trigger] back_walk_c(tree, from, fuel)[i]).1),
    decreases fuel,
{
    let w = back_walk_c(tree, from, fuel);
    if fuel == 0 || !tree.dom().contains(from) {
    } else {
        let sub = back_walk_c(tree, tree[from], (fuel - 1) as nat);
        lemma_back_walk_c_edges(g, tree, tree[from], (fuel - 1) as nat);
        assert forall|i: int| 0 <= i < w.len() - 1 implies g.targets_of(w[i + 1].1).contains(
            (#[trigger] w[i]).1,
        ) by {
            if i == 0 {
                assert(w[0] == from);
                assert(w[1] == sub[0]);
                assert(sub[0] == tree[from]);
            } else {
                assert(w[i] == sub[i - 1]);
                assert(w[i + 1] == sub[i]);
                assert(g.targets_of(sub[i].1).contains(sub[i - 1].1));
            }
        }
    }
}

/// Round trip for uniform-cost search: each consecutive pair of the path
/// reconstructed from a returned solution's search tree is a real edge of
/// the graph.
pub proof fn lemma_ucs_solution_path_edges(g: GraphModel)
    requires
        g.wf(),
        ucs_spec(g) is Ok,
    ensures
        ucs_path(ucs_spec(g)->Ok_0.1, ucs_spec(g)->Ok_0.0).len() >= 1,
        ucs_path(ucs_spec(g)->Ok_0.1, ucs_spec(g)->Ok_0.0).last() == ucs_spec(g)->Ok_0.0.1,
        forall|i: int|
            0 <= i < ucs_path(ucs_spec(g)->Ok_0.1, ucs_spec(g)->Ok_0.0).len() - 1
                ==> g.targets_of(
                #[trigger] ucs_path(ucs_spec(g)->Ok_0.1, ucs_spec(g)->Ok_0.0)[i],
            ).contains(ucs_path(ucs_spec(g)->Ok_0.1, ucs_spec(g)->Ok_0.0)[i + 1]),
{
    let s = g.start_of()->Some_0;
    lemma_find_start_in_keys(g.labels);
    let fr0 = seq![(0int, s)];
    assert(Seq::<Seq<char>>::empty().to_set() =~= Set::<Seq<char>>::empty());
    assert forall|i: int| 0 <= i < fr0.len() implies g.vkeys().contains(
        (#[trigger] fr0[i]).1,
    ) by {
        assert(fr0[i] == (0int, s));
    }
    lemma_ucs_loop_tree(g, Seq::empty(), fr0, Map::empty());
    let p = ucs_spec(g)->Ok_0;
    let path = ucs_path(p.1, p.0);
    let w = back_walk_c(p.1, p.0, p.1.dom().len());
    lemma_back_walk_c_edges(g, p.1, p.0, p.1.dom().len());
    assert(w[0] == p.0);
    assert(path.last() == w.reverse()[w.len() - 1].1);
    assert(path.last() == p.0.1);
    assert forall|i: int| 0 <= i < path.len() - 1 implies g.targets_of(
        #[trigger] path[i],
    ).contains(path[i + 1]) by {
        assert(path[i] == w.reverse().map_values(|q: (int, Seq<char>)| q.1)[i]);
        assert(path[i] == w[w.len() - 1 - i].1);
        assert(path[i + 1] == w[w.len() - 2 - i].1);
        assert(g.targets_of(w[w.len() - 2 - i + 1].1).contains(w[w.len() - 2 - i].1));
    }
}

} // verus!
