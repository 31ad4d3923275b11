//! The uninformed search engine: one traversal loop, specialized into
//! depth-first and breadth-first search by the frontier discipline.
//!
//! The loop pops a pending vertex, tests it against the goal, expands its
//! neighbors, prunes those already visited, sorts the survivors into the
//! deterministic ascending tie-break order, and records a parent link for
//! each as it joins the frontier. Depth-first search pops the most
//! recently pushed vertex (and pushes a batch in descending order, so the
//! smallest sibling is explored first); breadth-first search pops the
//! earliest pushed vertex.

use vstd::prelude::*;
use vstd::set_lib::lemma_len_subset;
use vstd::seq_lib::seq_to_set_is_finite;
use crate::SearchError;
use crate::graph::{Graph, GraphModel, lemma_targets_labeled, lemma_find_start_in_keys};
use crate::tree::{ParentMap, path_spec, reverse_ids};
use crate::vid::{
    vids, sort_spec, sort_ids, contains_id, lemma_add_contains, lemma_sort_contains,
    lemma_filter_sub,
};

verus! {

/// The children one expansion offers to the frontier: the vertex's targets,
/// pruned of already visited vertices, in ascending tie-break order.
pub open spec fn step_children(g: GraphModel, eql: Seq<Seq<char>>, node: Seq<char>) -> Seq<
    Seq<char>,
> {
    sort_spec(g.targets_of(node).filter(|t: Seq<char>| !eql.contains(t)))
}

/// The parent links one batch of children adds: each child points at the
/// vertex whose expansion discovered it.
pub open spec fn tree_with(
    tree: Map<Seq<char>, Seq<char>>,
    cs: Seq<Seq<char>>,
    parent: Seq<char>,
) -> Map<Seq<char>, Seq<char>> {
    tree.union_prefer_right(Map::new(|k: Seq<char>| cs.contains(k), |k: Seq<char>| parent))
}

/// The children of an expansion are labeled vertices not yet visited.
pub proof fn lemma_children_ok(g: GraphModel, eql: Seq<Seq<char>>, node: Seq<char>)
    requires
        g.wf(),
    ensures
        forall|j: int|
            0 <= j < step_children(g, eql, node).len() ==> g.vkeys().contains(
                #[trigger] step_children(g, eql, node)[j],
            ) && !eql.contains(step_children(g, eql, node)[j]) && g.targets_of(node).contains(
                step_children(g, eql, node)[j],
            ),
{
    let targets = g.targets_of(node);
    let pred = |t: Seq<char>| !eql.contains(t);
    let f = targets.filter(pred);
    let cs = step_children(g, eql, node);
    lemma_targets_labeled(g, node);
    assert forall|j: int| 0 <= j < cs.len() implies g.vkeys().contains(#[trigger] cs[j])
        && !eql.contains(cs[j]) && g.targets_of(node).contains(cs[j]) by {
        assert(cs.contains(cs[j]));
        lemma_sort_contains(f, cs[j]);
        let i = choose|i: int| 0 <= i < f.len() && f[i] == cs[j];
        Seq::lemma_filter_pred(targets, pred, i);
        lemma_filter_sub(targets, pred, i);
        let m = choose|m: int| 0 <= m < targets.len() && targets[m] == f[i];
        assert(g.vkeys().contains(targets[m]));
    }
}

/// Visiting at least one new labeled vertex strictly shrinks the set of
/// labeled vertices not yet visited.
pub proof fn lemma_expand_decreases(g: GraphModel, eql: Seq<Seq<char>>, order: Seq<Seq<char>>)
    requires
        g.wf(),
        eql.to_set().subset_of(g.vkeys().to_set()),
        forall|j: int|
            0 <= j < order.len() ==> g.vkeys().contains(#[trigger] order[j]) && !eql.contains(
                order[j],
            ),
    ensures
        (eql + order).to_set().subset_of(g.vkeys().to_set()),
        order.len() > 0 ==> g.vkeys().to_set().difference((eql + order).to_set()).len() < g.vkeys(
        ).to_set().difference(eql.to_set()).len(),
{
    broadcast use seq_to_set_is_finite;
    broadcast use vstd::set::group_set_axioms;

    let ks = g.vkeys().to_set();
    assert forall|x: Seq<char>| (eql + order).to_set().contains(x) implies ks.contains(x) by {
        lemma_add_contains(eql, order, x);
        if order.contains(x) {
            let j = choose|j: int| 0 <= j < order.len() && order[j] == x;
            assert(g.vkeys().contains(order[j]));
        }
    }
    if order.len() > 0 {
        let e = order[0];
        assert(ks.contains(e));
        assert(!eql.to_set().contains(e));
        ks.lemma_set_insert_diff_decreases(eql.to_set(), e);
        let dn = ks.difference((eql + order).to_set());
        let dm = ks.difference(eql.to_set().insert(e));
        assert forall|x: Seq<char>| dn.contains(x) implies dm.contains(x) by {
            lemma_add_contains(eql, order, x);
        }
        assert(dn.subset_of(dm));
        lemma_len_subset(dn, dm);
    }
}

/// One complete run of the shared traversal loop from a given state. The
/// visited list, the frontier and the parent map evolve exactly as the
/// engine's loop drives them; `lifo` selects the stack discipline of
/// depth-first search over the queue discipline of breadth-first search.
pub open spec fn search_loop(
    g: GraphModel,
    lifo: bool,
    eql: Seq<Seq<char>>,
    fr: Seq<Seq<char>>,
    tree: Map<Seq<char>, Seq<char>>,
) -> Result<(Seq<char>, Map<Seq<char>, Seq<char>>), SearchError>
    decreases g.vkeys().to_set().difference(eql.to_set()).len(), fr.len(),
        when g.wf() && eql.to_set().subset_of(g.vkeys().to_set())
{
    if fr.len() == 0 {
        Err(SearchError::NoPathFound)
    } else {
        let node = if lifo {
            fr.last()
        } else {
            fr.first()
        };
        let rest = if lifo {
            fr.drop_last()
        } else {
            fr.drop_first()
        };
        if g.is_goal_spec(node) {
            Ok((node, tree))
        } else {
            let cs = step_children(g, eql, node);
            let order = if lifo {
                cs.reverse()
            } else {
                cs
            };
            proof {
                lemma_children_ok(g, eql, node);
                assert forall|j: int| 0 <= j < order.len() implies g.vkeys().contains(
                    #[trigger] order[j],
                ) && !eql.contains(order[j]) by {
                    if lifo {
                        assert(order[j] == cs[cs.len() - 1 - j]);
                    }
                }
                lemma_expand_decreases(g, eql, order);
                if order.len() == 0 {
                    assert(eql + order =~= eql);
                }
            }
            search_loop(g, lifo, eql + order, rest + order, tree_with(tree, order, node))
        }
    }
}

/// Adding one child at a time builds the same parent links as adding the
/// whole batch.
pub proof fn lemma_tree_with_step(
    t: Map<Seq<char>, Seq<char>>,
    s: Seq<Seq<char>>,
    k: int,
    p: Seq<char>,
)
    requires
        0 <= k < s.len(),
    ensures
        tree_with(t, s.take(k + 1), p) == tree_with(t, s.take(k), p).insert(s[k], p),
{
    let cs1 = s.take(k + 1);
    let cs0 = s.take(k);
    assert forall|x: Seq<char>| #[trigger] cs1.contains(x) implies cs0.contains(x) || x
        == s[k] by {
        let i = choose|i: int| 0 <= i < cs1.len() && cs1[i] == x;
        if i < k {
            assert(cs0[i] == x);
        } else {
            assert(cs1[i] == s[k]);
        }
    }
    assert forall|x: Seq<char>| #[trigger] cs0.contains(x) implies cs1.contains(x) by {
        let i = choose|i: int| 0 <= i < cs0.len() && cs0[i] == x;
        assert(cs1[i] == x);
    }
    assert(cs1.contains(s[k])) by {
        assert(cs1[k] == s[k]);
    }
    assert(tree_with(t, cs1, p) =~= tree_with(t, cs0, p).insert(s[k], p));
}

/// The result of one full search run over a graph, by the given frontier
/// discipline: the goal key and the finished parent map, or the failure.
pub open spec fn search_spec(g: GraphModel, lifo: bool) -> Result<
    (Seq<char>, Map<Seq<char>, Seq<char>>),
    SearchError,
> {
    match g.start_of() {
        None => Err(SearchError::NoStartNode),
        Some(s) => search_loop(g, lifo, seq![s], seq![s], Map::empty()),
    }
}

/// What a depth-first search returns, as a function of the graph alone.
pub open spec fn dfs_spec(g: GraphModel) -> Result<
    (Seq<char>, Map<Seq<char>, Seq<char>>),
    SearchError,
> {
    search_spec(g, true)
}

/// What a breadth-first search returns, as a function of the graph alone.
pub open spec fn bfs_spec(g: GraphModel) -> Result<
    (Seq<char>, Map<Seq<char>, Seq<char>>),
    SearchError,
> {
    search_spec(g, false)
}

/// A found solution: the goal vertex, the reconstructed start-to-goal
/// path, and the parent map of the whole explored search tree, kept for
/// external diagnostic rendering.
#[derive(Debug)]
pub struct Solution {
    pub goal: String,
    pub path: Vec<String>,
    pub tree: ParentMap,
}

/// What the engine promises of a run's outcome: the goal and the tree are
/// the ones the specification computes from the graph alone, the path is
/// the reconstruction from that tree, and a failure is the one the
/// specification gives.
pub open spec fn search_post(
    g: GraphModel,
    lifo: bool,
    r: Result<Solution, SearchError>,
) -> bool {
    match (r, search_spec(g, lifo)) {
        (Ok(sol), Ok(p)) => sol.goal@ == p.0 && sol.tree@ == p.1 && sol.tree.wf() && vids(
            sol.path@,
        ) == path_spec(p.1, p.0),
        (Err(e), Err(es)) => e == es,
        _ => false,
    }
}

fn search(graph: &Graph, lifo: bool) -> (r: Result<Solution, SearchError>)
    requires
        graph.wf(),
    ensures
        search_post(graph@, lifo, r),
{
    let start = match graph.get_start_node() {
        None => {
            return Err(SearchError::NoStartNode);
        },
        Some(s) => s,
    };
    let mut eql: Vec<String> = Vec::new();
    let mut frontier: Vec<String> = Vec::new();
    let mut tree = ParentMap::new();
    eql.push(start.clone());
    frontier.push(start);
    proof {
        lemma_find_start_in_keys(graph@.labels);
        assert(vids(eql@) =~= seq![graph@.start_of()->Some_0]);
        assert(vids(frontier@) =~= seq![graph@.start_of()->Some_0]);
        assert forall|x: Seq<char>| vids(eql@).to_set().contains(x) implies graph@.vkeys().to_set(
        ).contains(x) by {
            assert(vids(eql@)[0] == graph@.start_of()->Some_0);
        }
    }
    loop
        invariant
            graph.wf(),
            tree.wf(),
            vids(eql@).to_set().subset_of(graph@.vkeys().to_set()),
            search_loop(graph@, lifo, vids(eql@), vids(frontier@), tree@) == search_spec(
                graph@,
                lifo,
            ),
        decreases graph@.vkeys().to_set().difference(vids(eql@).to_set()).len(), frontier@.len(),
    {
        let ghost eqlv = vids(eql@);
        let ghost frv = vids(frontier@);
        let ghost tr0 = tree@;
        if frontier.len() == 0 {
            proof {
                assert(search_loop(graph@, lifo, eqlv, frv, tr0) == Err::<
                    (Seq<char>, Map<Seq<char>, Seq<char>>),
                    SearchError,
                >(SearchError::NoPathFound));
            }
            return Err(SearchError::NoPathFound);
        }
        let node = if lifo {
            match frontier.pop() {
                Some(n) => n,
                None => vstd::pervasive::unreached(),
            }
        } else {
            frontier.remove(0)
        };
        proof {
            if lifo {
                assert(node@ == frv.last());
                assert(vids(frontier@) =~= frv.drop_last());
            } else {
                assert(node@ == frv.first());
                assert(vids(frontier@) =~= frv.drop_first());
            }
        }
        if graph.is_goal(node.as_str()) {
            proof {
                assert(search_spec(graph@, lifo) == Ok::<
                    (Seq<char>, Map<Seq<char>, Seq<char>>),
                    SearchError,
                >((node@, tree@)));
            }
            let path = tree.build_path(node.as_str());
            return Ok(Solution { goal: node, path, tree });
        }
        let expanded = graph.expand(node.as_str());
        let ghost pred = |t: Seq<char>| !eqlv.contains(t);
        let mut kept: Vec<String> = Vec::new();
        let mut j: usize = 0;
        proof {
            assert(vids(expanded@).take(0) =~= Seq::<Seq<char>>::empty());
            assert(Seq::<Seq<char>>::empty().filter(pred) =~= Seq::<Seq<char>>::empty()) by {
                reveal(Seq::filter);
            }
            assert(vids(kept@) =~= Seq::<Seq<char>>::empty());
        }
        while j < expanded.len()
            invariant
                j <= expanded@.len(),
                eqlv == vids(eql@),
                pred == (|t: Seq<char>| !eqlv.contains(t)),
                vids(expanded@).len() == expanded@.len(),
                vids(kept@) == vids(expanded@).take(j as int).filter(pred),
            decreases expanded@.len() - j,
        {
            let ghost tk = vids(expanded@).take(j as int);
            let ghost x = vids(expanded@)[j as int];
            let in_eql = contains_id(&eql, &expanded[j]);
            let ghost pre_kept = vids(kept@);
            if !in_eql {
                kept.push(expanded[j].clone());
                proof {
                    assert(vids(kept@) =~= pre_kept.push(x));
                }
            }
            proof {
                assert(vids(expanded@).take(j as int + 1) =~= tk + seq![x]);
                Seq::filter_distributes_over_add(tk, seq![x], pred);
                assert(seq![x].drop_last() =~= Seq::<Seq<char>>::empty());
                assert(seq![x].filter(pred) == if pred(x) {
                    seq![x]
                } else {
                    Seq::<Seq<char>>::empty()
                }) by {
                    reveal(Seq::filter);
                    assert(seq![x].drop_last() =~= Seq::<Seq<char>>::empty());
                    assert(Seq::<Seq<char>>::empty().filter(pred) =~= Seq::<Seq<char>>::empty());
                    assert(seq![x].last() == x);
                    assert(Seq::<Seq<char>>::empty().push(x) =~= seq![x]);
                }
                if pred(x) {
                    assert(vids(kept@) =~= tk.filter(pred) + seq![x]);
                } else {
                    assert(vids(kept@) =~= tk.filter(pred) + Seq::<Seq<char>>::empty());
                }
            }
            j = j + 1;
        }
        proof {
            assert(vids(expanded@).take(expanded@.len() as int) =~= vids(expanded@));
        }
        let children = sort_ids(&kept);
        let ordered = if lifo {
            reverse_ids(&children)
        } else {
            children
        };
        let ghost cs = step_children(graph@, eqlv, node@);
        let ghost order = if lifo {
            cs.reverse()
        } else {
            cs
        };
        proof {
            assert(vids(ordered@) == order);
        }
        let mut k: usize = 0;
        proof {
            assert(vids(eql@) =~= eqlv + order.take(0));
            assert(vids(frontier@) =~= vids(frontier@) + order.take(0));
            assert(tree@ =~= tree_with(tr0, order.take(0), node@));
        }
        let ghost fr1 = vids(frontier@);
        while k < ordered.len()
            invariant
                k <= ordered@.len(),
                order == vids(ordered@),
                tree.wf(),
                vids(eql@) == eqlv + order.take(k as int),
                vids(frontier@) == fr1 + order.take(k as int),
                tree@ == tree_with(tr0, order.take(k as int), node@),
            decreases ordered@.len() - k,
        {
            let ghost pre_eql = vids(eql@);
            let ghost pre_fr = vids(frontier@);
            eql.push(ordered[k].clone());
            frontier.push(ordered[k].clone());
            tree.insert(ordered[k].as_str(), node.as_str());
            proof {
                assert(vids(eql@) =~= pre_eql.push(order[k as int]));
                assert(vids(frontier@) =~= pre_fr.push(order[k as int]));
                assert(pre_eql.push(order[k as int]) =~= eqlv + order.take(k as int + 1));
                assert(pre_fr.push(order[k as int]) =~= fr1 + order.take(k as int + 1));
                lemma_tree_with_step(tr0, order, k as int, node@);
            }
            k = k + 1;
        }
        proof {
            assert(order.take(order.len() as int) =~= order);
            lemma_children_ok(graph@, eqlv, node@);
            assert forall|m: int| 0 <= m < order.len() implies graph@.vkeys().contains(
                #[trigger] order[m],
            ) && !eqlv.contains(order[m]) by {
                if lifo {
                    assert(order[m] == cs[cs.len() - 1 - m]);
                }
            }
            lemma_expand_decreases(graph@, eqlv, order);
            if order.len() == 0 {
                assert(eqlv + order =~= eqlv);
            }
            assert(search_loop(graph@, lifo, eqlv, frv, tr0) == search_loop(
                graph@,
                lifo,
                eqlv + order,
                fr1 + order,
                tree_with(tr0, order, node@),
            ));
        }
    }
}

/// Depth-first search over the graph: explores the most recently
/// discovered vertex first; among the children of one expansion, the
/// smallest identifier first. Returns the first goal vertex it pops,
/// together with the reconstructed path and the explored search tree.
/// Deterministic: the outcome is a function of the graph alone.
pub fn dfs(graph: &Graph) -> (r: Result<Solution, SearchError>)
    requires
        graph.wf(),
    ensures
        search_post(graph@, true, r),
{
    search(graph, true)
}

/// Breadth-first search over the graph: explores vertices in discovery
/// order; among the children of one expansion, the smallest identifier
/// first. Returns the first goal vertex it pops, together with the
/// reconstructed path and the explored search tree. Deterministic: the
/// outcome is a function of the graph alone.
pub fn bfs(graph: &Graph) -> (r: Result<Solution, SearchError>)
    requires
        graph.wf(),
    ensures
        search_post(graph@, false, r),
{
    search(graph, false)
}

/// The closed set of search algorithms a caller can run.
#[derive(Clone, Copy, Debug, PartialEq, Eq, Structural)]
pub enum Algorithm {
    Dfs,
    Bfs,
    Ucs,
}

/// Runs the chosen algorithm over the graph and renders the resulting
/// start-to-goal path as arrow-joined text; the per-algorithm entry
/// points additionally expose the explored search tree.
pub fn run(graph: &Graph, algorithm: Algorithm) -> (r: Result<String, SearchError>)
    requires
        graph.wf(),
        (algorithm == Algorithm::Ucs && graph@.start_of() is Some) ==> crate::ucs::weights_ok(
            graph@,
        ) && crate::ucs::total_weight_bound(graph@) <= i32::MAX,
    ensures
        match algorithm {
            Algorithm::Dfs => (match (r, dfs_spec(graph@)) {
                (Ok(t), Ok(p)) => t@ == crate::tree::join_arrows(path_spec(p.1, p.0)),
                (Err(e), Err(es)) => e == es,
                _ => false,
            }),
            Algorithm::Bfs => (match (r, bfs_spec(graph@)) {
                (Ok(t), Ok(p)) => t@ == crate::tree::join_arrows(path_spec(p.1, p.0)),
                (Err(e), Err(es)) => e == es,
                _ => false,
            }),
            Algorithm::Ucs => crate::ucs::ucs_post(graph@, r),
        },
{
    match algorithm {
        Algorithm::Dfs => {
            match dfs(graph) {
                Ok(sol) => Ok(crate::tree::join_path(&sol.path)),
                Err(e) => Err(e),
            }
        },
        Algorithm::Bfs => {
            match bfs(graph) {
                Ok(sol) => Ok(crate::tree::join_path(&sol.path)),
                Err(e) => Err(e),
            }
        },
        Algorithm::Ucs => {
            let mut solver = crate::ucs::UcsSolver::new(graph);
            solver.solve()
        },
    }
}

} // verus!
