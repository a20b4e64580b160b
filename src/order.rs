use vstd::prelude::*;

use petgraph::graph::{DiGraph, NodeIndex};

use crate::error::{EngineError, ErrorView};
use crate::expression::deps_of;
use crate::module::{ids_of, node_views, Module, NodeView};

verus! {

/// The ids node `n`'s three conditions read, in order.
pub open spec fn reads_of(n: NodeView) -> Seq<Seq<char>> {
    deps_of(n.enabled_by) + deps_of(n.unlocked_by) + deps_of(n.completed_by)
}

/// Node `j` reads node `i`, so `i` must settle before `j` is evaluated.
pub open spec fn depends(nodes: Seq<NodeView>, i: int, j: int) -> bool {
    0 <= i < nodes.len() && 0 <= j < nodes.len() && reads_of(nodes[j]).contains(nodes[i].id)
}

/// Position `v` stands somewhere in `order`.
pub open spec fn lists(order: Seq<usize>, v: int) -> bool {
    exists|p: int| 0 <= p < order.len() && order[p] as int == v
}

/// `order` lists every node position once, each after all the nodes it reads.
pub open spec fn is_eval_order(nodes: Seq<NodeView>, order: Seq<usize>) -> bool {
    &&& order.len() == nodes.len()
    &&& forall|p: int| 0 <= p < order.len() ==> order[p] < nodes.len()
    &&& forall|v: int| 0 <= v < nodes.len() ==> #[trigger] lists(order, v)
    &&& forall|p: int, q: int| 0 <= p < q < order.len() ==> order[p] != order[q]
    &&& forall|p: int, q: int|
        0 <= p < order.len() && 0 <= q < order.len() && depends(
            nodes,
            order[p] as int,
            order[q] as int,
        ) ==> p < q
}

/// Some nodes read each other in a ring.
pub open spec fn dependency_cycle(nodes: Seq<NodeView>) -> bool {
    exists|c: Seq<int>|
        c.len() > 0 && forall|k: int|
            0 <= k < c.len() ==> #[trigger] depends(nodes, c[k], c[(k + 1) % (c.len() as int)])
}

/// `order` lists each of the `n` nodes once, and every edge goes forward in it.
pub open spec fn topological(n: nat, edges: Seq<(usize, usize)>, order: Seq<usize>) -> bool {
    &&& order.len() == n
    &&& forall|p: int| 0 <= p < order.len() ==> order[p] < n
    &&& forall|v: usize| v < n ==> order.contains(v)
    &&& forall|p: int, q: int| 0 <= p < q < order.len() ==> order[p] != order[q]
    &&& forall|p: int, q: int|
        0 <= p < order.len() && 0 <= q < order.len() && edges.contains((order[p], order[q])) ==> p
            < q
}

/// Following the edges leads from some node back to itself.
pub open spec fn edge_cycle(edges: Seq<(usize, usize)>) -> bool {
    exists|c: Seq<usize>|
        c.len() > 0 && forall|k: int|
            0 <= k < c.len() ==> #[trigger] edges.contains((c[k], c[(k + 1) % (c.len() as int)]))
}

/// Relies on petgraph's `Graph::with_capacity`, `add_node` and `add_edge` to build
/// the graph of `node_count` nodes and the given edges, and on `algo::toposort`:
/// `Ok` holds every node once, each before its successors; `Err` means a cycle.
#[verifier::external_body]
fn toposort_graph(node_count: usize, edges: &Vec<(usize, usize)>) -> (r: Option<Vec<usize>>)
    requires
        forall|k: int| 0 <= k < edges.len() ==> edges[k].0 < node_count && edges[k].1 < node_count,
    ensures
        match r {
            Some(order) => topological(node_count as nat, edges@, order@),
            None => edge_cycle(edges@),
        },
{
    let mut g = DiGraph::<(), (), usize>::with_capacity(node_count, edges.len());
    for _ in 0..node_count {
        g.add_node(());
    }
    for &(a, b) in edges.iter() {
        g.add_edge(NodeIndex::new(a), NodeIndex::new(b), ());
    }
    match petgraph::algo::toposort(&g, None) {
        Ok(nodes) => Some(nodes.iter().map(|n| n.index()).collect()),
        Err(_) => None,
    }
}

/// The ids the conditions of `m.nodes[j]` read.
fn node_reads(m: &Module, j: usize) -> (r: Vec<String>)
    requires
        j < m.nodes.len(),
    ensures
        r@.map_values(|s: String| s@) == reads_of(m.nodes[j as int]@),
{
    let info = &m.nodes[j];
    let mut d = info.enabled_by.deps();
    let mut u = info.unlocked_by.deps();
    let mut c = info.completed_by.deps();
    let ghost (dv, uv, cv) = (d@, u@, c@);
    d.append(&mut u);
    d.append(&mut c);
    assert(d@ == dv + uv + cv);
    assert(d@.map_values(|s: String| s@) =~= dv.map_values(|s: String| s@) + uv.map_values(
        |s: String| s@,
    ) + cv.map_values(|s: String| s@));
    d
}

/// An order in which every node can be evaluated after all the nodes it reads.
/// Ids that no node has are left out of the graph.
pub fn dependency_order(m: &Module) -> (r: Result<Vec<usize>, EngineError>)
    requires
        m.wf(),
    ensures
        match r {
            Ok(order) => is_eval_order(node_views(m.nodes@), order@),
            Err(e) => e@ == ErrorView::CycleDetected && dependency_cycle(node_views(m.nodes@)),
        },
{
    let ghost nodes = node_views(m.nodes@);
    let n = m.nodes.len();
    let mut edges: Vec<(usize, usize)> = Vec::new();
    let mut j: usize = 0;
    while j < n
        invariant
            n == m.nodes.len(),
            nodes == node_views(m.nodes@),
            m.wf(),
            j <= n,
            forall|k: int|
                0 <= k < edges.len() ==> edges[k].0 < n && edges[k].1 < n && depends(
                    nodes,
                    edges[k].0 as int,
                    edges[k].1 as int,
                ),
            forall|a: int, b: int|
                0 <= a < n && 0 <= b < j && depends(nodes, a, b) ==> edges@.contains(
                    (a as usize, b as usize),
                ),
        decreases n - j,
    {
        let reads = node_reads(m, j);
        let ghost rv = reads@.map_values(|s: String| s@);
        let mut t: usize = 0;
        while t < reads.len()
            invariant
                n == m.nodes.len(),
                nodes == node_views(m.nodes@),
                m.wf(),
                j < n,
                t <= reads.len(),
                rv == reads@.map_values(|s: String| s@),
                rv == reads_of(nodes[j as int]),
                forall|k: int|
                    0 <= k < edges.len() ==> edges[k].0 < n && edges[k].1 < n && depends(
                        nodes,
                        edges[k].0 as int,
                        edges[k].1 as int,
                    ),
                forall|a: int, b: int|
                    0 <= a < n && 0 <= b < j && depends(nodes, a, b) ==> edges@.contains(
                        (a as usize, b as usize),
                    ),
                forall|a: int, s: int|
                    0 <= a < n && 0 <= s < t && rv[s] == nodes[a].id ==> edges@.contains(
                        (a as usize, j),
                    ),
            decreases reads.len() - t,
        {
            match m.find(&reads[t]) {
                Some(i) => {
                    let ghost before = edges@;
                    edges.push((i, j));
                    proof {
                        assert(nodes[i as int].id == rv[t as int]);
                        assert(reads_of(nodes[j as int]).contains(nodes[i as int].id));
                        assert forall|a: int, s: int|
                            0 <= a < n && 0 <= s <= t && rv[s] == nodes[a].id implies edges@.contains(
                            (a as usize, j),
                        ) by {
                            if s == t {
                                if a != i {
                                    assert(ids_of(nodes)[a] != ids_of(nodes)[i as int]);
                                }
                                assert(edges@[before.len() as int] == (i, j));
                            } else {
                                assert(before.contains((a as usize, j)));
                                let w = choose|w: int| 0 <= w < before.len() && before[w] == (
                                    a as usize,
                                    j,
                                );
                                assert(edges@[w] == before[w]);
                            }
                        }
                        assert forall|a: int, b: int|
                            0 <= a < n && 0 <= b < j && depends(nodes, a, b) implies edges@.contains(
                            (a as usize, b as usize),
                        ) by {
                            let w = choose|w: int| 0 <= w < before.len() && before[w] == (
                                a as usize,
                                b as usize,
                            );
                            assert(edges@[w] == before[w]);
                        }
                    }
                },
                None => {
                    proof {
                        assert forall|a: int, s: int|
                            0 <= a < n && 0 <= s <= t && rv[s] == nodes[a].id implies edges@.contains(
                            (a as usize, j),
                        ) by {
                            if s == t {
                                assert(m.nodes[a].id@ == nodes[a].id);
                            }
                        }
                    }
                },
            }
            t = t + 1;
        }
        proof {
            assert forall|a: int, b: int|
                0 <= a < n && 0 <= b < j + 1 && depends(nodes, a, b) implies edges@.contains(
                (a as usize, b as usize),
            ) by {
                if b == j {
                    let s = choose|s: int| 0 <= s < rv.len() && rv[s] == nodes[a].id;
                }
            }
        }
        j = j + 1;
    }
    match toposort_graph(n, &edges) {
        Some(order) => {
            proof {
                assert forall|p: int, q: int|
                    0 <= p < order.len() && 0 <= q < order.len() && depends(
                        nodes,
                        order[p] as int,
                        order[q] as int,
                    ) implies p < q by {
                    assert(edges@.contains((order[p], order[q])));
                }
                assert forall|v: int| 0 <= v < n implies #[trigger] lists(order@, v) by {
                    assert(order@.contains(v as usize));
                }
            }
            Ok(order)
        },
        None => {
            proof {
                let c = choose|c: Seq<usize>|
                    c.len() > 0 && forall|k: int|
                        0 <= k < c.len() ==> #[trigger] edges@.contains(
                            (c[k], c[(k + 1) % (c.len() as int)]),
                        );
                let ci = c.map_values(|x: usize| x as int);
                assert forall|k: int| 0 <= k < ci.len() implies #[trigger] depends(
                    nodes,
                    ci[k],
                    ci[(k + 1) % (ci.len() as int)],
                ) by {
                    assert(edges@.contains((c[k], c[(k + 1) % (c.len() as int)])));
                    let w = choose|w: int| 0 <= w < edges.len() && edges@[w] == (
                        c[k],
                        c[(k + 1) % (c.len() as int)],
                    );
                }
                assert(ci.len() > 0);
            }
            Err(EngineError::CycleDetected)
        },
    }
}

/// Two nodes whose unlock conditions read each other admit no evaluation
/// order: they form a dependency cycle, so building the order fails and no
/// engine is made.
pub proof fn lemma_mutual_unlock_cycle(nodes: Seq<NodeView>, i: int, j: int, order: Seq<usize>)
    requires
        0 <= i < nodes.len(),
        0 <= j < nodes.len(),
        i != j,
        deps_of(nodes[i].unlocked_by).contains(nodes[j].id),
        deps_of(nodes[j].unlocked_by).contains(nodes[i].id),
    ensures
        dependency_cycle(nodes),
        !is_eval_order(nodes, order),
{
    lemma_unlock_read(nodes[i], nodes[j].id);
    lemma_unlock_read(nodes[j], nodes[i].id);
    assert(depends(nodes, j, i));
    assert(depends(nodes, i, j));
    let c = seq![i, j];
    assert forall|k: int| 0 <= k < c.len() implies #[trigger] depends(
        nodes,
        c[k],
        c[(k + 1) % (c.len() as int)],
    ) by {
        assert(c.len() as int == 2);
        if k == 0 {
            assert((k + 1) % 2 == 1);
        } else {
            assert((k + 1) % 2 == 0);
        }
    }
    if is_eval_order(nodes, order) {
        assert(lists(order, i));
        assert(lists(order, j));
        let p = choose|p: int| 0 <= p < order.len() && order[p] as int == i;
        let q = choose|q: int| 0 <= q < order.len() && order[q] as int == j;
        assert(depends(nodes, order[q] as int, order[p] as int));
        assert(depends(nodes, order[p] as int, order[q] as int));
    }
}

proof fn lemma_unlock_read(n: NodeView, id: Seq<char>)
    requires
        deps_of(n.unlocked_by).contains(id),
    ensures
        reads_of(n).contains(id),
{
    let de = deps_of(n.enabled_by);
    let du = deps_of(n.unlocked_by);
    let t = choose|t: int| 0 <= t < du.len() && du[t] == id;
    assert(reads_of(n)[de.len() + t] == id);
}

} // verus!
