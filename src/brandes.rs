use vstd::prelude::*;
use vstd::set_lib::{lemma_int_range, lemma_len_subset, set_int_range};
use crate::closeness::{complete_unit, isolated};
use crate::model::{EdgeModel, adjacent, cross, reachable, walk_end};
use crate::store::CentralityGraph;

verus! {

/// What the forward phase of Brandes' algorithm learns from one source:
/// the nodes in the order they were first reached, the hop distance of each
/// reached node, and for each node the neighbours that precede it on a
/// shortest path (once per edge that joins them).
pub struct ShortestPathDag {
    pub order: Vec<usize>,
    pub dist: Vec<Option<usize>>,
    pub pred: Vec<Vec<usize>>,
}

/// The hop distance recorded for `v`.
pub open spec fn hops(dist: Seq<Option<usize>>, v: int) -> int {
    dist[v].unwrap() as int
}

/// Breadth-first layering of a graph with `n` nodes from source `s`: the
/// recorded order, distances and predecessor lists are consistent with each
/// other and with the edges.
pub open spec fn is_bfs_layering(
    edges: Seq<crate::model::EdgeModel>,
    n: nat,
    s: nat,
    order: Seq<usize>,
    dist: Seq<Option<usize>>,
    pred: Seq<Seq<usize>>,
) -> bool {
    &&& dag_shape(n, s, order, dist, pred)
    // each predecessor is a neighbour
    &&& forall|w: int, k: int| 0 <= w < n && 0 <= k < pred[w].len() ==> adjacent(edges, #[trigger] pred[w][k] as nat, w as nat)
    // the reached set is closed under edges, and no edge skips a layer
    &&& forall|v: int, x: nat| 0 <= v < n && dist[v] is Some && #[trigger] adjacent(edges, v as nat, x) ==> {
        &&& x < n
        &&& dist[x as int] is Some
        &&& hops(dist, x as int) <= hops(dist, v) + 1
        &&& (hops(dist, x as int) == hops(dist, v) + 1 ==> pred[x as int].contains(v as usize))
    }
}

/// The part of a breadth-first layering that does not mention the edges:
/// the order, the distances and the predecessor lists agree with each other.
pub open spec fn dag_shape(
    n: nat,
    s: nat,
    order: Seq<usize>,
    dist: Seq<Option<usize>>,
    pred: Seq<Seq<usize>>,
) -> bool {
    &&& dist.len() == n
    &&& pred.len() == n
    &&& order.len() > 0
    &&& order[0] == s
    &&& dist[s as int] == Some(0usize)
    &&& order.no_duplicates()
    &&& forall|i: int| 0 <= i < order.len() ==> (#[trigger] order[i]) < n && dist[order[i] as int] is Some
    &&& forall|v: int| 0 <= v < n && (#[trigger] dist[v]) is Some ==> order.contains(v as usize)
    // nodes are reached in order of distance
    &&& forall|i: int, j: int| 0 <= i < j < order.len() ==> hops(dist, #[trigger] order[i] as int) <= hops(dist, #[trigger] order[j] as int)
    // each predecessor is one step closer to the source
    &&& forall|w: int, k: int| 0 <= w < n && 0 <= k < pred[w].len() ==> {
        let p = #[trigger] pred[w][k];
        &&& p < n
        &&& dist[p as int] is Some
        &&& dist[w] is Some
        &&& hops(dist, p as int) + 1 == hops(dist, w)
    }
    // every reached node but the source has a predecessor
    &&& forall|w: int| 0 <= w < n && w != s && (#[trigger] dist[w]) is Some ==> pred[w].len() > 0
}

impl ShortestPathDag {
    /// The predecessor lists as sequences.
    pub open spec fn pred_view(&self) -> Seq<Seq<usize>> {
        self.pred@.map_values(|l: Vec<usize>| l@)
    }
}

/// The forward phase of Brandes' algorithm from source `s`: a breadth-first
/// search that records the discovery order, the hop distance of every reached
/// node and its shortest-path predecessors.
pub fn shortest_path_dag(g: &CentralityGraph, s: usize) -> (r: ShortestPathDag)
    requires
        g.wf(),
        s < g.count(),
    ensures
        is_bfs_layering(g.edges(), g.count(), s as nat, r.order@, r.dist@, r.pred_view()),
{
    let n = g.node_count();
    let mut dist: Vec<Option<usize>> = Vec::new();
    let mut pred: Vec<Vec<usize>> = Vec::new();
    let mut k: usize = 0;
    while k < n
        invariant
            k <= n,
            dist.len() == k,
            pred.len() == k,
            forall|v: int| 0 <= v < k ==> (#[trigger] dist[v]) is None,
            forall|v: int| 0 <= v < k ==> (#[trigger] pred[v]).len() == 0,
        decreases n - k,
    {
        dist.push(None);
        pred.push(Vec::new());
        k = k + 1;
    }
    dist.set(s, Some(0));
    let mut order: Vec<usize> = Vec::new();
    order.push(s);
    let ghost edges = g.edges();
    let mut head: usize = 0;
    assert(order@.no_duplicates());
    assert(order@[0] == s);
    assert forall|v: int| 0 <= v < n && (#[trigger] dist[v]) is Some implies order@.contains(v as usize) by {
        assert(v == s);
    }
    while head < order.len()
        invariant
            g.wf(),
            edges == g.edges(),
            n == g.count(),
            dist.len() == n,
            pred.len() == n,
            s < n,
            order.len() > 0,
            order[0] == s,
            dist[s as int] == Some(0usize),
            head <= order.len(),
            head == 0 ==> order.len() == 1,
            order@.no_duplicates(),
            forall|i: int| 0 <= i < order.len() ==> (#[trigger] order[i]) < n && dist[order[i] as int] is Some,
            forall|v: int| 0 <= v < n && (#[trigger] dist[v]) is Some ==> order@.contains(v as usize),
            forall|i: int, j: int| 0 <= i < j < order.len() ==> hops(dist@, #[trigger] order[i] as int) <= hops(dist@, #[trigger] order[j] as int),
            forall|j: int| 0 <= j < order.len() ==> hops(dist@, #[trigger] order[j] as int) <= j,
            head > 0 ==> forall|j: int| 0 <= j < order.len() ==> hops(dist@, #[trigger] order[j] as int) <= hops(dist@, order[head - 1] as int) + 1,
            forall|w: int, k: int| 0 <= w < n && 0 <= k < pred[w].len() ==> {
                let p = #[trigger] pred[w][k];
                &&& p < n
                &&& dist[p as int] is Some
                &&& dist[w] is Some
                &&& hops(dist@, p as int) + 1 == hops(dist@, w)
                &&& adjacent(edges, p as nat, w as nat)
            },
            forall|w: int| 0 <= w < n && w != s && (#[trigger] dist[w]) is Some ==> pred[w].len() > 0,
            forall|i: int, x: nat| 0 <= i < head && #[trigger] adjacent(edges, order[i] as nat, x) ==> {
                &&& x < n
                &&& dist[x as int] is Some
                &&& hops(dist@, x as int) <= hops(dist@, order[i] as int) + 1
                &&& (hops(dist@, x as int) == hops(dist@, order[i] as int) + 1 ==> pred[x as int]@.contains(order[i]))
            },
        decreases n - head,
    {
        proof { lemma_distinct_below(order@, n as int); }
        let v = order[head];
        let dv = dist[v].unwrap();
        let nb = g.neighbors(v);
        assert forall|jj: int| 0 <= jj < nb.len() implies (#[trigger] nb[jj]) < n by {
            g.lemma_adjacent_in_range(v as nat, nb[jj] as nat);
        }
        let mut j: usize = 0;
        while j < nb.len()
            invariant
                g.wf(),
                edges == g.edges(),
                n == g.count(),
                dist.len() == n,
                pred.len() == n,
                s < n,
                v < n,
                head < order.len(),
                order[head as int] == v,
                dist[v as int] == Some(dv),
                dv <= head,
                order.len() > 0,
                order[0] == s,
                dist[s as int] == Some(0usize),
                order@.no_duplicates(),
                forall|i: int| 0 <= i < order.len() ==> (#[trigger] order[i]) < n && dist[order[i] as int] is Some,
                forall|v: int| 0 <= v < n && (#[trigger] dist[v]) is Some ==> order@.contains(v as usize),
                forall|i: int, j: int| 0 <= i < j < order.len() ==> hops(dist@, #[trigger] order[i] as int) <= hops(dist@, #[trigger] order[j] as int),
                forall|j: int| 0 <= j < order.len() ==> hops(dist@, #[trigger] order[j] as int) <= j,
                forall|j: int| 0 <= j < order.len() ==> hops(dist@, #[trigger] order[j] as int) <= dv + 1,
                forall|w: int, k: int| 0 <= w < n && 0 <= k < pred[w].len() ==> {
                    let p = #[trigger] pred[w][k];
                    &&& p < n
                    &&& dist[p as int] is Some
                    &&& dist[w] is Some
                    &&& hops(dist@, p as int) + 1 == hops(dist@, w)
                    &&& adjacent(edges, p as nat, w as nat)
                },
                forall|w: int| 0 <= w < n && w != s && (#[trigger] dist[w]) is Some ==> pred[w].len() > 0,
                forall|i: int, x: nat| 0 <= i < head && #[trigger] adjacent(edges, order[i] as nat, x) ==> {
                    &&& x < n
                    &&& dist[x as int] is Some
                    &&& hops(dist@, x as int) <= hops(dist@, order[i] as int) + 1
                    &&& (hops(dist@, x as int) == hops(dist@, order[i] as int) + 1 ==> pred[x as int]@.contains(order[i]))
                },
                forall|jj: int| 0 <= jj < nb.len() ==> adjacent(edges, v as nat, #[trigger] nb[jj] as nat),
                j <= nb.len(),
                forall|jj: int| 0 <= jj < nb.len() ==> (#[trigger] nb[jj]) < n,
                forall|jj: int| 0 <= jj < j ==> {
                    let x = #[trigger] nb[jj];
                    &&& dist[x as int] is Some
                    &&& hops(dist@, x as int) <= dv + 1
                    &&& (hops(dist@, x as int) == dv + 1 ==> pred[x as int]@.contains(v))
                },
            decreases nb.len() - j,
        {
            let w = nb[j];
            proof { g.lemma_adjacent_in_range(v as nat, w as nat); }
            let ghost dist1 = dist@;
            let ghost pred1 = pred@;
            let ghost order1 = order@;
            if dist[w].is_none() {
                proof { lemma_distinct_below(order@, n as int); }
                dist.set(w, Some(dv + 1));
                order.push(w);
                proof {
                    assert(order@[order@.len() - 1] == w);
                    assert forall|u: int| 0 <= u < n && (#[trigger] dist[u]) is Some implies order@.contains(u as usize) by {
                        if u != w {
                            assert(dist1[u] is Some);
                            let i = choose|i: int| 0 <= i < order1.len() && order1[i] == u as usize;
                            assert(order@[i] == u as usize);
                        }
                    }
                    assert forall|a: int, b: int| 0 <= a < b < order@.len() implies order@[a] != order@[b] by {
                        if b == order1.len() {
                            assert(dist1[order1[a] as int] is Some);
                        } else {
                            assert(order1[a] != order1[b]);
                        }
                    }
                }
            }
            let ghost dist2 = dist@;
            let ghost pred2 = pred@;
            if dist[w] == Some(dv + 1) {
                pred[w].push(v);
                proof {
                    assert(pred@[w as int]@ == pred2[w as int]@.push(v));
                    assert(pred@[w as int]@[pred2[w as int]@.len() as int] == v);
                    assert forall|u: int| 0 <= u < n && u != w implies pred@[u] == pred2[u] by {}
                }
            }
            proof {
                assert forall|u: int, c: usize| 0 <= u < n && pred1[u]@.contains(c) implies #[trigger] pred@[u]@.contains(c) by {
                    if u == w && pred@[u]@ != pred2[u]@ {
                        let i = choose|i: int| 0 <= i < pred1[u]@.len() && pred1[u]@[i] == c;
                        assert(pred@[u]@[i] == c);
                    }
                }
                assert(pred@[w as int]@.contains(v) || hops(dist@, w as int) != dv + 1);
            }
            j = j + 1;
        }
        proof {
            assert forall|i: int, x: nat| 0 <= i < head + 1 && #[trigger] adjacent(edges, order[i] as nat, x) implies {
                &&& x < n
                &&& dist[x as int] is Some
                &&& hops(dist@, x as int) <= hops(dist@, order[i] as int) + 1
                &&& (hops(dist@, x as int) == hops(dist@, order[i] as int) + 1 ==> pred[x as int]@.contains(order[i]))
            } by {
                if i == head {
                    g.lemma_adjacent_in_range(v as nat, x);
                    assert(order[i] == v);
                    assert(nb@.contains(x as usize));
                    let jj = choose|jj: int| 0 <= jj < nb.len() && nb@[jj] == x as usize;
                    assert(nb[jj] == x as usize);
                }
            }
        }
        head = head + 1;
    }
    ShortestPathDag { order, dist, pred }
}

/// Sum of `c[p]` over the entries `p` of `ps`, repeats included.
pub open spec fn pred_sum(c: Seq<u64>, ps: Seq<usize>) -> int
    decreases ps.len(),
{
    if ps.len() == 0 {
        0
    } else {
        pred_sum(c, ps.drop_last()) + c[ps.last() as int]
    }
}

/// `c` counts the shortest paths from `s`: one for the source, for every other
/// reached node the sum over its predecessor entries, and none for a node that
/// was not reached.
pub open spec fn counts_paths(
    n: nat,
    s: nat,
    dist: Seq<Option<usize>>,
    pred: Seq<Seq<usize>>,
    c: Seq<u64>,
) -> bool {
    &&& c.len() == n
    &&& c[s as int] == 1
    &&& forall|w: int| 0 <= w < n && w != s ==> #[trigger] c[w] == if dist[w] is Some {
        pred_sum(c, pred[w])
    } else {
        0
    }
}

proof fn lemma_pred_sum_agree(c1: Seq<u64>, c2: Seq<u64>, ps: Seq<usize>)
    requires
        forall|k: int| 0 <= k < ps.len() ==> c1[#[trigger] ps[k] as int] == c2[ps[k] as int],
    ensures
        pred_sum(c1, ps) == pred_sum(c2, ps),
    decreases ps.len(),
{
    if ps.len() > 0 {
        let rest = ps.drop_last();
        assert forall|k: int| 0 <= k < rest.len() implies c1[#[trigger] rest[k] as int] == c2[rest[k] as int] by {
            assert(rest[k] == ps[k]);
        }
        lemma_pred_sum_agree(c1, c2, rest);
        assert(c1[ps[ps.len() - 1] as int] == c2[ps[ps.len() - 1] as int]);
    }
}

proof fn lemma_pred_sum_prefix(c: Seq<u64>, ps: Seq<usize>, k: int)
    requires
        0 <= k <= ps.len(),
    ensures
        pred_sum(c, ps.take(k)) <= pred_sum(c, ps),
    decreases ps.len() - k,
{
    if k < ps.len() {
        lemma_pred_sum_prefix(c, ps, k + 1);
        assert(ps.take(k + 1).drop_last() =~= ps.take(k));
    } else {
        assert(ps.take(k) =~= ps);
    }
}

/// `x` stands among the first `idx` entries of `order`.
spec fn found_before(order: Seq<usize>, idx: int, x: usize) -> bool {
    exists|jp: int| 0 <= jp < idx && #[trigger] order[jp] == x
}

/// A predecessor is found earlier in the order than the node it precedes.
proof fn lemma_pred_earlier(
    n: nat,
    s: nat,
    order: Seq<usize>,
    dist: Seq<Option<usize>>,
    pred: Seq<Seq<usize>>,
    jw: int,
    k: int,
) -> (jp: int)
    requires
        dag_shape(n, s, order, dist, pred),
        0 <= jw < order.len(),
        0 <= k < pred[order[jw] as int].len(),
    ensures
        0 <= jp < jw,
        order[jp] == pred[order[jw] as int][k],
{
    let w = order[jw] as int;
    let p = pred[w][k];
    assert(dist[p as int] is Some);
    assert(order.contains(p));
    let jp = choose|jp: int| 0 <= jp < order.len() && order[jp] == p;
    if jp >= jw {
        if jp == jw {
            assert(hops(dist, p as int) + 1 == hops(dist, w));
        } else {
            assert(hops(dist, order[jw] as int) <= hops(dist, order[jp] as int));
        }
    }
    jp
}

/// Counts the shortest paths from `s` to every node over the predecessor lists
/// of its breadth-first layering, visiting the nodes in discovery order.
/// `None` when some count does not fit in `u64`.
pub fn path_counts(dag: &ShortestPathDag, s: usize) -> (r: Option<Vec<u64>>)
    requires
        dag_shape(dag.dist@.len(), s as nat, dag.order@, dag.dist@, dag.pred_view()),
    ensures
        r is Some ==> counts_paths(dag.dist@.len(), s as nat, dag.dist@, dag.pred_view(), r.unwrap()@),
        r is None ==> !exists|c: Seq<u64>| counts_paths(dag.dist@.len(), s as nat, dag.dist@, dag.pred_view(), c),
{
    let ghost n = dag.dist@.len();
    let ghost order = dag.order@;
    let ghost dist = dag.dist@;
    let ghost pred = dag.pred_view();
    let mut c: Vec<u64> = Vec::new();
    let mut k: usize = 0;
    while k < dag.dist.len()
        invariant
            k <= dag.dist.len(),
            c.len() == k,
            forall|u: int| 0 <= u < k ==> c[u] == 0,
        decreases dag.dist.len() - k,
    {
        c.push(0);
        k = k + 1;
    }
    c.set(s, 1);
    let mut idx: usize = 1;
    while idx < dag.order.len()
        invariant
            dag_shape(n, s as nat, order, dist, pred),
            n == dag.dist@.len(),
            order == dag.order@,
            dist == dag.dist@,
            pred == dag.pred_view(),
            1 <= idx <= order.len(),
            c.len() == n,
            c[s as int] == 1,
            forall|j: int| 1 <= j < idx ==> #[trigger] c[order[j] as int] == pred_sum(c@, pred[order[j] as int]),
            forall|j: int| idx <= j < order.len() ==> #[trigger] c[order[j] as int] == 0,
            forall|u: int| 0 <= u < n && dist[u] is None ==> #[trigger] c[u] == 0,
            forall|c2: Seq<u64>| #[trigger] counts_paths(n, s as nat, dist, pred, c2) ==>
                forall|j: int| 0 <= j < idx ==> c2[#[trigger] order[j] as int] == c[order[j] as int],
        decreases order.len() - idx,
    {
        let w = dag.order[idx];
        let ps = &dag.pred[w];
        assert(ps@ == pred[w as int]);
        assert(w != s) by {
            assert(order[0] != order[idx as int]);
        }
        assert(dist[w as int] is Some);
        assert forall|q: int| 0 <= q < ps.len() implies found_before(order, idx as int, #[trigger] ps@[q]) by {
            let jp = lemma_pred_earlier(n, s as nat, order, dist, pred, idx as int, q);
        }
        assert forall|q: int| 0 <= q < ps.len() implies (#[trigger] ps[q]) < n by {
            assert(pred[w as int][q] < n);
        }
        assert forall|c2: Seq<u64>| #[trigger] counts_paths(n, s as nat, dist, pred, c2)
            implies pred_sum(c2, ps@) == pred_sum(c@, ps@) by {
            assert forall|q: int| 0 <= q < ps@.len() implies c2[#[trigger] ps@[q] as int] == c@[ps@[q] as int] by {
                assert(found_before(order, idx as int, ps@[q]));
                let jp = choose|jp: int| 0 <= jp < idx && #[trigger] order[jp] == ps@[q];
                assert(c2[order[jp] as int] == c[order[jp] as int]);
            }
            lemma_pred_sum_agree(c2, c@, ps@);
        }
        let mut acc: u64 = 0;
        let mut k: usize = 0;
        while k < ps.len()
            invariant
                k <= ps.len(),
                acc == pred_sum(c@, ps@.take(k as int)),
                c.len() == n,
                n == dist.len(),
                n == pred.len(),
                n == dag.dist@.len(),
                dist == dag.dist@,
                pred == dag.pred_view(),
                w < n,
                w != s,
                dist[w as int] is Some,
                ps@ == pred[w as int],
                forall|q: int| 0 <= q < ps.len() ==> (#[trigger] ps[q]) < n,
                forall|c2: Seq<u64>| #[trigger] counts_paths(n, s as nat, dist, pred, c2)
                    ==> pred_sum(c2, ps@) == pred_sum(c@, ps@),
            decreases ps.len() - k,
        {
            assert(ps@.take(k + 1).drop_last() =~= ps@.take(k as int));
            let p = ps[k];
            match acc.checked_add(c[p]) {
                Some(t) => {
                    acc = t;
                },
                None => {
                    proof {
                        lemma_pred_sum_prefix(c@, ps@, k + 1);
                        assert(pred_sum(c@, ps@) > u64::MAX);
                        assert forall|c2: Seq<u64>| !#[trigger] counts_paths(n, s as nat, dist, pred, c2) by {
                            if counts_paths(n, s as nat, dist, pred, c2) {
                                assert(c2[w as int] == pred_sum(c2, pred[w as int]));
                                assert(pred_sum(c2, ps@) == pred_sum(c@, ps@));
                            }
                        }
                    }
                    return None;
                },
            }
            k = k + 1;
        }
        assert(ps@.take(k as int) =~= ps@);
        let ghost c_old = c@;
        c.set(w, acc);
        proof {
            assert forall|q: int| 0 <= q < ps@.len() implies c_old[#[trigger] ps@[q] as int] == c@[ps@[q] as int] by {
                assert(found_before(order, idx as int, ps@[q]));
                let jp = choose|jp: int| 0 <= jp < idx && #[trigger] order[jp] == ps@[q];
                assert(order[jp] != order[idx as int]);
            }
            lemma_pred_sum_agree(c_old, c@, ps@);
            assert forall|j: int| 1 <= j < idx + 1 implies #[trigger] c[order[j] as int] == pred_sum(c@, pred[order[j] as int]) by {
                if j < idx {
                    let pj = pred[order[j] as int];
                    assert forall|q: int| 0 <= q < pj.len() implies c_old[#[trigger] pj[q] as int] == c@[pj[q] as int] by {
                        let jp = lemma_pred_earlier(n, s as nat, order, dist, pred, j, q);
                        assert(order[jp] != order[idx as int]);
                    }
                    lemma_pred_sum_agree(c_old, c@, pj);
                    assert(order[j] != order[idx as int]);
                }
            }
            assert forall|j: int| idx + 1 <= j < order.len() implies #[trigger] c[order[j] as int] == 0 by {
                assert(order[j] != order[idx as int]);
            }
            assert forall|c2: Seq<u64>| #[trigger] counts_paths(n, s as nat, dist, pred, c2) implies
                forall|j: int| 0 <= j < idx + 1 ==> c2[#[trigger] order[j] as int] == c[order[j] as int] by {
                assert(c2[w as int] == pred_sum(c2, pred[w as int]));
                assert forall|j: int| 0 <= j < idx + 1 implies c2[#[trigger] order[j] as int] == c[order[j] as int] by {
                    if j < idx {
                        assert(order[j] != order[idx as int]);
                        assert(c2[order[j] as int] == c_old[order[j] as int]);
                    }
                }
            }
        }
        idx = idx + 1;
    }
    proof {
        assert forall|w: int| 0 <= w < n && w != s implies #[trigger] c[w] == if dist[w] is Some {
            pred_sum(c@, pred[w])
        } else {
            0
        } by {
            if dist[w] is Some {
                assert(order.contains(w as usize));
                let j = choose|j: int| 0 <= j < order.len() && order[j] == w as usize;
                assert(j != 0);
                assert(c[order[j] as int] == pred_sum(c@, pred[order[j] as int]));
            }
        }
    }
    Some(c)
}

/// The divisor that normalizes betweenness in a graph of `n` nodes:
/// `(n - 1) * (n - 2)`, or `None` when `n < 3` and every score is zero.
pub fn betweenness_normalizer(n: usize) -> (r: Option<u128>)
    ensures
        n < 3 <==> r is None,
        r is Some ==> r.unwrap() == (n - 1) * (n - 2),
{
    if n < 3 {
        None
    } else {
        let a = (n - 1) as u128;
        let b = (n - 2) as u128;
        assert(a * b <= 0xffff_ffff_ffff_ffff_ffff_ffff_ffff_ffff) by (nonlinear_arith)
            requires a <= 0xffff_ffff_ffff_ffff, b <= 0xffff_ffff_ffff_ffff;
        Some(a * b)
    }
}

/// An isolated node is reached from no other source, so it is never on a
/// shortest path and never a predecessor.
pub proof fn lemma_isolated_unreached(
    edges: Seq<EdgeModel>,
    n: nat,
    s: nat,
    order: Seq<usize>,
    dist: Seq<Option<usize>>,
    pred: Seq<Seq<usize>>,
    v: nat,
)
    requires
        is_bfs_layering(edges, n, s, order, dist, pred),
        isolated(edges, v),
        v < n,
        v != s,
    ensures
        dist[v as int] is None,
        forall|w: int, k: int| 0 <= w < n && 0 <= k < pred[w].len() ==> #[trigger] pred[w][k] != v,
{
    assert forall|u: nat| !adjacent(edges, u, v) by {
        if adjacent(edges, u, v) {
            let i = choose|i: int| 0 <= i < edges.len() && #[trigger] cross(edges[i], u) == Some(v);
            assert(edges[i].0 != v && edges[i].1 != v);
        }
    }
    if dist[v as int] is Some {
        let p = pred[v as int][0];
        assert(adjacent(edges, p as nat, v));
    }
    assert forall|w: int, k: int| 0 <= w < n && 0 <= k < pred[w].len() implies #[trigger] pred[w][k] != v by {
        if pred[w][k] == v {
            assert(dist[v as int] is Some);
        }
    }
}

/// In a complete graph every other node is one hop from the source and the
/// source is its only predecessor: no node lies between two others.
pub proof fn lemma_complete_only_source_precedes(
    edges: Seq<EdgeModel>,
    n: nat,
    s: nat,
    order: Seq<usize>,
    dist: Seq<Option<usize>>,
    pred: Seq<Seq<usize>>,
)
    requires
        is_bfs_layering(edges, n, s, order, dist, pred),
        complete_unit(edges, n),
        s < n,
    ensures
        forall|w: int| 0 <= w < n && w != s ==> #[trigger] dist[w] == Some(1usize),
        forall|w: int, k: int| 0 <= w < n && 0 <= k < pred[w].len() ==> #[trigger] pred[w][k] == s,
{
    assert forall|w: int| 0 <= w < n && w != s implies #[trigger] dist[w] == Some(1usize) by {
        let wn = w as nat;
        assert(s < n && wn < n && s != wn);
        let si = s as int;
        assert(adjacent(edges, si as nat, wn));
        assert(dist[si] is Some);
        assert(dist[wn as int] is Some);
        assert(pred[w].len() > 0);
        let p = pred[w][0];
        if hops(dist, p as int) == 0 && p != s {
            assert(pred[p as int].len() > 0);
            assert(hops(dist, pred[p as int][0] as int) + 1 == 0);
        }
    }
    assert forall|w: int, k: int| 0 <= w < n && 0 <= k < pred[w].len() implies #[trigger] pred[w][k] == s by {
        let p = pred[w][k];
        if w == s {
            assert(hops(dist, p as int) + 1 == 0);
        } else {
            assert(dist[w] == Some(1usize));
            if p != s {
                assert(dist[p as int] == Some(1usize));
            }
        }
    }
}

/// A walk of exactly `k` edges leads from `s` to `t`.
pub open spec fn walk_of_len(edges: Seq<EdgeModel>, s: nat, t: nat, k: nat) -> bool {
    exists|es: Seq<int>| #[trigger] walk_end(edges, s, es) == Some(t) && es.len() == k
}

proof fn lemma_walk_push(edges: Seq<EdgeModel>, u: nat, es: Seq<int>, i: int, x: nat, y: nat)
    requires
        walk_end(edges, u, es) == Some(x),
        0 <= i < edges.len(),
        cross(edges[i], x) == Some(y),
    ensures
        walk_end(edges, u, es.push(i)) == Some(y),
    decreases es.len(),
{
    if es.len() == 0 {
        assert(es.push(i).drop_first() =~= Seq::<int>::empty());
        assert(walk_end(edges, y, Seq::<int>::empty()) == Some(y));
    } else {
        let u1 = cross(edges[es[0]], u).unwrap();
        assert(es.push(i).drop_first() =~= es.drop_first().push(i));
        lemma_walk_push(edges, u1, es.drop_first(), i, x, y);
    }
}

proof fn lemma_layer_walk(
    edges: Seq<EdgeModel>,
    n: nat,
    s: nat,
    order: Seq<usize>,
    dist: Seq<Option<usize>>,
    pred: Seq<Seq<usize>>,
    v: nat,
)
    requires
        is_bfs_layering(edges, n, s, order, dist, pred),
        v < n,
        dist[v as int] is Some,
    ensures
        walk_of_len(edges, s, v, hops(dist, v as int) as nat),
    decreases hops(dist, v as int),
{
    if v == s {
        assert(walk_end(edges, s, Seq::<int>::empty()) == Some(s));
    } else {
        let p = pred[v as int][0];
        assert(adjacent(edges, p as nat, v));
        lemma_layer_walk(edges, n, s, order, dist, pred, p as nat);
        let es = choose|es: Seq<int>| #[trigger] walk_end(edges, s, es) == Some(p as nat) && es.len() == hops(dist, p as int);
        let i = choose|i: int| 0 <= i < edges.len() && #[trigger] cross(edges[i], p as nat) == Some(v);
        lemma_walk_push(edges, s, es, i, p as nat, v);
        assert(walk_end(edges, s, es.push(i)) == Some(v) && es.push(i).len() == hops(dist, v as int));
    }
}

proof fn lemma_walk_within_layers(
    edges: Seq<EdgeModel>,
    n: nat,
    s: nat,
    order: Seq<usize>,
    dist: Seq<Option<usize>>,
    pred: Seq<Seq<usize>>,
    u: nat,
    es: Seq<int>,
    t: nat,
)
    requires
        is_bfs_layering(edges, n, s, order, dist, pred),
        u < n,
        dist[u as int] is Some,
        walk_end(edges, u, es) == Some(t),
    ensures
        t < n,
        dist[t as int] is Some,
        hops(dist, t as int) <= hops(dist, u as int) + es.len(),
    decreases es.len(),
{
    if es.len() > 0 {
        assert(0 <= es[0] < edges.len());
        assert(cross(edges[es[0]], u) is Some);
        let x = cross(edges[es[0]], u).unwrap();
        let ui = u as int;
        assert(cross(edges[es[0]], ui as nat) == Some(x));
        assert(adjacent(edges, ui as nat, x));
        assert(dist[ui] is Some);
        lemma_walk_within_layers(edges, n, s, order, dist, pred, x, es.drop_first(), t);
    }
}

/// The recorded distances are hop counts: a reached node at distance `k` is
/// the end of a walk of `k` edges from the source and of no shorter one, and
/// a node that was not reached is out of reach of the source.
pub proof fn lemma_layers_are_hop_distances(
    edges: Seq<EdgeModel>,
    n: nat,
    s: nat,
    order: Seq<usize>,
    dist: Seq<Option<usize>>,
    pred: Seq<Seq<usize>>,
    v: nat,
)
    requires
        is_bfs_layering(edges, n, s, order, dist, pred),
        v < n,
    ensures
        dist[v as int] is Some ==> walk_of_len(edges, s, v, hops(dist, v as int) as nat),
        dist[v as int] is Some ==> forall|es: Seq<int>| #[trigger] walk_end(edges, s, es) == Some(v)
            ==> hops(dist, v as int) <= es.len(),
        dist[v as int] is None <==> !reachable(edges, s, v),
{
    assert(s < n) by {
        assert(order[0] < n);
    }
    if dist[v as int] is Some {
        lemma_layer_walk(edges, n, s, order, dist, pred, v);
        let es = choose|es: Seq<int>| #[trigger] walk_end(edges, s, es) == Some(v) && es.len() == hops(dist, v as int);
        assert(reachable(edges, s, v));
    }
    assert forall|es: Seq<int>| #[trigger] walk_end(edges, s, es) == Some(v) implies dist[v as int] is Some
        && hops(dist, v as int) <= es.len() by {
        lemma_walk_within_layers(edges, n, s, order, dist, pred, s, es, v);
    }
}

proof fn lemma_distinct_below(s: Seq<usize>, n: int)
    requires
        0 <= n,
        s.no_duplicates(),
        forall|i: int| 0 <= i < s.len() ==> (#[trigger] s[i]) < n,
    ensures
        s.len() <= n,
{
    let t = s.map_values(|x: usize| x as int);
    assert forall|i: int, j: int| 0 <= i < t.len() && 0 <= j < t.len() && i != j implies t[i] != t[j] by {
        assert(s[i] != s[j]);
    }
    t.unique_seq_to_set();
    lemma_int_range(0, n);
    assert forall|x: int| t.to_set().contains(x) implies set_int_range(0, n).contains(x) by {
        let i = choose|i: int| 0 <= i < t.len() && t[i] == x;
        assert(s[i] < n);
    }
    lemma_len_subset(t.to_set(), set_int_range(0, n));
}

} // verus!
