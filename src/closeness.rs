use vstd::prelude::*;
use crate::model::{EdgeModel, cross, dist_total, is_shortest, lemma_shortest_unique, reachable, shortest_dist, walk_cost, walk_end};
use crate::store::CentralityGraph;

verus! {

/// A closeness score held exactly as the fraction `numerator / denominator`.
#[derive(Debug, Clone, Copy, PartialEq, Eq, Structural)]
pub struct Closeness {
    pub numerator: u64,
    pub denominator: u128,
}

/// Closeness of `s` in a graph of `n` nodes: `(n - 1) / total`, where `total`
/// sums the distances from `s` to the nodes it reaches; zero when that sum is 0.
pub open spec fn closeness_of(edges: Seq<EdgeModel>, n: nat, s: nat) -> Closeness {
    let total = dist_total(edges, s, n);
    if total > 0 {
        Closeness { numerator: (n - 1) as u64, denominator: total as u128 }
    } else {
        Closeness { numerator: 0, denominator: 1 }
    }
}

/// Sum of the shortest-path distances from `s` to every node that it reaches.
pub fn distance_total(g: &CentralityGraph, s: usize) -> (r: u128)
    requires
        g.wf(),
        s < g.count(),
    ensures
        r == dist_total(g.edges(), s as nat, g.count()),
{
    let dists = g.distances_from(s);
    let mut total: u128 = 0;
    let mut t: usize = 0;
    while t < dists.len()
        invariant
            dists.len() == g.count(),
            t <= dists.len(),
            forall|v: int| 0 <= v < dists.len() ==> (#[trigger] dists[v] is None <==> !reachable(g.edges(), s as nat, v as nat)),
            forall|v: int| 0 <= v < dists.len() && dists[v] is Some ==> is_shortest(g.edges(), s as nat, v as nat, (#[trigger] dists[v]).unwrap() as nat),
            total == dist_total(g.edges(), s as nat, t as nat),
            total <= t * 0xffff_ffff_ffff_ffff,
        decreases dists.len() - t,
    {
        match dists[t] {
            Some(d) => {
                proof {
                    assert(dists[t as int] is Some);
                    let c = choose|c: nat| is_shortest(g.edges(), s as nat, t as nat, c);
                    lemma_shortest_unique(g.edges(), s as nat, t as nat, c, d as nat);
                    assert(total + d <= (t + 1) * 0xffff_ffff_ffff_ffff) by (nonlinear_arith)
                        requires total <= t * 0xffff_ffff_ffff_ffff, d <= 0xffff_ffff_ffff_ffffu64;
                    assert((t + 1) * 0xffff_ffff_ffff_ffff <= 0xffff_ffff_ffff_ffff_ffff_ffff_ffff_ffff) by (nonlinear_arith)
                        requires t < 0x1_0000_0000_0000_0000;
                }
                total = total + d as u128;
            },
            None => {
                assert(dists[t as int] is None);
                assert(shortest_dist(g.edges(), s as nat, t as nat) == 0);
            },
        }
        t = t + 1;
    }
    total
}

/// Closeness centrality of every node, by node index, with its name.
pub fn closeness_centrality(g: &CentralityGraph) -> (r: Vec<(String, Closeness)>)
    requires
        g.wf(),
    ensures
        r.len() == g.count(),
        forall|v: int| 0 <= v < r.len() ==> (#[trigger] r[v]).0@ == g.names()[v]
            && r[v].1 == closeness_of(g.edges(), g.count(), v as nat),
{
    let n = g.node_count();
    let mut out: Vec<(String, Closeness)> = Vec::new();
    let mut v: usize = 0;
    while v < n
        invariant
            n == g.count(),
            g.wf(),
            v <= n,
            out.len() == v,
            forall|u: int| 0 <= u < v ==> (#[trigger] out[u]).0@ == g.names()[u]
                && out[u].1 == closeness_of(g.edges(), g.count(), u as nat),
        decreases n - v,
    {
        let total = distance_total(g, v);
        let score = if total > 0 {
            Closeness { numerator: (n - 1) as u64, denominator: total }
        } else {
            Closeness { numerator: 0, denominator: 1 }
        };
        out.push((g.name(v), score));
        v = v + 1;
    }
    out
}

/// No edge touches `v`.
pub open spec fn isolated(edges: Seq<EdgeModel>, v: nat) -> bool {
    forall|i: int| 0 <= i < edges.len() ==> (#[trigger] edges[i]).0 != v && edges[i].1 != v
}

/// Every two distinct nodes below `n` are joined by an edge, and every edge
/// has weight 1.
pub open spec fn complete_unit(edges: Seq<EdgeModel>, n: nat) -> bool {
    &&& forall|u: nat, w: nat| u < n && w < n && u != w ==> #[trigger] crate::model::adjacent(edges, u, w)
    &&& forall|i: int| 0 <= i < edges.len() ==> (#[trigger] edges[i]).2 == 1
}

proof fn lemma_distance_to_self(edges: Seq<EdgeModel>, s: nat)
    ensures
        shortest_dist(edges, s, s) == 0,
{
    let empty = Seq::<int>::empty();
    assert(walk_end(edges, s, empty) == Some(s));
    assert(walk_cost(edges, empty) == 0);
    assert(is_shortest(edges, s, s, 0));
    let d = choose|d: nat| is_shortest(edges, s, s, d);
    lemma_shortest_unique(edges, s, s, d, 0);
}

/// From an isolated node every other node is out of reach, so its distances
/// sum to zero and its closeness is zero.
pub proof fn lemma_isolated_closeness_zero(edges: Seq<EdgeModel>, n: nat, v: nat)
    requires
        isolated(edges, v),
    ensures
        closeness_of(edges, n, v) == (Closeness { numerator: 0, denominator: 1 }),
{
    assert forall|k: nat| #[trigger] dist_total(edges, v, k) == 0 by {
        lemma_isolated_total(edges, v, k);
    }
}

proof fn lemma_isolated_total(edges: Seq<EdgeModel>, v: nat, k: nat)
    requires
        isolated(edges, v),
    ensures
        dist_total(edges, v, k) == 0,
    decreases k,
{
    if k > 0 {
        lemma_isolated_total(edges, v, (k - 1) as nat);
        let t = (k - 1) as nat;
        if reachable(edges, v, t) {
            let es = choose|es: Seq<int>| #[trigger] walk_end(edges, v, es) == Some(t);
            if es.len() > 0 {
                assert(cross(edges[es[0]], v) is None);
            }
            assert(t == v);
            lemma_distance_to_self(edges, v);
        }
    }
}

/// Every walk that leaves `s` crosses at least one edge, so in a unit-weight
/// graph it weighs at least 1.
proof fn lemma_unit_walk_cost(edges: Seq<EdgeModel>, s: nat, t: nat, es: Seq<int>)
    requires
        forall|i: int| 0 <= i < edges.len() ==> (#[trigger] edges[i]).2 == 1,
        walk_end(edges, s, es) == Some(t),
        s != t,
    ensures
        walk_cost(edges, es) >= 1,
{
    assert(es.len() > 0);
    assert(0 <= es[0] < edges.len());
    assert(edges[es[0]].2 == 1);
}

proof fn lemma_complete_total(edges: Seq<EdgeModel>, n: nat, s: nat, k: nat)
    requires
        complete_unit(edges, n),
        s < n,
        k <= n,
    ensures
        dist_total(edges, s, k) == if s < k { k - 1 } else { k as int },
    decreases k,
{
    if k > 0 {
        let t = (k - 1) as nat;
        lemma_complete_total(edges, n, s, t);
        if t == s {
            lemma_distance_to_self(edges, s);
        } else {
            assert(crate::model::adjacent(edges, s, t));
            let i = choose|i: int| 0 <= i < edges.len() && #[trigger] cross(edges[i], s) == Some(t);
            let one = seq![i];
            assert(one.drop_first() =~= Seq::<int>::empty());
            assert(walk_end(edges, t, one.drop_first()) == Some(t));
            assert(walk_end(edges, s, one) == Some(t));
            assert(walk_cost(edges, one.drop_first()) == 0);
            assert(walk_cost(edges, one) == 1);
            assert forall|es: Seq<int>| #[trigger] walk_end(edges, s, es) == Some(t) implies 1 <= walk_cost(edges, es) by {
                lemma_unit_walk_cost(edges, s, t, es);
            }
            assert(is_shortest(edges, s, t, 1));
            let d = choose|d: nat| is_shortest(edges, s, t, d);
            lemma_shortest_unique(edges, s, t, d, 1);
        }
    }
}

/// In a complete graph with unit weights every node is at distance 1 from
/// every other, so each closeness is `(n - 1) / (n - 1)`.
pub proof fn lemma_complete_closeness_one(edges: Seq<EdgeModel>, n: nat, s: nat)
    requires
        complete_unit(edges, n),
        s < n,
        n <= crate::store::MAX_ITEMS,
    ensures
        n > 1 ==> closeness_of(edges, n, s) == (Closeness { numerator: (n - 1) as u64, denominator: (n - 1) as u128 }),
        n == 1 ==> closeness_of(edges, n, s) == (Closeness { numerator: 0, denominator: 1 }),
{
    lemma_complete_total(edges, n, s, n);
}

} // verus!
