use vstd::prelude::*;

verus! {

/// An edge as the contracts see it: two endpoints and a non-negative weight.
pub type EdgeModel = (nat, nat, nat);

/// The node reached by crossing edge `e` from `u`, if `e` touches `u`.
pub open spec fn cross(e: EdgeModel, u: nat) -> Option<nat> {
    if e.0 == u {
        Some(e.1)
    } else if e.1 == u {
        Some(e.0)
    } else {
        None
    }
}

/// `w` is a neighbour of `u`: some edge joins them.
pub open spec fn adjacent(edges: Seq<EdgeModel>, u: nat, w: nat) -> bool {
    exists|i: int| 0 <= i < edges.len() && #[trigger] cross(edges[i], u) == Some(w)
}

/// Where a walk that starts at `u` and crosses the edges `es` in turn ends,
/// or `None` when some edge of `es` does not continue the walk.
pub open spec fn walk_end(edges: Seq<EdgeModel>, u: nat, es: Seq<int>) -> Option<nat>
    decreases es.len(),
{
    if es.len() == 0 {
        Some(u)
    } else if 0 <= es[0] < edges.len() {
        match cross(edges[es[0]], u) {
            Some(x) => walk_end(edges, x, es.drop_first()),
            None => None,
        }
    } else {
        None
    }
}

/// Total weight of the edges `es`.
pub open spec fn walk_cost(edges: Seq<EdgeModel>, es: Seq<int>) -> nat
    decreases es.len(),
{
    if es.len() == 0 {
        0
    } else {
        (if 0 <= es[0] < edges.len() {
            edges[es[0]].2
        } else {
            0
        }) + walk_cost(edges, es.drop_first())
    }
}

/// Some walk leads from `s` to `t`.
pub open spec fn reachable(edges: Seq<EdgeModel>, s: nat, t: nat) -> bool {
    exists|es: Seq<int>| #[trigger] walk_end(edges, s, es) == Some(t)
}

/// `d` is the weight of a lightest walk from `s` to `t`.
pub open spec fn is_shortest(edges: Seq<EdgeModel>, s: nat, t: nat, d: nat) -> bool {
    &&& exists|es: Seq<int>| #[trigger] walk_end(edges, s, es) == Some(t) && walk_cost(edges, es) == d
    &&& forall|es: Seq<int>| #[trigger] walk_end(edges, s, es) == Some(t) ==> d <= walk_cost(edges, es)
}

/// The shortest-path distance from `s` to `t`; zero where `t` is out of reach.
pub open spec fn shortest_dist(edges: Seq<EdgeModel>, s: nat, t: nat) -> nat {
    if reachable(edges, s, t) {
        choose|d: nat| is_shortest(edges, s, t, d)
    } else {
        0
    }
}

/// Sum of the distances from `s` to the nodes `0 .. k` that it reaches.
pub open spec fn dist_total(edges: Seq<EdgeModel>, s: nat, k: nat) -> nat
    decreases k,
{
    if k == 0 {
        0
    } else {
        dist_total(edges, s, (k - 1) as nat) + shortest_dist(edges, s, (k - 1) as nat)
    }
}

/// Two lightest walks between the same nodes weigh the same.
pub proof fn lemma_shortest_unique(edges: Seq<EdgeModel>, s: nat, t: nat, d1: nat, d2: nat)
    requires
        is_shortest(edges, s, t, d1),
        is_shortest(edges, s, t, d2),
    ensures
        d1 == d2,
{
    let es1 = choose|es: Seq<int>| #[trigger] walk_end(edges, s, es) == Some(t) && walk_cost(edges, es) == d1;
    let es2 = choose|es: Seq<int>| #[trigger] walk_end(edges, s, es) == Some(t) && walk_cost(edges, es) == d2;
    assert(walk_end(edges, s, es1) == Some(t));
    assert(walk_end(edges, s, es2) == Some(t));
}

} // verus!
