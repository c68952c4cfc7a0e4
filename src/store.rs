use vstd::prelude::*;
use crate::model::{EdgeModel, cross, adjacent, is_shortest, reachable};

verus! {

/// petgraph's adjacency-list graph, opaque to proofs.
#[verifier::external_type_specification]
#[verifier::external_body]
#[verifier::reject_recursive_types(N)]
#[verifier::reject_recursive_types(E)]
#[verifier::reject_recursive_types(Ty)]
#[verifier::reject_recursive_types(Ix)]
pub struct ExGraph<N, E, Ty, Ix>(petgraph::graph::Graph<N, E, Ty, Ix>);

/// petgraph's marker for undirected edges.
#[verifier::external_type_specification]
#[verifier::external_body]
pub struct ExUndirected(petgraph::Undirected);

/// The undirected petgraph graph that stores the topology.
pub type Topology = petgraph::graph::Graph<(), u32, petgraph::Undirected, u32>;

/// Number of nodes held by a topology.
pub uninterp spec fn topology_node_count(g: Topology) -> nat;

/// The edges held by a topology, in the order they were added.
pub uninterp spec fn topology_edges(g: Topology) -> Seq<EdgeModel>;

/// Relies on `Graph::new_undirected`: the graph starts with no nodes and no edges.
#[verifier::external_body]
fn topology_new() -> (r: Topology)
    ensures
        topology_node_count(r) == 0,
        topology_edges(r) == Seq::<EdgeModel>::empty(),
{
    petgraph::graph::Graph::new_undirected()
}

/// Relies on `Graph::add_node`: the new node takes the next index.
/// It panics only once the `u32` index space is full.
#[verifier::external_body]
fn topology_add_node(g: &mut Topology) -> (r: usize)
    requires
        topology_node_count(*old(g)) < u32::MAX,
    ensures
        r == topology_node_count(*old(g)),
        topology_node_count(*final(g)) == topology_node_count(*old(g)) + 1,
        topology_edges(*final(g)) == topology_edges(*old(g)),
{
    g.add_node(()).index()
}

/// Relies on `Graph::add_edge`: the edge is appended to the edge list.
/// It panics on an unknown endpoint or once the `u32` edge index space is full.
#[verifier::external_body]
fn topology_add_edge(g: &mut Topology, a: usize, b: usize, w: u32)
    requires
        a < topology_node_count(*old(g)),
        b < topology_node_count(*old(g)),
        topology_edges(*old(g)).len() + 1 < u32::MAX,
    ensures
        topology_node_count(*final(g)) == topology_node_count(*old(g)),
        topology_edges(*final(g)) == topology_edges(*old(g)).push((a as nat, b as nat, w as nat)),
{
    g.add_edge(petgraph::graph::NodeIndex::new(a), petgraph::graph::NodeIndex::new(b), w);
}

/// Relies on `Graph::edge_count`.
#[verifier::external_body]
fn topology_edge_count(g: &Topology) -> (r: usize)
    ensures
        r == topology_edges(*g).len(),
{
    g.edge_count()
}

/// Relies on `Graph::neighbors`, which on an undirected graph yields the far
/// end of every edge that touches `a`.
#[verifier::external_body]
fn topology_neighbors(g: &Topology, a: usize) -> (r: Vec<usize>)
    requires
        a < topology_node_count(*g),
    ensures
        forall|j: int| 0 <= j < r.len() ==> adjacent(topology_edges(*g), a as nat, #[trigger] r[j] as nat),
        forall|w: nat| adjacent(topology_edges(*g), a as nat, w) ==> r@.contains(w as usize),
{
    g.neighbors(petgraph::graph::NodeIndex::new(a)).map(|n| n.index()).collect()
}

/// Relies on `petgraph::algo::dijkstra` with no goal: it maps every node
/// reachable from `s` to the weight of a lightest walk to it.  Entry `v` of the
/// result is that weight for node `v`, or `None` where `v` is out of reach.
/// With at most `MAX_ITEMS` edges of `u32` weight its sums fit in `u64`.
#[verifier::external_body]
fn topology_dijkstra(g: &Topology, s: usize) -> (r: Vec<Option<u64>>)
    requires
        s < topology_node_count(*g),
        topology_edges(*g).len() <= MAX_ITEMS,
    ensures
        r.len() == topology_node_count(*g),
        forall|v: int| 0 <= v < r.len() ==> (#[trigger] r[v] is None <==> !reachable(topology_edges(*g), s as nat, v as nat)),
        forall|v: int| 0 <= v < r.len() && r[v] is Some ==> is_shortest(topology_edges(*g), s as nat, v as nat, (#[trigger] r[v]).unwrap() as nat),
{
    let m = petgraph::algo::dijkstra(g, petgraph::graph::NodeIndex::new(s), None, |e| *e.weight() as u64);
    (0..g.node_count()).map(|v| m.get(&petgraph::graph::NodeIndex::new(v)).copied()).collect()
}

/// Why a change to a [`CentralityGraph`] was refused.
#[derive(Debug, Clone, Copy, PartialEq, Eq, Structural)]
pub enum GraphError {
    /// A node with that name is already present.
    DuplicateNode,
    /// A self-loop, or an endpoint that is not a node of the graph.
    InvalidEdge,
    /// The graph already holds as many nodes or edges as its indices can name.
    CapacityExceeded,
}

/// Largest number of nodes, and of edges, that a graph holds.
pub const MAX_ITEMS: usize = 4_000_000_000;

/// An undirected weighted graph whose nodes are identified by unique names.
/// Node `i` is the `i`-th node added.
pub struct CentralityGraph {
    topology: Topology,
    names: Vec<String>,
}

impl CentralityGraph {
    /// The names of the nodes, by index.
    pub closed spec fn names(&self) -> Seq<Seq<char>> {
        self.names@.map_values(|s: String| s@)
    }

    /// The edges, in the order they were added.
    pub closed spec fn edges(&self) -> Seq<EdgeModel> {
        topology_edges(self.topology)
    }

    /// Number of nodes.
    pub open spec fn count(&self) -> nat {
        self.names().len()
    }

    /// Names are unique, every edge joins two distinct nodes of the graph, and
    /// the sizes stay within the index space.
    pub closed spec fn wf(&self) -> bool {
        &&& topology_node_count(self.topology) == self.names@.len()
        &&& self.names@.len() <= MAX_ITEMS
        &&& self.edges().len() <= MAX_ITEMS
        &&& forall|i: int, j: int|
            0 <= i < j < self.names@.len() ==> self.names@[i]@ != self.names@[j]@
        &&& forall|i: int|
            0 <= i < self.edges().len() ==> {
                let e = #[trigger] self.edges()[i];
                e.0 != e.1 && e.0 < self.names@.len() && e.1 < self.names@.len()
            }
    }

    /// The far end of an edge is a node of the graph.
    pub proof fn lemma_adjacent_in_range(&self, u: nat, w: nat)
        requires
            self.wf(),
            adjacent(self.edges(), u, w),
        ensures
            w < self.count(),
    {
        let i = choose|i: int| 0 <= i < self.edges().len() && #[trigger] cross(self.edges()[i], u) == Some(w);
        assert(self.edges()[i].0 < self.names@.len());
    }

    /// An empty graph.
    pub fn new() -> (r: CentralityGraph)
        ensures
            r.wf(),
            r.names() == Seq::<Seq<char>>::empty(),
            r.edges() == Seq::<EdgeModel>::empty(),
    {
        let r = CentralityGraph { topology: topology_new(), names: Vec::new() };
        assert(r.names() =~= Seq::<Seq<char>>::empty());
        r
    }

    /// Number of nodes.
    pub fn node_count(&self) -> (r: usize)
        requires
            self.wf(),
        ensures
            r == self.count(),
    {
        self.names.len()
    }

    /// Name of node `v`.
    pub fn name(&self, v: usize) -> (r: String)
        requires
            self.wf(),
            v < self.count(),
        ensures
            r@ == self.names()[v as int],
    {
        self.names[v].clone()
    }

    /// Index of the node called `name`, if there is one.
    pub fn find(&self, name: &String) -> (r: Option<usize>)
        requires
            self.wf(),
        ensures
            r is None <==> !self.names().contains(name@),
            r is Some ==> r.unwrap() < self.count() && self.names()[r.unwrap() as int] == name@,
    {
        let mut i: usize = 0;
        while i < self.names.len()
            invariant
                i <= self.names@.len(),
                forall|j: int| 0 <= j < i ==> self.names()[j] != name@,
                self.names().len() == self.names@.len(),
            decreases self.names@.len() - i,
        {
            if self.names[i] == *name {
                assert(self.names()[i as int] == name@);
                return Some(i);
            }
            i = i + 1;
        }
        proof {
            if self.names().contains(name@) {
                let k = choose|k: int| 0 <= k < self.names().len() && self.names()[k] == name@;
                assert(self.names()[k] != name@);
            }
        }
        None
    }

    /// Adds a node called `name` and returns its index.  Refused when the name
    /// is taken, or when the graph already holds `MAX_ITEMS` nodes.
    pub fn add_node(&mut self, name: String) -> (r: Result<usize, GraphError>)
        requires
            old(self).wf(),
        ensures
            final(self).wf(),
            r == Err::<usize, GraphError>(GraphError::DuplicateNode) <==> old(self).names().contains(name@),
            r == Err::<usize, GraphError>(GraphError::CapacityExceeded) <==> (!old(self).names().contains(name@)
                && old(self).count() >= MAX_ITEMS),
            r is Ok <==> (!old(self).names().contains(name@) && old(self).count() < MAX_ITEMS),
            r is Ok ==> r.unwrap() == old(self).count() && final(self).names() == old(self).names().push(name@)
                && final(self).edges() == old(self).edges(),
            r is Err ==> *final(self) == *old(self),
    {
        if self.find(&name).is_some() {
            return Err(GraphError::DuplicateNode);
        }
        if self.names.len() >= MAX_ITEMS {
            return Err(GraphError::CapacityExceeded);
        }
        let ghost old_names = self.names@;
        let idx = topology_add_node(&mut self.topology);
        self.names.push(name);
        proof {
            assert(self.names() =~= old(self).names().push(name@));
            assert forall|i: int, j: int| 0 <= i < j < self.names@.len() implies self.names@[i]@ != self.names@[j]@ by {
                if j == old_names.len() {
                    assert(old(self).names()[i] == old_names[i]@);
                }
            }
        }
        Ok(idx)
    }

    /// Adds an undirected edge of weight `w` between nodes `a` and `b`.
    /// Refused when `a == b` or either is not a node, or when the graph already
    /// holds `MAX_ITEMS` edges.  Parallel edges are kept.
    pub fn add_edge(&mut self, a: usize, b: usize, w: u32) -> (r: Result<(), GraphError>)
        requires
            old(self).wf(),
        ensures
            final(self).wf(),
            r == Err::<(), GraphError>(GraphError::InvalidEdge) <==> (a == b || a >= old(self).count() || b >= old(self).count()),
            r == Err::<(), GraphError>(GraphError::CapacityExceeded) <==> (!(a == b || a >= old(self).count() || b >= old(self).count())
                && old(self).edges().len() >= MAX_ITEMS),
            r is Ok <==> (!(a == b || a >= old(self).count() || b >= old(self).count())
                && old(self).edges().len() < MAX_ITEMS),
            r is Ok ==> final(self).names() == old(self).names()
                && final(self).edges() == old(self).edges().push((a as nat, b as nat, w as nat)),
            r is Err ==> *final(self) == *old(self),
    {
        if a == b || a >= self.names.len() || b >= self.names.len() {
            return Err(GraphError::InvalidEdge);
        }
        if topology_edge_count(&self.topology) >= MAX_ITEMS {
            return Err(GraphError::CapacityExceeded);
        }
        topology_add_edge(&mut self.topology, a, b, w);
        proof {
            assert forall|i: int| 0 <= i < self.edges().len() implies {
                let e = #[trigger] self.edges()[i];
                e.0 != e.1 && e.0 < self.names@.len() && e.1 < self.names@.len()
            } by {
                if i < old(self).edges().len() {
                    assert(self.edges()[i] == old(self).edges()[i]);
                }
            }
        }
        Ok(())
    }

    /// The nodes joined to `v` by an edge.
    pub fn neighbors(&self, v: usize) -> (r: Vec<usize>)
        requires
            self.wf(),
            v < self.count(),
        ensures
            forall|j: int| 0 <= j < r.len() ==> adjacent(self.edges(), v as nat, #[trigger] r[j] as nat),
            forall|w: nat| adjacent(self.edges(), v as nat, w) ==> r@.contains(w as usize),
    {
        topology_neighbors(&self.topology, v)
    }

    /// Shortest-path distance from `s` to every node, `None` where out of reach.
    pub fn distances_from(&self, s: usize) -> (r: Vec<Option<u64>>)
        requires
            self.wf(),
            s < self.count(),
        ensures
            r.len() == self.count(),
            forall|v: int| 0 <= v < r.len() ==> (#[trigger] r[v] is None <==> !reachable(self.edges(), s as nat, v as nat)),
            forall|v: int| 0 <= v < r.len() && r[v] is Some ==> is_shortest(self.edges(), s as nat, v as nat, (#[trigger] r[v]).unwrap() as nat),
    {
        topology_dijkstra(&self.topology, s)
    }
}

} // verus!
