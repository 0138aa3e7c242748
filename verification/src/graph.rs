//! The graph: nodes `0 .. num_nodes`, and for every node its outgoing edges
//! in the order in which they were given.

use vstd::prelude::*;

verus! {

/// An edge out of some node: where it leads, what it costs, and how much of
/// each resource it consumes.
#[derive(Debug)]
pub struct Edge {
    pub to: usize,
    pub cost: u64,
    pub resources: Vec<u64>,
}

/// What an [`Edge`] is, as a mathematical value.
pub struct Link {
    pub to: usize,
    pub cost: u64,
    pub resources: Seq<u64>,
}

impl View for Edge {
    type V = Link;

    open spec fn view(&self) -> Link {
        Link { to: self.to, cost: self.cost, resources: self.resources@ }
    }
}

/// What a [`Graph`] is, as a mathematical value: `links[u]` holds the edges
/// out of node `u`, in order.
pub struct Network {
    pub num_nodes: nat,
    pub dimension: nat,
    pub links: Seq<Seq<Link>>,
}

impl Network {
    /// The graph has a source, a sink and at least one node in between; every
    /// edge ends at a node of the graph and prices `dimension` resources.
    pub open spec fn wf(self) -> bool {
        &&& 3 <= self.num_nodes <= usize::MAX
        &&& self.links.len() == self.num_nodes
        &&& forall|u: int, k: int|
            0 <= u < self.links.len() && 0 <= k < self.links[u].len() ==> {
                &&& (#[trigger] self.links[u][k]).to < self.num_nodes
                &&& self.links[u][k].resources.len() == self.dimension
            }
    }

    /// The node every path must end at.
    pub open spec fn sink(self) -> usize {
        (self.num_nodes - 1) as usize
    }

    /// Every edge prices exactly `dimension` resources. A graph without edges
    /// fits every dimension.
    pub open spec fn fits(self, dimension: nat) -> bool {
        forall|u: int, k: int|
            0 <= u < self.links.len() && 0 <= k < self.links[u].len() ==> (
            #[trigger] self.links[u][k]).resources.len() == dimension
    }
}

/// Why a graph was not built.
#[derive(Clone, Copy, Debug, PartialEq, Eq, Structural)]
pub enum GraphError {
    /// Fewer than three nodes: source and sink need a node between them.
    InvalidGraph,
    /// An edge leaves or enters a node outside the graph, or prices another
    /// number of resources than the first edge does.
    InvalidEdge,
}

/// A directed graph with a cost and a resource vector on every edge. It does
/// not change once built.
#[derive(Debug)]
pub struct Graph {
    num_nodes: usize,
    dimension: usize,
    adjacency: Vec<Vec<Edge>>,
}

/// The links that a list of edges stands for.
pub open spec fn links_of(edges: Seq<Edge>) -> Seq<Link> {
    edges.map_values(|edge: Edge| edge@)
}

/// The number of resources that a list of edges prices: as many as its first
/// edge does, and none when the list is empty.
pub open spec fn declared_dimension(edges: Seq<(usize, usize, u64, Vec<u64>)>) -> nat {
    if edges.len() == 0 {
        0
    } else {
        edges[0].3@.len()
    }
}

/// Whether an edge `(from, to, cost, resources)` can belong to a graph of
/// `num_nodes` nodes that prices `dimension` resources.
pub open spec fn edge_ok(num_nodes: usize, dimension: nat, edge: (usize, usize, u64, Vec<u64>)) -> bool {
    &&& edge.0 < num_nodes
    &&& edge.1 < num_nodes
    &&& edge.3@.len() == dimension
}

/// The edges of the list that leave `from`, in the order of the list.
pub open spec fn outgoing(edges: Seq<(usize, usize, u64, Vec<u64>)>, from: int) -> Seq<Link>
    decreases edges.len(),
{
    if edges.len() == 0 {
        Seq::empty()
    } else {
        let earlier = outgoing(edges.drop_last(), from);
        let edge = edges.last();
        if edge.0 == from {
            earlier.push(Link { to: edge.1, cost: edge.2, resources: edge.3@ })
        } else {
            earlier
        }
    }
}

impl View for Graph {
    type V = Network;

    closed spec fn view(&self) -> Network {
        Network {
            num_nodes: self.num_nodes as nat,
            dimension: self.dimension as nat,
            links: Seq::new(self.adjacency@.len(), |u: int| links_of(self.adjacency@[u]@)),
        }
    }
}

impl Graph {
    #[verifier::type_invariant]
    spec fn inv(self) -> bool {
        self@.wf()
    }

    /// The number of nodes.
    pub fn num_nodes(&self) -> (count: usize)
        ensures
            count == self@.num_nodes,
            self@.wf(),
    {
        proof {
            use_type_invariant(self);
        }
        self.num_nodes
    }

    /// The number of resources that every edge prices.
    pub fn dimension(&self) -> (count: usize)
        ensures
            count == self@.dimension,
            self@.wf(),
    {
        proof {
            use_type_invariant(self);
        }
        self.dimension
    }

    /// The edges out of `node`, in the order in which they were given.
    pub fn edges_from(&self, node: usize) -> (edges: &Vec<Edge>)
        requires
            node < self@.num_nodes,
        ensures
            links_of(edges@) == self@.links[node as int],
            self@.wf(),
    {
        proof {
            use_type_invariant(self);
        }
        &self.adjacency[node]
    }

    /// Whether limits on `dimension` resources can be held against this
    /// graph: whether every edge prices that many.
    pub fn accepts(&self, dimension: usize) -> (fits: bool)
        ensures
            fits == self@.fits(dimension as nat),
    {
        proof {
            use_type_invariant(self);
        }
        if dimension == self.dimension {
            return true;
        }
        let mut node: usize = 0;
        while node < self.adjacency.len()
            invariant
                node <= self.adjacency@.len(),
                self@.wf(),
                dimension != self.dimension,
                forall|u: int| 0 <= u < node ==> (#[trigger] self@.links[u]).len() == 0,
            decreases self.adjacency@.len() - node,
        {
            if self.adjacency[node].len() > 0 {
                proof {
                    let witness = self@.links[node as int][0];
                    assert(witness.resources.len() == self@.dimension);
                }
                return false;
            }
            node += 1;
        }
        true
    }
}

/// Builds the graph of `num_nodes` nodes with the given edges, each a tuple
/// `(from, to, cost, resources)`.
///
/// The edges out of a node keep the order they have in `edges`. A graph of
/// fewer than three nodes is refused as `InvalidGraph`; otherwise a list with
/// an edge that `edge_ok` rejects is refused as `InvalidEdge`.
pub fn build_graph(num_nodes: usize, edges: &Vec<(usize, usize, u64, Vec<u64>)>) -> (result: Result<
    Graph,
    GraphError,
>)
    ensures
        match result {
            Ok(graph) => {
                &&& num_nodes >= 3
                &&& forall|i: int|
                    0 <= i < edges@.len() ==> edge_ok(
                        num_nodes,
                        declared_dimension(edges@),
                        #[trigger] edges@[i],
                    )
                &&& graph@.wf()
                &&& graph@.num_nodes == num_nodes
                &&& graph@.dimension == declared_dimension(edges@)
                &&& forall|u: int|
                    0 <= u < num_nodes ==> #[trigger] graph@.links[u] == outgoing(edges@, u)
            },
            Err(GraphError::InvalidGraph) => num_nodes < 3,
            Err(GraphError::InvalidEdge) => {
                &&& num_nodes >= 3
                &&& exists|i: int|
                    0 <= i < edges@.len() && !edge_ok(
                        num_nodes,
                        declared_dimension(edges@),
                        #[trigger] edges@[i],
                    )
            },
        },
{
    if num_nodes < 3 {
        return Err(GraphError::InvalidGraph);
    }
    let mut adjacency: Vec<Vec<Edge>> = Vec::new();
    let mut node: usize = 0;
    while node < num_nodes
        invariant
            node <= num_nodes,
            adjacency@.len() == node,
            forall|u: int| 0 <= u < node ==> (#[trigger] adjacency@[u])@.len() == 0,
        decreases num_nodes - node,
    {
        adjacency.push(Vec::new());
        node += 1;
    }
    let dimension: usize = if edges.len() == 0 {
        0
    } else {
        edges[0].3.len()
    };
    let mut i: usize = 0;
    while i < edges.len()
        invariant
            i <= edges@.len(),
            num_nodes >= 3,
            dimension == declared_dimension(edges@),
            adjacency@.len() == num_nodes,
            forall|j: int| 0 <= j < i ==> edge_ok(num_nodes, dimension as nat, #[trigger] edges@[j]),
            forall|u: int|
                0 <= u < num_nodes ==> links_of((#[trigger] adjacency@[u])@) == outgoing(
                    edges@.take(i as int),
                    u,
                ),
            forall|u: int, k: int|
                0 <= u < num_nodes && 0 <= k < adjacency@[u]@.len() ==> {
                    &&& (#[trigger] adjacency@[u]@[k]).to < num_nodes
                    &&& adjacency@[u]@[k].resources@.len() == dimension
                },
        decreases edges@.len() - i,
    {
        let from: usize = edges[i].0;
        let to: usize = edges[i].1;
        if from >= num_nodes || to >= num_nodes || edges[i].3.len() != dimension {
            return Err(GraphError::InvalidEdge);
        }
        let resources = edges[i].3.clone();
        assert(resources@ =~= edges@[i as int].3@);
        let edge = Edge { to, cost: edges[i].2, resources };
        let ghost before = adjacency@;
        adjacency[from].push(edge);
        proof {
            let next = edges@.take(i + 1);
            assert(next.drop_last() =~= edges@.take(i as int));
            assert(next.last() == edges@[i as int]);
            assert forall|u: int| 0 <= u < num_nodes implies links_of(
                (#[trigger] adjacency@[u])@,
            ) == outgoing(next, u) by {
                if u == from {
                    assert(adjacency@[u]@ == before[u]@.push(edge));
                    assert(links_of(adjacency@[u]@) =~= links_of(before[u]@).push(edge@));
                } else {
                    assert(adjacency@[u] == before[u]);
                }
            }
        }
        i += 1;
    }
    proof {
        assert(edges@.take(i as int) =~= edges@);
    }
    let graph = Graph { num_nodes, dimension, adjacency };
    proof {
        assert forall|u: int, k: int|
            0 <= u < graph@.links.len() && 0 <= k < graph@.links[u].len() implies {
            &&& (#[trigger] graph@.links[u][k]).to < graph@.num_nodes
            &&& graph@.links[u][k].resources.len() == graph@.dimension
        } by {
            assert(graph@.links[u][k] == adjacency@[u]@[k]@);
        }
    }
    Ok(graph)
}

} // verus!
