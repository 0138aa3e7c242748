//! Routes through the graph, and what the decoder guarantees about them.
//!
//! A route is the sequence of edges that a state of the search came by.
//! What the decoder returns is the route of the state that arrived at the
//! sink: a path from the source to the sink over edges of the graph, through
//! no node twice, which stays within the limits after every edge, and whose
//! cost is the cost returned.

use crate::decoder::{
    arrival, decoded, lemma_unvisited_fresh, lemma_unvisited_marked, pushed, search, start, step,
    unvisited, within,
};
use crate::frontier::{front, lemma_front_is_first_least, Entry, Hop};
use crate::graph::{Link, Network};
use vstd::prelude::*;

verus! {

/// The hop names an edge of the graph.
pub open spec fn hop_ok(net: Network, hop: Hop) -> bool {
    &&& hop.from < net.links.len()
    &&& 0 <= hop.index < net.links[hop.from as int].len()
}

/// The edge that a hop names.
pub open spec fn link_of(net: Network, hop: Hop) -> Link {
    net.links[hop.from as int][hop.index]
}

/// The node at which a route ends; the empty route ends at the source.
pub open spec fn destination(net: Network, route: Seq<Hop>) -> usize {
    if route.len() == 0 {
        0
    } else {
        link_of(net, route.last()).to
    }
}

/// The route starts at the source, every hop names an edge of the graph, and
/// each starts where the one before it ends.
pub open spec fn connected(net: Network, route: Seq<Hop>) -> bool
    decreases route.len(),
{
    route.len() == 0 || {
        &&& connected(net, route.drop_last())
        &&& hop_ok(net, route.last())
        &&& route.last().from == destination(net, route.drop_last())
    }
}

/// The sum of the costs of the edges of a route.
pub open spec fn route_cost(net: Network, route: Seq<Hop>) -> nat
    decreases route.len(),
{
    if route.len() == 0 {
        0
    } else {
        route_cost(net, route.drop_last()) + link_of(net, route.last()).cost as nat
    }
}

/// What the edges of a route consume of resource `d`, in sum.
pub open spec fn route_usage(net: Network, route: Seq<Hop>, d: int) -> nat
    decreases route.len(),
{
    if route.len() == 0 {
        0
    } else {
        route_usage(net, route.drop_last(), d) + link_of(net, route.last()).resources[d] as nat
    }
}

/// The nodes that a route passes, the source first.
pub open spec fn nodes_along(net: Network, route: Seq<Hop>) -> Seq<usize>
    decreases route.len(),
{
    if route.len() == 0 {
        seq![0usize]
    } else {
        nodes_along(net, route.drop_last()).push(link_of(net, route.last()).to)
    }
}

/// The route is connected, and after each of its edges the resources
/// consumed so far are within the limits, in every dimension.
pub open spec fn feasible(net: Network, limits: Seq<u64>, route: Seq<Hop>) -> bool {
    &&& connected(net, route)
    &&& forall|taken: int, d: int|
        0 <= taken <= route.len() && 0 <= d < limits.len() ==> #[trigger] route_usage(
            net,
            route.take(taken),
            d,
        ) <= limits[d]
}

/// Some route along the nodes of `path` is feasible.
pub open spec fn path_within_limits(net: Network, limits: Seq<u64>, path: Seq<usize>) -> bool {
    exists|route: Seq<Hop>| feasible(net, limits, route) && nodes_along(net, route) == path
}

/// The graph has an edge from `from` to `to`.
pub open spec fn joined(net: Network, from: usize, to: usize) -> bool {
    &&& from < net.links.len()
    &&& exists|k: int|
        0 <= k < net.links[from as int].len() && #[trigger] net.links[from as int][k].to == to
}

/// The path starts at the source, ends at `end`, and goes from each node to
/// the next over an edge of the graph.
pub open spec fn follows_edges(net: Network, path: Seq<usize>, end: usize) -> bool {
    &&& path.len() > 0
    &&& path[0] == 0
    &&& path.last() == end
    &&& forall|i: int| 0 <= i < path.len() - 1 ==> joined(net, #[trigger] path[i], path[i + 1])
}

/// The nodes along a connected route start at the source, end where the
/// route ends, are one more than its edges, and follow edges of the graph.
pub proof fn lemma_nodes_along_follow_edges(net: Network, route: Seq<Hop>)
    requires
        connected(net, route),
    ensures
        nodes_along(net, route).len() == route.len() + 1,
        follows_edges(net, nodes_along(net, route), destination(net, route)),
    decreases route.len(),
{
    if route.len() > 0 {
        let shorter = route.drop_last();
        lemma_nodes_along_follow_edges(net, shorter);
        let before = nodes_along(net, shorter);
        let path = nodes_along(net, route);
        let hop = route.last();
        assert forall|i: int| 0 <= i < path.len() - 1 implies joined(
            net,
            #[trigger] path[i],
            path[i + 1],
        ) by {
            if i < before.len() - 1 {
                assert(joined(net, before[i], before[i + 1]));
            } else {
                assert(path[i] == hop.from);
                assert(net.links[hop.from as int][hop.index].to == path[i + 1]);
            }
        }
    }
}

/// The entry tells the truth about its route: the route is feasible and ends
/// at the entry's node, and the entry's cost and usage are the route's.
pub open spec fn sound(net: Network, limits: Seq<u64>, entry: Entry) -> bool {
    &&& feasible(net, limits, entry.route)
    &&& destination(net, entry.route) == entry.node
    &&& route_cost(net, entry.route) == entry.cost
    &&& entry.usage.len() == limits.len()
    &&& forall|d: int|
        0 <= d < limits.len() ==> #[trigger] entry.usage[d] == route_usage(net, entry.route, d)
}

proof fn lemma_step_sound(
    net: Network,
    genes: Seq<usize>,
    limits: Seq<u64>,
    from: Entry,
    index: int,
)
    requires
        net.fits(limits.len()),
        sound(net, limits, from),
        hop_ok(net, Hop { from: from.node, index }),
        within(from.usage, net.links[from.node as int][index].resources, limits),
    ensures
        sound(net, limits, step(from, index, net.links[from.node as int][index], genes)),
{
    let link = net.links[from.node as int][index];
    let hop = Hop { from: from.node, index };
    let next = step(from, index, link, genes);
    let route = next.route;
    assert(route.drop_last() =~= from.route);
    assert(route.last() == hop);
    assert(link.resources.len() == limits.len());
    assert forall|d: int| 0 <= d < limits.len() implies #[trigger] next.usage[d] == route_usage(
        net,
        route,
        d,
    ) by {
        assert(from.usage[d] == route_usage(net, from.route, d));
        assert(from.usage[d] + link.resources[d] <= limits[d]);
    }
    assert forall|taken: int, d: int|
        0 <= taken <= route.len() && 0 <= d < limits.len() implies #[trigger] route_usage(
        net,
        route.take(taken),
        d,
    ) <= limits[d] by {
        if taken == route.len() {
            assert(route.take(taken) =~= route);
            assert(next.usage[d] == route_usage(net, route, d));
            assert(from.usage[d] + link.resources[d] <= limits[d]);
        } else {
            assert(route.take(taken) =~= from.route.take(taken));
        }
    }
}

proof fn lemma_pushed_sound(
    net: Network,
    genes: Seq<usize>,
    limits: Seq<u64>,
    frontier: Seq<Entry>,
    from: Entry,
    count: int,
    ceiling: nat,
)
    requires
        net.wf(),
        net.fits(limits.len()),
        from.node < net.links.len(),
        0 <= count <= net.links[from.node as int].len(),
        sound(net, limits, from),
        from.cost + u64::MAX <= ceiling,
        forall|i: int|
            0 <= i < frontier.len() ==> {
                &&& sound(net, limits, #[trigger] frontier[i])
                &&& frontier[i].cost <= ceiling
            },
    ensures
        forall|i: int|
            0 <= i < pushed(
                frontier,
                from,
                net.links[from.node as int].take(count),
                genes,
                limits,
            ).len() ==> {
                &&& sound(
                    net,
                    limits,
                    #[trigger] pushed(
                        frontier,
                        from,
                        net.links[from.node as int].take(count),
                        genes,
                        limits,
                    )[i],
                )
                &&& pushed(
                    frontier,
                    from,
                    net.links[from.node as int].take(count),
                    genes,
                    limits,
                )[i].cost <= ceiling
            },
    decreases count,
{
    let links = net.links[from.node as int];
    let upto = links.take(count);
    let after = pushed(frontier, from, upto, genes, limits);
    if count > 0 {
        let earlier = pushed(frontier, from, links.take(count - 1), genes, limits);
        lemma_pushed_sound(net, genes, limits, frontier, from, count - 1, ceiling);
        assert(upto.drop_last() =~= links.take(count - 1));
        assert(upto.last() == links[count - 1]);
        assert(upto.len() - 1 == count - 1);
        if within(from.usage, upto.last().resources, limits) {
            lemma_step_sound(net, genes, limits, from, count - 1);
            let next = step(from, count - 1, links[count - 1], genes);
            assert(after == earlier.push(next));
            assert forall|i: int| 0 <= i < after.len() implies {
                &&& sound(net, limits, #[trigger] after[i])
                &&& after[i].cost <= ceiling
            } by {
                if i < earlier.len() {
                    assert(after[i] == earlier[i]);
                } else {
                    assert(after[i] == next);
                }
            }
        } else {
            assert(after == earlier);
        }
    } else {
        assert(upto.len() == 0);
        assert(after == frontier);
    }
}

/// The route of an entry passes no node twice: all nodes before its last
/// are expanded, and they differ from each other.
pub open spec fn simple(net: Network, visited: Seq<bool>, route: Seq<Hop>) -> bool {
    &&& forall|i: int|
        0 <= i < nodes_along(net, route).len() - 1 ==> {
            &&& (#[trigger] nodes_along(net, route)[i]) < visited.len()
            &&& visited[nodes_along(net, route)[i] as int]
        }
    &&& forall|i: int, j: int|
        0 <= i < j < nodes_along(net, route).len() - 1 ==> #[trigger] nodes_along(net, route)[i]
            != #[trigger] nodes_along(net, route)[j]
}

/// What holds of every frontier the search passes through.
spec fn search_invariant(
    net: Network,
    limits: Seq<u64>,
    frontier: Seq<Entry>,
    visited: Seq<bool>,
) -> bool {
    &&& net.wf()
    &&& net.fits(limits.len())
    &&& visited.len() == net.num_nodes
    &&& unvisited(visited) <= net.num_nodes
    &&& !visited[net.sink() as int]
    &&& forall|i: int|
        0 <= i < frontier.len() ==> {
            &&& sound(net, limits, #[trigger] frontier[i])
            &&& frontier[i].cost <= (net.num_nodes - unvisited(visited)) * u64::MAX
            &&& simple(net, visited, frontier[i].route)
        }
}

proof fn lemma_pushed_simple(
    net: Network,
    genes: Seq<usize>,
    limits: Seq<u64>,
    frontier: Seq<Entry>,
    from: Entry,
    count: int,
    visited: Seq<bool>,
)
    requires
        from.node < net.links.len(),
        0 <= count <= net.links[from.node as int].len(),
        connected(net, from.route),
        destination(net, from.route) == from.node,
        from.node < visited.len(),
        visited[from.node as int],
        simple(net, visited, from.route),
        forall|i: int|
            0 <= i < nodes_along(net, from.route).len() - 1 ==> nodes_along(
                net,
                from.route,
            )[i] != from.node,
        forall|i: int| 0 <= i < frontier.len() ==> simple(net, visited, (#[trigger] frontier[i]).route),
    ensures
        forall|i: int|
            0 <= i < pushed(
                frontier,
                from,
                net.links[from.node as int].take(count),
                genes,
                limits,
            ).len() ==> simple(
                net,
                visited,
                (#[trigger] pushed(
                    frontier,
                    from,
                    net.links[from.node as int].take(count),
                    genes,
                    limits,
                )[i]).route,
            ),
    decreases count,
{
    let links = net.links[from.node as int];
    let upto = links.take(count);
    let after = pushed(frontier, from, upto, genes, limits);
    if count > 0 {
        let earlier = pushed(frontier, from, links.take(count - 1), genes, limits);
        lemma_pushed_simple(net, genes, limits, frontier, from, count - 1, visited);
        assert(upto.drop_last() =~= links.take(count - 1));
        assert(upto.last() == links[count - 1]);
        if within(from.usage, upto.last().resources, limits) {
            let next = step(from, count - 1, links[count - 1], genes);
            let before = nodes_along(net, from.route);
            let path = nodes_along(net, next.route);
            lemma_nodes_along_follow_edges(net, from.route);
            assert(next.route.drop_last() =~= from.route);
            assert(path == before.push(links[count - 1].to));
            assert(simple(net, visited, next.route)) by {
                assert forall|i: int| 0 <= i < path.len() - 1 implies {
                    &&& (#[trigger] path[i]) < visited.len()
                    &&& visited[path[i] as int]
                } by {
                    assert(path[i] == before[i]);
                }
                assert forall|i: int, j: int| 0 <= i < j < path.len() - 1 implies #[trigger] path[i]
                    != #[trigger] path[j] by {
                    assert(path[i] == before[i]);
                    assert(path[j] == before[j]);
                }
            }
            assert(after == earlier.push(next));
            assert forall|i: int| 0 <= i < after.len() implies simple(
                net,
                visited,
                (#[trigger] after[i]).route,
            ) by {
                if i < earlier.len() {
                    assert(after[i] == earlier[i]);
                } else {
                    assert(after[i] == next);
                }
            }
        } else {
            assert(after == earlier);
        }
    } else {
        assert(upto.len() == 0);
        assert(after == frontier);
    }
}

proof fn lemma_search_sound(
    net: Network,
    genes: Seq<usize>,
    limits: Seq<u64>,
    frontier: Seq<Entry>,
    visited: Seq<bool>,
)
    requires
        search_invariant(net, limits, frontier, visited),
    ensures
        match search(net, genes, limits, frontier, visited) {
            Some(found) => {
                &&& feasible(net, limits, found.route)
                &&& destination(net, found.route) == net.sink()
                &&& route_cost(net, found.route) == found.cost
                &&& found.cost <= net.num_nodes * u64::MAX
                &&& nodes_along(net, found.route).no_duplicates()
            },
            None => true,
        },
    decreases unvisited(visited), frontier.len(),
{
    if frontier.len() > 0 {
        lemma_front_is_first_least(frontier);
        let at = front(frontier);
        let current = frontier[at];
        let rest = frontier.remove(at);
        assert(sound(net, limits, current));
        assert(simple(net, visited, current.route));
        lemma_nodes_along_follow_edges(net, current.route);
        let path = nodes_along(net, current.route);
        assert forall|i: int| 0 <= i < rest.len() implies {
            &&& sound(net, limits, #[trigger] rest[i])
            &&& rest[i].cost <= (net.num_nodes - unvisited(visited)) * u64::MAX
            &&& simple(net, visited, rest[i].route)
        } by {
            if i < at {
                assert(rest[i] == frontier[i]);
            } else {
                assert(rest[i] == frontier[i + 1]);
            }
        }
        if current.node == net.sink() {
            assert forall|i: int, j: int|
                0 <= i < path.len() && 0 <= j < path.len() && i != j implies path[i]
                != path[j] by {
                if i < path.len() - 1 && j < path.len() - 1 {
                    if i < j {
                        assert(path[i] != path[j]);
                    } else {
                        assert(path[j] != path[i]);
                    }
                } else if i < path.len() - 1 {
                    assert(visited[path[i] as int]);
                } else {
                    assert(visited[path[j] as int]);
                }
            }
        } else if current.node >= visited.len() || current.node >= net.links.len()
            || visited[current.node as int] {
            lemma_search_sound(net, genes, limits, rest, visited);
        } else {
            let links = net.links[current.node as int];
            let marked = visited.update(current.node as int, true);
            lemma_unvisited_marked(visited, current.node as int);
            let ceiling = ((net.num_nodes - unvisited(marked)) * u64::MAX) as nat;
            lemma_pushed_sound(net, genes, limits, rest, current, links.len() as int, ceiling);
            assert forall|i: int| 0 <= i < rest.len() implies simple(
                net,
                marked,
                (#[trigger] rest[i]).route,
            ) by {
                assert(simple(net, visited, rest[i].route));
            }
            assert(simple(net, marked, current.route));
            assert forall|i: int| 0 <= i < path.len() - 1 implies path[i] != current.node by {
                assert(visited[path[i] as int]);
            }
            lemma_pushed_simple(net, genes, limits, rest, current, links.len() as int, marked);
            assert(links.take(links.len() as int) =~= links);
            lemma_search_sound(
                net,
                genes,
                limits,
                pushed(rest, current, links, genes, limits),
                marked,
            );
        }
    }
}

proof fn lemma_arrival_sound(net: Network, genes: Seq<usize>, limits: Seq<u64>)
    requires
        net.wf(),
        net.fits(limits.len()),
    ensures
        match arrival(net, genes, limits) {
            Some(found) => {
                &&& feasible(net, limits, found.route)
                &&& destination(net, found.route) == net.sink()
                &&& route_cost(net, found.route) == found.cost
                &&& found.cost <= net.num_nodes * u64::MAX
                &&& nodes_along(net, found.route).no_duplicates()
            },
            None => true,
        },
{
    let first = start(limits);
    let frontier = seq![first];
    let visited = Seq::new(net.num_nodes, |i: int| false);
    lemma_unvisited_fresh(net.num_nodes);
    assert forall|taken: int, d: int|
        0 <= taken <= first.route.len() && 0 <= d < limits.len() implies #[trigger] route_usage(
        net,
        first.route.take(taken),
        d,
    ) <= limits[d] by {
        assert(first.route.take(taken) =~= Seq::<Hop>::empty());
    }
    assert(sound(net, limits, first));
    assert(simple(net, visited, first.route));
    lemma_search_sound(net, genes, limits, frontier, visited);
}

/// The route by which the search reached the sink; empty where it did not.
pub open spec fn route_taken(net: Network, genes: Seq<usize>, limits: Seq<u64>) -> Seq<Hop> {
    match arrival(net, genes, limits) {
        Some(found) => found.route,
        None => Seq::empty(),
    }
}

/// What decoding returns is one route and its cost: the path holds the
/// nodes along the route that the search took, which leads from the source
/// to the sink and stays within the limits after every edge, and the cost is
/// the sum of the costs of that route's edges, no more than what one
/// edge for every node can cost.
pub proof fn lemma_decoded_is_the_route_taken(net: Network, genes: Seq<usize>, limits: Seq<u64>)
    requires
        net.wf(),
        net.fits(limits.len()),
    ensures
        match decoded(net, genes, limits) {
            Some((path, cost)) => {
                &&& path == nodes_along(net, route_taken(net, genes, limits))
                &&& cost == route_cost(net, route_taken(net, genes, limits))
                &&& feasible(net, limits, route_taken(net, genes, limits))
                &&& destination(net, route_taken(net, genes, limits)) == net.sink()
                &&& cost <= net.num_nodes * u64::MAX
            },
            None => true,
        },
{
    lemma_arrival_sound(net, genes, limits);
}

/// The path that decoding returns starts at the source, ends at the sink,
/// goes from node to node over edges of the graph, and passes no node
/// twice.
pub proof fn lemma_decoded_path_follows_edges(net: Network, genes: Seq<usize>, limits: Seq<u64>)
    requires
        net.wf(),
        net.fits(limits.len()),
    ensures
        match decoded(net, genes, limits) {
            Some((path, cost)) => {
                &&& follows_edges(net, path, net.sink())
                &&& path.no_duplicates()
            },
            None => true,
        },
{
    lemma_arrival_sound(net, genes, limits);
    lemma_nodes_along_follow_edges(net, route_taken(net, genes, limits));
}

/// Along every path that decoding returns, the resources consumed are
/// within the limits after every edge.
pub proof fn lemma_decoded_path_within_limits(net: Network, genes: Seq<usize>, limits: Seq<u64>)
    requires
        net.wf(),
        net.fits(limits.len()),
    ensures
        match decoded(net, genes, limits) {
            Some((path, cost)) => path_within_limits(net, limits, path),
            None => true,
        },
{
    lemma_arrival_sound(net, genes, limits);
}

} // verus!
