//! The decoder: a best-first search that turns a chromosome into a path.
//!
//! The search expands the state of lowest priority value first, where the
//! priority of a state is its node's position in the chromosome. States that
//! would consume more of a resource than the limit allows are never pushed.
//! Every state carries the path it came by. The first state that leaves the
//! frontier at the sink ends the search, and its path and cost are the
//! result.

use crate::chromosome::Chromosome;
use crate::frontier::{
    entries, entry_of, front, lemma_front_is_first_least, pop_front, Entry, Hop, State,
};
use crate::graph::{links_of, Graph, Link, Network};
use crate::routes::{link_of, nodes_along};
use vstd::prelude::*;

verus! {

/// The priority of `node` under a chromosome: the last position at which the
/// genes name it, or the greatest value there is when they do not.
pub open spec fn rank(genes: Seq<usize>, node: usize) -> usize
    decreases genes.len(),
{
    if genes.len() == 0 {
        usize::MAX
    } else if genes.last() == node {
        (genes.len() - 1) as usize
    } else {
        rank(genes.drop_last(), node)
    }
}

/// The priority of a node that the genes name is the last place at which
/// they name it; the priority of any other node is the greatest value.
pub proof fn lemma_rank_is_last_place(genes: Seq<usize>, node: usize)
    requires
        genes.len() <= usize::MAX,
    ensures
        genes.contains(node) ==> {
            &&& rank(genes, node) < genes.len()
            &&& genes[rank(genes, node) as int] == node
            &&& forall|i: int| rank(genes, node) < i < genes.len() ==> genes[i] != node
        },
        !genes.contains(node) ==> rank(genes, node) == usize::MAX,
    decreases genes.len(),
{
    if genes.len() > 0 {
        let shorter = genes.drop_last();
        lemma_rank_is_last_place(shorter, node);
        if genes.last() == node {
            assert(genes[genes.len() - 1] == node);
        } else {
            if genes.contains(node) {
                let i = choose|i: int| 0 <= i < genes.len() && genes[i] == node;
                assert(shorter[i] == node);
            }
            if shorter.contains(node) {
                let i = choose|i: int| 0 <= i < shorter.len() && shorter[i] == node;
                assert(genes[i] == node);
                assert(genes[rank(genes, node) as int] == shorter[rank(shorter, node) as int]);
                assert forall|i: int| rank(genes, node) < i < genes.len() implies genes[i]
                    != node by {
                    if i < shorter.len() {
                        assert(shorter[i] != node);
                    }
                }
            }
        }
    }
}

/// Adding `extra` to `usage` stays within the limits in every dimension.
pub open spec fn within(usage: Seq<u64>, extra: Seq<u64>, limits: Seq<u64>) -> bool {
    forall|d: int| 0 <= d < limits.len() ==> usage[d] + extra[d] <= limits[d]
}

/// The sum of `usage` and `extra`, dimension by dimension.
pub open spec fn combined(usage: Seq<u64>, extra: Seq<u64>) -> Seq<u64> {
    Seq::new(usage.len(), |d: int| (usage[d] + extra[d]) as u64)
}

/// The state the search starts from: at the source, with nothing spent.
pub open spec fn start(limits: Seq<u64>) -> Entry {
    Entry {
        node: 0,
        cost: 0,
        usage: Seq::new(limits.len(), |d: int| 0u64),
        priority: 0,
        route: Seq::empty(),
    }
}

/// The state reached from `from` over its edge number `index`.
pub open spec fn step(from: Entry, index: int, link: Link, genes: Seq<usize>) -> Entry {
    Entry {
        node: link.to,
        cost: from.cost + link.cost as nat,
        usage: combined(from.usage, link.resources),
        priority: rank(genes, link.to),
        route: from.route.push(Hop { from: from.node, index }),
    }
}

/// The frontier after `from` was expanded over `links`: for every link that
/// stays within the limits, in order, the state it leads to was pushed.
pub open spec fn pushed(
    frontier: Seq<Entry>,
    from: Entry,
    links: Seq<Link>,
    genes: Seq<usize>,
    limits: Seq<u64>,
) -> Seq<Entry>
    decreases links.len(),
{
    if links.len() == 0 {
        frontier
    } else {
        let earlier = pushed(frontier, from, links.drop_last(), genes, limits);
        let link = links.last();
        if within(from.usage, link.resources, limits) {
            earlier.push(step(from, links.len() - 1, link, genes))
        } else {
            earlier
        }
    }
}

/// The number of nodes not yet expanded.
pub open spec fn unvisited(visited: Seq<bool>) -> nat
    decreases visited.len(),
{
    if visited.len() == 0 {
        0
    } else {
        unvisited(visited.drop_last()) + if visited.last() {
            0nat
        } else {
            1nat
        }
    }
}

/// Marking a node that was not expanded before leaves one node fewer to
/// expand.
pub proof fn lemma_unvisited_marked(visited: Seq<bool>, node: int)
    requires
        0 <= node < visited.len(),
        !visited[node],
    ensures
        unvisited(visited.update(node, true)) + 1 == unvisited(visited),
    decreases visited.len(),
{
    let marked = visited.update(node, true);
    if node == visited.len() - 1 {
        assert(marked.drop_last() =~= visited.drop_last());
    } else {
        lemma_unvisited_marked(visited.drop_last(), node);
        assert(marked.drop_last() =~= visited.drop_last().update(node, true));
    }
}

/// Before anything is marked, every node is still to expand.
pub proof fn lemma_unvisited_fresh(count: nat)
    ensures
        unvisited(Seq::new(count, |i: int| false)) == count,
    decreases count,
{
    if count > 0 {
        lemma_unvisited_fresh((count - 1) as nat);
        assert(Seq::new(count, |i: int| false).drop_last() =~= Seq::new(
            (count - 1) as nat,
            |i: int| false,
        ));
    }
}

/// How a search ended at the sink: the cost and the route of the state that
/// arrived.
pub struct Arrival {
    pub cost: nat,
    pub route: Seq<Hop>,
}

/// The search from a frontier on. The state that `front` names leaves the
/// frontier. At the sink it ends the search. At a node that was expanded
/// before it is dropped. Otherwise its node is expanded: marked, and every
/// edge out of it that stays within the limits pushes a state. An empty
/// frontier ends the search without a result.
pub open spec fn search(
    net: Network,
    genes: Seq<usize>,
    limits: Seq<u64>,
    frontier: Seq<Entry>,
    visited: Seq<bool>,
) -> Option<Arrival>
    decreases unvisited(visited), frontier.len(),
    via search_decreases
{
    if frontier.len() == 0 {
        None
    } else {
        let at = front(frontier);
        let current = frontier[at];
        let rest = frontier.remove(at);
        if current.node == net.sink() {
            Some(Arrival { cost: current.cost, route: current.route })
        } else if current.node >= visited.len() || current.node >= net.links.len()
            || visited[current.node as int] {
            search(net, genes, limits, rest, visited)
        } else {
            let links = net.links[current.node as int];
            search(
                net,
                genes,
                limits,
                pushed(rest, current, links, genes, limits),
                visited.update(current.node as int, true),
            )
        }
    }
}

#[via_fn]
proof fn search_decreases(
    net: Network,
    genes: Seq<usize>,
    limits: Seq<u64>,
    frontier: Seq<Entry>,
    visited: Seq<bool>,
) {
    if frontier.len() > 0 {
        lemma_front_is_first_least(frontier);
        let current = frontier[front(frontier)];
        if current.node < visited.len() && !visited[current.node as int] {
            lemma_unvisited_marked(visited, current.node as int);
        }
    }
}

/// How the search of a whole graph ends: started at the source with nothing
/// expanded.
pub open spec fn arrival(net: Network, genes: Seq<usize>, limits: Seq<u64>) -> Option<Arrival> {
    search(net, genes, limits, seq![start(limits)], Seq::new(net.num_nodes, |i: int| false))
}

/// What decoding a chromosome gives: the nodes along the route by which the
/// first state arrived at the sink, and the cost of that route. There is no
/// result exactly when the frontier empties before a state arrives.
pub open spec fn decoded(net: Network, genes: Seq<usize>, limits: Seq<u64>) -> Option<
    (Seq<usize>, nat),
> {
    match arrival(net, genes, limits) {
        None => None,
        Some(found) => Some((nodes_along(net, found.route), found.cost)),
    }
}

/// The priority of every node of the graph under the genes.
fn priority_table(num_nodes: usize, genes: &Vec<usize>) -> (table: Vec<usize>)
    ensures
        table@.len() == num_nodes,
        forall|node: int| 0 <= node < num_nodes ==> #[trigger] table@[node] == rank(genes@, node as usize),
{
    let mut table: Vec<usize> = Vec::new();
    let mut node: usize = 0;
    while node < num_nodes
        invariant
            node <= num_nodes,
            table@.len() == node,
            forall|v: int| 0 <= v < node ==> #[trigger] table@[v] == usize::MAX,
        decreases num_nodes - node,
    {
        table.push(usize::MAX);
        node += 1;
    }
    let mut i: usize = 0;
    while i < genes.len()
        invariant
            i <= genes@.len(),
            table@.len() == num_nodes,
            forall|v: int|
                0 <= v < num_nodes ==> #[trigger] table@[v] == rank(genes@.take(i as int), v as usize),
        decreases genes@.len() - i,
    {
        let gene: usize = genes[i];
        proof {
            let upto = genes@.take(i + 1);
            assert(upto.drop_last() =~= genes@.take(i as int));
            assert(upto.last() == gene);
        }
        if gene < num_nodes {
            table[gene] = i;
        }
        i += 1;
    }
    assert(genes@.take(i as int) =~= genes@);
    table
}

/// The usage after `extra` was added, or nothing where that would pass a
/// limit. The first dimension that passes its limit ends the test.
fn extend(usage: &Vec<u64>, extra: &Vec<u64>, limits: &[u64]) -> (total: Option<Vec<u64>>)
    requires
        usage@.len() == limits@.len(),
        extra@.len() == limits@.len(),
    ensures
        total is Some <==> within(usage@, extra@, limits@),
        total is Some ==> total->0@ == combined(usage@, extra@),
{
    let mut total: Vec<u64> = Vec::new();
    let mut d: usize = 0;
    while d < limits.len()
        invariant
            d <= limits@.len(),
            usage@.len() == limits@.len(),
            extra@.len() == limits@.len(),
            total@.len() == d,
            forall|i: int| 0 <= i < d ==> usage@[i] + extra@[i] <= limits@[i],
            forall|i: int| 0 <= i < d ==> #[trigger] total@[i] == usage@[i] + extra@[i],
        decreases limits@.len() - d,
    {
        if extra[d] > limits[d] || usage[d] > limits[d] - extra[d] {
            return None;
        }
        total.push(usage[d] + extra[d]);
        d += 1;
    }
    assert(total@ =~= combined(usage@, extra@));
    Some(total)
}

/// Whether a state can stand in the frontier of a search in which `expanded`
/// nodes were expanded: its node belongs to the graph, it accounts for every
/// resource, its cost is that of at most `expanded` edges, and its path
/// holds the nodes along its route.
spec fn admissible(state: State, net: Network, dimension: nat, expanded: nat) -> bool {
    &&& state.node < net.num_nodes
    &&& state.resources@.len() == dimension
    &&& state.cost <= expanded * u64::MAX
    &&& state.path@ == nodes_along(net, state.route@)
}

/// A vector of `count` zeros.
fn zeros(count: usize) -> (vector: Vec<u64>)
    ensures
        vector@ == Seq::new(count as nat, |d: int| 0u64),
{
    let mut vector: Vec<u64> = Vec::new();
    let mut d: usize = 0;
    while d < count
        invariant
            d <= count,
            vector@ == Seq::new(d as nat, |d: int| 0u64),
        decreases count - d,
    {
        vector.push(0);
        assert(vector@ =~= Seq::new((d + 1) as nat, |d: int| 0u64));
        d += 1;
    }
    vector
}

/// Decodes a chromosome: searches the graph from the source, preferring the
/// nodes that come early in the chromosome, and never taking an edge that
/// would consume more of a resource than `resource_limits` allows.
///
/// Returns the nodes along the route of the first state that leaves the
/// frontier at the sink, with the cost of that route; or nothing, exactly
/// where the frontier empties before a state arrives.
pub fn decode(graph: &Graph, chromosome: &Chromosome, resource_limits: &[u64]) -> (outcome: Option<
    (Vec<usize>, u128),
>)
    requires
        graph@.fits(resource_limits@.len()),
    ensures
        graph@.wf(),
        match (outcome, arrival(graph@, chromosome.genes@, resource_limits@)) {
            (None, None) => true,
            (Some((path, cost)), Some(found)) => path@ == nodes_along(graph@, found.route)
                && cost == found.cost,
            _ => false,
        },
        match (outcome, decoded(graph@, chromosome.genes@, resource_limits@)) {
            (None, None) => true,
            (Some((path, cost)), Some((nodes, total))) => path@ == nodes && cost == total,
            _ => false,
        },
{
    let num_nodes: usize = graph.num_nodes();
    let sink: usize = num_nodes - 1;
    let ghost net = graph@;
    let ghost genes = chromosome.genes@;
    let ghost limits = resource_limits@;
    let priorities = priority_table(num_nodes, &chromosome.genes);
    let mut frontier: Vec<State> = Vec::new();
    let mut origin: Vec<usize> = Vec::new();
    origin.push(0);
    frontier.push(
        State {
            node: 0,
            cost: 0,
            resources: zeros(resource_limits.len()),
            priority: 0,
            path: origin,
            route: Ghost(Seq::empty()),
        },
    );
    let mut visited: Vec<bool> = Vec::new();
    let mut node: usize = 0;
    while node < num_nodes
        invariant
            node <= num_nodes,
            visited@ == Seq::new(node as nat, |i: int| false),
        decreases num_nodes - node,
    {
        visited.push(false);
        assert(visited@ =~= Seq::new((node + 1) as nat, |i: int| false));
        node += 1;
    }
    let ghost mut expanded: nat = 0;
    proof {
        lemma_unvisited_fresh(num_nodes as nat);
        assert(entries(frontier@) =~= seq![start(limits)]);
        assert(frontier@[0].path@ =~= nodes_along(net, frontier@[0].route@));
    }
    while frontier.len() > 0
        invariant
            net == graph@,
            genes == chromosome.genes@,
            limits == resource_limits@,
            net.wf(),
            net.fits(limits.len()),
            num_nodes == net.num_nodes,
            sink == num_nodes - 1,
            priorities@.len() == num_nodes,
            forall|v: int|
                0 <= v < num_nodes ==> #[trigger] priorities@[v] == rank(genes, v as usize),
            visited@.len() == num_nodes,
            expanded + unvisited(visited@) == num_nodes,
            forall|i: int|
                0 <= i < frontier@.len() ==> admissible(
                    #[trigger] frontier@[i],
                    net,
                    limits.len(),
                    expanded,
                ),
            search(net, genes, limits, entries(frontier@), visited@) == arrival(
                net,
                genes,
                limits,
            ),
        decreases unvisited(visited@), frontier@.len(),
    {
        let ghost waiting = frontier@;
        proof {
            lemma_front_is_first_least(entries(waiting));
        }
        let current = pop_front(&mut frontier);
        let ghost rest = entries(frontier@);
        assert(admissible(current, net, limits.len(), expanded));
        if current.node == sink {
            return Some((current.path, current.cost));
        }
        if !visited[current.node] {
            let ghost before = visited@;
            visited[current.node] = true;
            proof {
                lemma_unvisited_marked(before, current.node as int);
                expanded = expanded + 1;
            }
            let edges = graph.edges_from(current.node);
            let ghost links = net.links[current.node as int];
            let mut k: usize = 0;
            while k < edges.len()
                invariant
                    k <= edges@.len(),
                    links == net.links[current.node as int],
                    links_of(edges@) == links,
                    net.wf(),
                    net.fits(limits.len()),
                    limits == resource_limits@,
                    num_nodes == net.num_nodes,
                    current.node < num_nodes,
                    current.resources@.len() == limits.len(),
                    current.cost <= (expanded - 1) * u64::MAX,
                    current.path@ == nodes_along(net, current.route@),
                    1 <= expanded <= num_nodes,
                    priorities@.len() == num_nodes,
                    forall|v: int|
                        0 <= v < num_nodes ==> #[trigger] priorities@[v] == rank(genes, v as usize),
                    forall|i: int|
                        0 <= i < frontier@.len() ==> admissible(
                            #[trigger] frontier@[i],
                            net,
                            limits.len(),
                            expanded,
                        ),
                    entries(frontier@) == pushed(
                        rest,
                        entry_of(current),
                        links.take(k as int),
                        genes,
                        limits,
                    ),
                decreases edges@.len() - k,
            {
                let edge = &edges[k];
                proof {
                    let upto = links.take(k + 1);
                    assert(upto.drop_last() =~= links.take(k as int));
                    assert(upto.last() == edge@);
                    assert(net.links[current.node as int][k as int] == edge@);
                }
                match extend(&current.resources, &edge.resources, resource_limits) {
                    Some(usage) => {
                        let cost: u128 = current.cost + edge.cost as u128;
                        let priority: usize = priorities[edge.to];
                        let mut path = current.path.clone();
                        path.push(edge.to);
                        let ghost hop = Hop { from: current.node, index: k as int };
                        let ghost route = current.route@.push(hop);
                        let ghost held = frontier@;
                        proof {
                            assert(route.drop_last() =~= current.route@);
                            assert(route.last() == hop);
                            assert(link_of(net, hop) == edge@);
                            assert(path@ =~= nodes_along(net, route));
                        }
                        let state = State {
                            node: edge.to,
                            cost,
                            resources: usage,
                            priority,
                            path,
                            route: Ghost(route),
                        };
                        assert(entry_of(state) == step(entry_of(current), k as int, edge@, genes));
                        frontier.push(state);
                        assert(entries(frontier@) =~= entries(held).push(entry_of(state)));
                    },
                    None => {},
                }
                k += 1;
            }
            assert(links.take(k as int) =~= links);
        }
    }
    None
}

} // verus!
