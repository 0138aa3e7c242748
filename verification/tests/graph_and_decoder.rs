use rcsp_ga::{build_graph, decode, Chromosome, Fitness, Graph, GraphError};

fn sample_edges() -> Vec<(usize, usize, u64, Vec<u64>)> {
    vec![
        (0, 1, 2, vec![1, 2]),
        (0, 2, 3, vec![2, 1]),
        (1, 2, 1, vec![1, 1]),
        (1, 3, 4, vec![2, 3]),
        (2, 3, 2, vec![1, 4]),
        (2, 4, 5, vec![3, 1]),
        (3, 4, 1, vec![1, 2]),
    ]
}

fn sample_graph() -> Graph {
    build_graph(5, &sample_edges()).unwrap()
}

fn chromosome(genes: Vec<usize>) -> Chromosome {
    Chromosome { genes, fitness: Fitness::Zero }
}

#[test]
fn build_graph_groups_edges_by_source_in_order() {
    let graph = sample_graph();
    assert_eq!(graph.num_nodes(), 5);
    assert_eq!(graph.dimension(), 2);
    let out: Vec<(usize, u64)> = graph.edges_from(1).iter().map(|e| (e.to, e.cost)).collect();
    assert_eq!(out, vec![(2, 1), (3, 4)]);
    let out: Vec<(usize, u64)> = graph.edges_from(2).iter().map(|e| (e.to, e.cost)).collect();
    assert_eq!(out, vec![(3, 2), (4, 5)]);
    assert_eq!(graph.edges_from(2)[1].resources, vec![3, 1]);
    assert!(graph.edges_from(4).is_empty());
}

#[test]
fn build_graph_keeps_parallel_edges_in_the_order_given() {
    let edges = vec![(0, 1, 9, vec![1]), (1, 2, 1, vec![0]), (0, 1, 3, vec![2])];
    let graph = build_graph(3, &edges).unwrap();
    let out: Vec<u64> = graph.edges_from(0).iter().map(|e| e.cost).collect();
    assert_eq!(out, vec![9, 3]);
}

#[test]
fn build_graph_refuses_fewer_than_three_nodes() {
    for n in 0..3 {
        assert_eq!(build_graph(n, &vec![]).err(), Some(GraphError::InvalidGraph));
    }
    assert!(build_graph(3, &vec![]).is_ok());
}

#[test]
fn two_node_graph_fails_fast_as_invalid_graph() {
    let edges = vec![(0, 1, 1, vec![1, 1])];
    assert_eq!(build_graph(2, &edges).err(), Some(GraphError::InvalidGraph));
}

#[test]
fn invalid_graph_comes_before_invalid_edge() {
    let edges = vec![(0, 7, 1, vec![1]), (0, 1, 1, vec![1, 2])];
    assert_eq!(build_graph(1, &edges).err(), Some(GraphError::InvalidGraph));
}

#[test]
fn build_graph_refuses_uneven_resource_vectors() {
    let mut edges = sample_edges();
    edges[4].3 = vec![1];
    assert_eq!(build_graph(5, &edges).err(), Some(GraphError::InvalidEdge));
    let mut edges = sample_edges();
    edges[6].3 = vec![1, 2, 3];
    assert_eq!(build_graph(5, &edges).err(), Some(GraphError::InvalidEdge));
}

#[test]
fn build_graph_refuses_edges_outside_the_graph() {
    assert_eq!(build_graph(3, &vec![(0, 3, 1, vec![])]).err(), Some(GraphError::InvalidEdge));
    assert_eq!(build_graph(3, &vec![(3, 0, 1, vec![])]).err(), Some(GraphError::InvalidEdge));
    assert!(build_graph(3, &vec![(2, 0, 1, vec![])]).is_ok());
}

#[test]
fn accepts_tells_whether_limits_fit() {
    let graph = sample_graph();
    assert!(graph.accepts(2));
    assert!(!graph.accepts(1));
    assert!(!graph.accepts(3));
    let bare = build_graph(4, &vec![]).unwrap();
    assert!(bare.accepts(0));
    assert!(bare.accepts(5));
}

#[test]
fn decode_sample_graph_for_every_ordering() {
    let graph = sample_graph();
    let limits = [5, 7];
    let expected: Vec<(Vec<usize>, Vec<usize>, u128)> = vec![
        (vec![1, 2, 3], vec![0, 2, 3, 4], 6),
        (vec![1, 3, 2], vec![0, 1, 3, 4], 7),
        (vec![2, 1, 3], vec![0, 2, 3, 4], 6),
        (vec![2, 3, 1], vec![0, 2, 3, 4], 6),
        (vec![3, 1, 2], vec![0, 1, 3, 4], 7),
        (vec![3, 2, 1], vec![0, 2, 3, 4], 6),
    ];
    for (genes, path, cost) in expected {
        assert_eq!(decode(&graph, &chromosome(genes), &limits), Some((path, cost)));
    }
}

#[test]
fn decode_reaches_the_path_that_tight_limits_leave() {
    // 0 -> 2 -> 4 costs 3 + 5 and consumes [2 + 3, 1 + 1]; with the limits
    // [5, 2] no other path is feasible.
    let graph = sample_graph();
    for genes in [vec![1, 2, 3], vec![3, 2, 1], vec![2, 3, 1]] {
        assert_eq!(decode(&graph, &chromosome(genes), &[5, 2]), Some((vec![0, 2, 4], 8)));
    }
}

#[test]
fn decode_accepts_an_edge_that_meets_the_limit_exactly() {
    let graph = sample_graph();
    assert_eq!(decode(&graph, &chromosome(vec![1, 2, 3]), &[4, 7]), Some((vec![0, 2, 3, 4], 6)));
    assert_eq!(decode(&graph, &chromosome(vec![1, 2, 3]), &[5, 6]), Some((vec![0, 2, 4], 8)));
    assert_eq!(decode(&graph, &chromosome(vec![1, 2, 3]), &[4, 6]), None);
    let line = build_graph(3, &vec![(0, 1, 4, vec![1]), (1, 2, 6, vec![2]), (0, 2, 20, vec![0])]).unwrap();
    assert_eq!(decode(&line, &chromosome(vec![1]), &[3]), Some((vec![0, 1, 2], 10)));
    assert_eq!(decode(&line, &chromosome(vec![1]), &[2]), Some((vec![0, 2], 20)));
    assert_eq!(decode(&line, &chromosome(vec![1]), &[0]), Some((vec![0, 2], 20)));
}

#[test]
fn decode_finds_nothing_under_zero_limits() {
    let graph = sample_graph();
    for genes in [vec![1, 2, 3], vec![2, 1, 3], vec![3, 2, 1]] {
        assert_eq!(decode(&graph, &chromosome(genes), &[0, 0]), None);
    }
    assert_eq!(decode(&graph, &chromosome(vec![1, 2, 3]), &[3, 3]), None);
}

#[test]
fn decode_finds_nothing_without_edges() {
    let graph = build_graph(4, &vec![]).unwrap();
    assert_eq!(decode(&graph, &chromosome(vec![1, 2]), &[1, 1, 1]), None);
}

#[test]
fn decode_ranks_unnamed_nodes_last() {
    let graph = sample_graph();
    assert_eq!(decode(&graph, &chromosome(vec![]), &[5, 7]), Some((vec![0, 2, 3, 4], 6)));
    assert_eq!(decode(&graph, &chromosome(vec![3]), &[5, 7]), Some((vec![0, 1, 3, 4], 7)));
}

#[test]
fn decode_ranks_a_repeated_gene_by_its_last_place() {
    let graph = sample_graph();
    assert_eq!(decode(&graph, &chromosome(vec![2, 2, 1]), &[5, 7]), Some((vec![0, 2, 3, 4], 6)));
}

#[test]
fn decode_with_no_resources_and_a_free_edge() {
    let graph = build_graph(3, &vec![(0, 2, 0, vec![]), (0, 1, 1, vec![])]).unwrap();
    assert_eq!(decode(&graph, &chromosome(vec![1]), &[]), Some((vec![0, 2], 0)));
}

#[test]
fn decode_returns_the_route_of_the_state_that_arrived() {
    // Node 1 is reached from the source first and expanded; that node 2
    // reaches it again later changes nothing.
    let edges = vec![(0, 1, 1, vec![1]), (0, 2, 1, vec![5]), (1, 4, 1, vec![5]), (2, 1, 1, vec![0])];
    let graph = build_graph(5, &edges).unwrap();
    assert_eq!(decode(&graph, &chromosome(vec![1, 2, 3]), &[6]), Some((vec![0, 1, 4], 2)));
}

#[test]
fn decode_drops_a_state_that_returns_to_the_source() {
    let edges = vec![(0, 1, 1, vec![1]), (1, 0, 1, vec![1]), (1, 3, 1, vec![1])];
    let graph = build_graph(4, &edges).unwrap();
    assert_eq!(decode(&graph, &chromosome(vec![1, 2]), &[9]), Some((vec![0, 1, 3], 2)));
}

#[test]
fn decode_passes_through_a_cycle_of_the_graph() {
    let edges = vec![(0, 1, 1, vec![0]), (1, 2, 1, vec![0]), (2, 1, 1, vec![0]), (1, 3, 1, vec![0])];
    let graph = build_graph(4, &edges).unwrap();
    assert_eq!(decode(&graph, &chromosome(vec![1, 2]), &[5]), Some((vec![0, 1, 3], 2)));
    let edges = vec![(0, 1, 1, vec![0]), (1, 2, 1, vec![0]), (2, 1, 1, vec![0]), (2, 3, 1, vec![0])];
    let graph = build_graph(4, &edges).unwrap();
    assert_eq!(decode(&graph, &chromosome(vec![1, 2]), &[1]), Some((vec![0, 1, 2, 3], 3)));
}

#[test]
fn decode_adds_costs_beyond_sixty_four_bits() {
    let big = u64::MAX;
    let graph = build_graph(3, &vec![(0, 1, big, vec![big]), (1, 2, big, vec![0])]).unwrap();
    let expected = big as u128 + big as u128;
    assert_eq!(decode(&graph, &chromosome(vec![1]), &[big]), Some((vec![0, 1, 2], expected)));
    let graph = build_graph(3, &vec![(0, 1, 1, vec![big]), (1, 2, 1, vec![1])]).unwrap();
    assert_eq!(decode(&graph, &chromosome(vec![1]), &[big]), None);
}

#[test]
fn decode_never_takes_an_edge_that_passes_a_limit() {
    // Along 0 -> 1 -> 2 -> 3 -> 4 the second resource adds up to 2 + 1 + 4 + 2.
    let chain = vec![
        (0, 1, 2, vec![1, 2]),
        (1, 2, 1, vec![1, 1]),
        (2, 3, 2, vec![1, 4]),
        (3, 4, 1, vec![1, 2]),
    ];
    let graph = build_graph(5, &chain).unwrap();
    assert_eq!(decode(&graph, &chromosome(vec![1, 2, 3]), &[5, 7]), None);
    assert_eq!(decode(&graph, &chromosome(vec![1, 2, 3]), &[4, 8]), None);
    assert_eq!(decode(&graph, &chromosome(vec![1, 2, 3]), &[3, 9]), None);
    assert_eq!(
        decode(&graph, &chromosome(vec![1, 2, 3]), &[4, 9]),
        Some((vec![0, 1, 2, 3, 4], 6))
    );
}

#[test]
fn decode_prefers_the_lower_cost_among_equal_priorities() {
    let edges = vec![(0, 1, 5, vec![]), (0, 1, 2, vec![]), (1, 2, 1, vec![])];
    let graph = build_graph(3, &edges).unwrap();
    assert_eq!(decode(&graph, &chromosome(vec![1]), &[]), Some((vec![0, 1, 2], 3)));
}

fn usage_and_cost(graph: &Graph, path: &[usize], limits: &[u64], cost: u128) -> bool {
    let candidates: Vec<Vec<usize>> = path
        .windows(2)
        .map(|step| {
            let out = graph.edges_from(step[0]);
            (0..out.len()).filter(|&k| out[k].to == step[1]).collect()
        })
        .collect();
    let mut choice = vec![0usize; candidates.len()];
    if candidates.iter().any(|c| c.is_empty()) {
        return false;
    }
    loop {
        let mut used = vec![0u128; limits.len()];
        let mut spent: u128 = 0;
        let mut within = true;
        for (step, &pick) in choice.iter().enumerate() {
            let edge = &graph.edges_from(path[step])[candidates[step][pick]];
            spent += edge.cost as u128;
            for d in 0..limits.len() {
                used[d] += edge.resources[d] as u128;
                within = within && used[d] <= limits[d] as u128;
            }
        }
        if within && spent == cost {
            return true;
        }
        let mut step = 0;
        while step < choice.len() {
            choice[step] += 1;
            if choice[step] < candidates[step].len() {
                break;
            }
            choice[step] = 0;
            step += 1;
        }
        if step == choice.len() {
            return false;
        }
    }
}

#[test]
fn decoded_path_stays_within_limits_and_costs_what_is_returned() {
    let graph = sample_graph();
    let orderings = [
        vec![1, 2, 3],
        vec![1, 3, 2],
        vec![2, 1, 3],
        vec![2, 3, 1],
        vec![3, 1, 2],
        vec![3, 2, 1],
    ];
    for limits in [[5u64, 7], [4, 7], [5, 2], [9, 9], [6, 6]] {
        for genes in &orderings {
            let (path, cost) = decode(&graph, &chromosome(genes.clone()), &limits).unwrap();
            assert_eq!(path[0], 0);
            assert_eq!(path[path.len() - 1], 4);
            assert!(path != vec![0, 1, 2, 3, 4] || limits == [9, 9]);
            assert!(usage_and_cost(&graph, &path, &limits, cost));
            assert!(cost == 6 || cost == 7 || cost == 8);
        }
    }
}

#[test]
fn decoded_path_with_parallel_edges_takes_the_one_within_limits() {
    let edges = vec![(0, 1, 1, vec![9]), (0, 1, 4, vec![1]), (1, 2, 1, vec![1])];
    let graph = build_graph(3, &edges).unwrap();
    let (path, cost) = decode(&graph, &chromosome(vec![1]), &[3]).unwrap();
    assert_eq!((path.clone(), cost), (vec![0, 1, 2], 5));
    assert!(usage_and_cost(&graph, &path, &[3], cost));
}
