use rand::rngs::StdRng;
use rand::SeedableRng;
use rcsp_ga::{
    breed, build_graph, decode, draw_mating, draw_plan, evaluate, generate_random_chromosome,
    next_generation, rank_population, run_search, Chromosome, Fitness, Graph, Mating, Rate,
    TOURNAMENT_SIZE,
};

fn sample_graph() -> Graph {
    let edges = vec![
        (0, 1, 2, vec![1, 2]),
        (0, 2, 3, vec![2, 1]),
        (1, 2, 1, vec![1, 1]),
        (1, 3, 4, vec![2, 3]),
        (2, 3, 2, vec![1, 4]),
        (2, 4, 5, vec![3, 1]),
        (3, 4, 1, vec![1, 2]),
    ];
    build_graph(5, &edges).unwrap()
}

fn assessed(graph: &Graph, genes: Vec<usize>, limits: &[u64]) -> Chromosome {
    let mut made = Chromosome { genes, fitness: Fitness::Zero };
    evaluate(graph, &mut made, limits);
    made
}

fn mating(
    first: [usize; 3],
    second: [usize; 3],
    cuts: Option<(usize, usize)>,
    swap: Option<(usize, usize)>,
) -> Mating {
    Mating { first: first.to_vec(), second: second.to_vec(), cuts, swap }
}

fn sample_population(graph: &Graph, limits: &[u64]) -> Vec<Chromosome> {
    let genes = vec![
        vec![1, 3, 2],
        vec![1, 2, 3],
        vec![3, 1, 2],
        vec![2, 1, 3],
        vec![1, 3, 2],
        vec![3, 2, 1],
        vec![2, 3, 1],
        vec![3, 1, 2],
        vec![1, 2, 3],
        vec![1, 3, 2],
    ];
    genes.into_iter().map(|g| assessed(graph, g, limits)).collect()
}

fn sample_plan() -> Vec<Mating> {
    vec![
        mating([0, 1, 2], [3, 4, 5], None, None),
        mating([9, 8, 7], [6, 6, 6], Some((0, 1)), None),
        mating([4, 4, 4], [9, 9, 9], None, Some((0, 2))),
        mating([0, 0, 0], [7, 8, 9], Some((2, 0)), Some((1, 1))),
        mating([5, 6, 7], [1, 2, 3], Some((1, 1)), Some((0, 1))),
        mating([9, 9, 9], [8, 8, 8], None, None),
        mating([2, 3, 4], [0, 0, 1], Some((2, 2)), None),
        mating([6, 7, 8], [6, 7, 8], None, Some((2, 1))),
        mating([1, 0, 1], [9, 8, 9], Some((0, 2)), Some((2, 0))),
    ]
}

fn best_cost(population: &[Chromosome]) -> Option<u128> {
    population
        .iter()
        .filter_map(|c| match c.fitness {
            Fitness::Inverse(cost) => Some(cost),
            Fitness::Zero => None,
        })
        .min()
}

#[test]
fn evaluate_sets_the_reciprocal_of_the_decoded_cost() {
    let graph = sample_graph();
    let made = assessed(&graph, vec![1, 2, 3], &[5, 7]);
    assert_eq!(made.fitness, Fitness::Inverse(6));
    assert_eq!(made.genes, vec![1, 2, 3]);
    let made = assessed(&graph, vec![1, 3, 2], &[5, 7]);
    assert_eq!(made.fitness, Fitness::Inverse(7));
    let made = assessed(&graph, vec![1, 3, 2], &[5, 2]);
    assert_eq!(made.fitness, Fitness::Inverse(8));
}

#[test]
fn evaluate_sets_zero_where_nothing_is_decoded() {
    let graph = sample_graph();
    let mut made = Chromosome { genes: vec![2, 1, 3], fitness: Fitness::Inverse(3) };
    evaluate(&graph, &mut made, &[0, 0]);
    assert_eq!(made.fitness, Fitness::Zero);
    assert_eq!(made.genes, vec![2, 1, 3]);
}

#[test]
fn fitness_is_that_of_the_decoded_cost_for_every_member() {
    let graph = sample_graph();
    let limits = [5, 7];
    let next = next_generation(&graph, &limits, &sample_population(&graph, &limits), &sample_plan());
    for member in &next {
        let expected = match decode(&graph, member, &limits) {
            Some((_, cost)) => Fitness::Inverse(cost),
            None => Fitness::Zero,
        };
        assert_eq!(member.fitness, expected);
    }
}

#[test]
fn breed_copies_the_second_parent_on_a_tie() {
    let graph = sample_graph();
    let limits = [5, 7];
    let ranked = rank_population(&sample_population(&graph, &limits));
    let child = breed(&graph, &limits, &ranked, &mating([0, 1, 2], [3, 4, 5], None, None));
    assert_eq!(child.genes, vec![2, 3, 1]);
    assert_eq!(child.fitness, Fitness::Inverse(6));
}

#[test]
fn breed_copies_the_first_parent_where_it_is_fitter() {
    let graph = sample_graph();
    let limits = [5, 7];
    let ranked = rank_population(&sample_population(&graph, &limits));
    let child = breed(&graph, &limits, &ranked, &mating([5, 1, 6], [9, 8, 7], None, None));
    assert_eq!(child.genes, vec![2, 1, 3]);
    assert_eq!(child.fitness, Fitness::Inverse(6));
}

#[test]
fn breed_crosses_and_mutates_with_the_numbers_given() {
    let graph = sample_graph();
    let limits = [5, 7];
    let ranked = rank_population(&sample_population(&graph, &limits));
    // The first entrant holds its place against an equal, so the parents are
    // [2, 1, 3] and [1, 3, 2]; the cut at 0..=1 keeps [2, 1] and fills 3;
    // the swap of the ends gives [3, 1, 2].
    let plan = mating([1, 0, 1], [9, 8, 9], Some((0, 1)), Some((2, 0)));
    let child = breed(&graph, &limits, &ranked, &plan);
    assert_eq!(child.genes, vec![3, 1, 2]);
    assert_eq!(child.fitness, Fitness::Inverse(7));
}

#[test]
fn next_generation_follows_the_plan() {
    let graph = sample_graph();
    let limits = [5, 7];
    let next = next_generation(&graph, &limits, &sample_population(&graph, &limits), &sample_plan());
    let expected: Vec<(Vec<usize>, u128)> = vec![
        (vec![1, 2, 3], 6),
        (vec![2, 3, 1], 6),
        (vec![1, 3, 2], 7),
        (vec![3, 2, 1], 6),
        (vec![1, 2, 3], 6),
        (vec![3, 1, 2], 7),
        (vec![3, 1, 2], 7),
        (vec![2, 3, 1], 6),
        (vec![3, 2, 1], 6),
        (vec![3, 1, 2], 7),
    ];
    assert_eq!(next.len(), expected.len());
    for (member, (genes, cost)) in next.iter().zip(expected) {
        assert_eq!(member.genes, genes);
        assert_eq!(member.fitness, Fitness::Inverse(cost));
    }
}

#[test]
fn next_generation_of_a_small_population_keeps_no_elite() {
    let graph = sample_graph();
    let limits = [5, 7];
    let population = vec![
        assessed(&graph, vec![1, 2, 3], &limits),
        assessed(&graph, vec![1, 3, 2], &limits),
    ];
    let plan = vec![
        mating([1, 1, 1], [1, 1, 1], None, None),
        mating([1, 1, 1], [1, 1, 1], Some((0, 2)), None),
    ];
    let next = next_generation(&graph, &limits, &population, &plan);
    assert_eq!(next.len(), 2);
    assert_eq!(next[0].genes, vec![1, 3, 2]);
    assert_eq!(next[1].genes, vec![1, 3, 2]);
    assert_eq!(best_cost(&next), Some(7));
}

#[test]
fn next_generation_keeps_the_fittest_of_ten() {
    let graph = sample_graph();
    let limits = [5, 7];
    let mut rng = StdRng::seed_from_u64(29);
    let half = Rate::new(1, 2).unwrap();
    let mut population: Vec<Chromosome> = (0..20)
        .map(|_| {
            let mut made = generate_random_chromosome(5, &mut rng);
            evaluate(&graph, &mut made, &limits);
            made
        })
        .collect();
    for _ in 0..30 {
        let plan = draw_plan(&mut rng, 20, 3, half, half);
        let next = next_generation(&graph, &limits, &population, &plan);
        assert_eq!(next.len(), 20);
        let kept = rank_population(&population);
        assert_eq!(next[0].genes, kept[0].genes);
        assert_eq!(next[1].genes, kept[1].genes);
        assert!(best_cost(&next) <= best_cost(&population));
        for member in &next {
            let mut genes = member.genes.clone();
            genes.sort();
            assert_eq!(genes, vec![1, 2, 3]);
        }
        population = next;
    }
}

#[test]
fn draw_mating_fits_the_population() {
    let mut rng = StdRng::seed_from_u64(31);
    let never = Rate::new(0, 5).unwrap();
    let always = Rate::new(5, 5).unwrap();
    for _ in 0..20 {
        let drawn = draw_mating(&mut rng, 7, 4, always, never);
        assert_eq!(drawn.first.len(), TOURNAMENT_SIZE);
        assert_eq!(drawn.second.len(), TOURNAMENT_SIZE);
        assert!(drawn.first.iter().chain(drawn.second.iter()).all(|&p| p < 7));
        let (a, b) = drawn.cuts.unwrap();
        assert!(a < 4 && b < 4);
        assert_eq!(drawn.swap, None);
        let drawn = draw_mating(&mut rng, 7, 4, never, always);
        assert_eq!(drawn.cuts, None);
        let (i, j) = drawn.swap.unwrap();
        assert!(i < 4 && j < 4);
    }
}

#[test]
fn draw_plan_has_a_mating_for_all_but_the_elite() {
    let mut rng = StdRng::seed_from_u64(37);
    let half = Rate::new(1, 2).unwrap();
    for (size, wanted) in [(1usize, 1usize), (9, 9), (10, 9), (19, 18), (50, 45)] {
        assert_eq!(draw_plan(&mut rng, size, 3, half, half).len(), wanted);
    }
}

#[test]
fn run_search_finds_a_path_through_the_sample_graph() {
    let graph = sample_graph();
    let mut rng = StdRng::seed_from_u64(41);
    let crossover_rate = Rate::new(8, 10).unwrap();
    let mutation_rate = Rate::new(1, 10).unwrap();
    let path = run_search(&graph, 50, 100, crossover_rate, mutation_rate, &[5, 7], &mut rng);
    let path = path.unwrap();
    assert_eq!(path, vec![0, 2, 3, 4]);
}

#[test]
fn run_search_reaches_the_only_path_within_tight_limits() {
    let graph = sample_graph();
    let mut rng = StdRng::seed_from_u64(43);
    let crossover_rate = Rate::new(8, 10).unwrap();
    let mutation_rate = Rate::new(1, 10).unwrap();
    let path = run_search(&graph, 12, 5, crossover_rate, mutation_rate, &[5, 2], &mut rng);
    assert_eq!(path, Some(vec![0, 2, 4]));
}

#[test]
fn run_search_finds_nothing_under_zero_limits() {
    let graph = sample_graph();
    let mut rng = StdRng::seed_from_u64(47);
    let crossover_rate = Rate::new(8, 10).unwrap();
    let mutation_rate = Rate::new(1, 10).unwrap();
    let path = run_search(&graph, 20, 10, crossover_rate, mutation_rate, &[0, 0], &mut rng);
    assert_eq!(path, None);
}

#[test]
fn run_search_without_generations_decodes_the_best_of_the_first() {
    let graph = sample_graph();
    let mut rng = StdRng::seed_from_u64(53);
    let rate = Rate::new(1, 2).unwrap();
    let path = run_search(&graph, 1, 0, rate, rate, &[5, 7], &mut rng).unwrap();
    assert_eq!(path[0], 0);
    assert_eq!(path[path.len() - 1], 4);
}

#[test]
fn run_search_repeats_itself_for_the_same_seed() {
    let edges = vec![
        (0, 1, 4, vec![1]),
        (0, 2, 1, vec![3]),
        (1, 3, 2, vec![2]),
        (2, 3, 9, vec![1]),
        (3, 4, 1, vec![1]),
        (2, 5, 2, vec![2]),
        (4, 6, 3, vec![1]),
        (5, 6, 1, vec![4]),
        (1, 5, 7, vec![1]),
        (5, 4, 1, vec![1]),
    ];
    let graph = build_graph(7, &edges).unwrap();
    let crossover_rate = Rate::new(8, 10).unwrap();
    let mutation_rate = Rate::new(3, 10).unwrap();
    for seed in 0..8 {
        let mut one = StdRng::seed_from_u64(seed);
        let mut two = StdRng::seed_from_u64(seed);
        let first = run_search(&graph, 15, 12, crossover_rate, mutation_rate, &[8], &mut one);
        let second = run_search(&graph, 15, 12, crossover_rate, mutation_rate, &[8], &mut two);
        assert_eq!(first, second);
    }
}

#[test]
fn generations_repeat_themselves_for_the_same_seed() {
    let graph = sample_graph();
    let limits = [5, 7];
    let rate = Rate::new(1, 2).unwrap();
    let mut runs: Vec<Vec<Vec<Vec<usize>>>> = Vec::new();
    for _ in 0..2 {
        let mut rng = StdRng::seed_from_u64(59);
        let mut population: Vec<Chromosome> = (0..12)
            .map(|_| {
                let mut made = generate_random_chromosome(5, &mut rng);
                evaluate(&graph, &mut made, &limits);
                made
            })
            .collect();
        let mut history = vec![population.iter().map(|c| c.genes.clone()).collect::<Vec<_>>()];
        for _ in 0..10 {
            let plan = draw_plan(&mut rng, 12, 3, rate, rate);
            population = next_generation(&graph, &limits, &population, &plan);
            history.push(population.iter().map(|c| c.genes.clone()).collect());
        }
        runs.push(history);
    }
    assert_eq!(runs[0], runs[1]);
}

#[test]
fn plans_at_rate_zero_hold_no_cuts_and_no_swaps() {
    let mut rng = StdRng::seed_from_u64(61);
    let never = Rate::new(0, 1).unwrap();
    let always = Rate::new(1, 1).unwrap();
    let plan = draw_plan(&mut rng, 30, 4, never, never);
    assert!(plan.iter().all(|m| m.cuts.is_none() && m.swap.is_none()));
    let plan = draw_plan(&mut rng, 30, 4, always, never);
    assert!(plan.iter().all(|m| m.cuts.is_some() && m.swap.is_none()));
    let plan = draw_plan(&mut rng, 30, 4, never, always);
    assert!(plan.iter().all(|m| m.cuts.is_none() && m.swap.is_some()));
    assert!(plan.iter().all(|m| m.first.len() == 3 && m.second.len() == 3));
}

#[test]
fn generations_at_rate_zero_only_copy() {
    let graph = sample_graph();
    let limits = [5, 7];
    let mut rng = StdRng::seed_from_u64(67);
    let never = Rate::new(0, 1).unwrap();
    let first: Vec<Chromosome> = [vec![1, 3, 2], vec![3, 1, 2], vec![1, 3, 2], vec![2, 1, 3]]
        .into_iter()
        .map(|genes| assessed(&graph, genes, &limits))
        .collect();
    let mut population: Vec<Chromosome> =
        first.iter().map(|c| Chromosome { genes: c.genes.clone(), fitness: c.fitness }).collect();
    for _ in 0..15 {
        let plan = draw_plan(&mut rng, 4, 3, never, never);
        let next = next_generation(&graph, &limits, &population, &plan);
        for member in &next {
            assert!(population
                .iter()
                .any(|c| c.genes == member.genes && c.fitness == member.fitness));
            assert!(first.iter().any(|c| c.genes == member.genes));
        }
        population = next;
    }
}
