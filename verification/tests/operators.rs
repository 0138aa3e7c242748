use rand::rngs::StdRng;
use rand::SeedableRng;
use rcsp_ga::{
    crossover, crossover_at, draw_picks, generate_random_chromosome, mutate, mutate_at,
    rank_population, swap_genes, tournament_selection, tournament_winner, Chromosome, Fitness, Rate,
};

fn chromosome(genes: Vec<usize>) -> Chromosome {
    Chromosome { genes, fitness: Fitness::Zero }
}

fn with_fitness(genes: Vec<usize>, fitness: Fitness) -> Chromosome {
    Chromosome { genes, fitness }
}

fn sorted(genes: &[usize]) -> Vec<usize> {
    let mut copy = genes.to_vec();
    copy.sort();
    copy
}

#[test]
fn rate_is_a_ratio_between_zero_and_one() {
    assert_eq!(Rate::new(1, 10), Some(Rate { numerator: 1, denominator: 10 }));
    assert_eq!(Rate::new(0, 1), Some(Rate { numerator: 0, denominator: 1 }));
    assert_eq!(Rate::new(7, 7), Some(Rate { numerator: 7, denominator: 7 }));
    assert_eq!(Rate::new(8, 7), None);
    assert_eq!(Rate::new(0, 0), None);
}

#[test]
fn fitness_orders_reciprocals_by_cost() {
    assert!(Fitness::Inverse(6).is_above(&Fitness::Inverse(7)));
    assert!(!Fitness::Inverse(7).is_above(&Fitness::Inverse(6)));
    assert!(!Fitness::Inverse(6).is_above(&Fitness::Inverse(6)));
    assert!(Fitness::Inverse(u128::MAX).is_above(&Fitness::Zero));
    assert!(!Fitness::Zero.is_above(&Fitness::Inverse(1)));
    assert!(!Fitness::Zero.is_above(&Fitness::Zero));
    assert!(Fitness::Inverse(0).is_above(&Fitness::Inverse(1)));
}

#[test]
fn generated_chromosome_is_a_permutation_of_the_intermediate_nodes() {
    let mut rng = StdRng::seed_from_u64(11);
    for num_nodes in [3usize, 4, 5, 9, 40] {
        for _ in 0..20 {
            let made = generate_random_chromosome(num_nodes, &mut rng);
            let expected: Vec<usize> = (1..num_nodes - 1).collect();
            assert_eq!(sorted(&made.genes), expected);
            assert_eq!(made.fitness, Fitness::Zero);
        }
    }
}

#[test]
fn generated_chromosomes_come_in_different_orders() {
    let mut rng = StdRng::seed_from_u64(5);
    let rising: Vec<usize> = (1..31).collect();
    let mut moved = false;
    for _ in 0..5 {
        if generate_random_chromosome(32, &mut rng).genes != rising {
            moved = true;
        }
    }
    assert!(moved);
}

#[test]
fn crossover_at_copies_the_segment_and_fills_in_order() {
    let one = chromosome(vec![3, 1, 4, 2, 5]);
    let two = chromosome(vec![5, 2, 1, 3, 4]);
    assert_eq!(crossover_at(&one, &two, 2, 2).genes, vec![1, 3, 4, 5, 2]);
    assert_eq!(crossover_at(&one, &two, 3, 1).genes, vec![3, 1, 4, 2, 5]);
    assert_eq!(crossover_at(&one, &two, 1, 3).genes, vec![3, 1, 4, 2, 5]);
    assert_eq!(crossover_at(&one, &two, 4, 0).genes, vec![3, 1, 4, 2, 5]);
    assert_eq!(crossover_at(&two, &one, 0, 1).genes, vec![5, 2, 3, 1, 4]);
    assert_eq!(crossover_at(&one, &two, 2, 2).fitness, Fitness::Zero);
}

#[test]
fn crossover_at_of_reversed_parents() {
    let one = chromosome(vec![1, 2, 3, 4, 5]);
    let two = chromosome(vec![5, 4, 3, 2, 1]);
    assert_eq!(crossover_at(&one, &two, 1, 3).genes, vec![1, 2, 3, 4, 5]);
    assert_eq!(crossover_at(&one, &two, 0, 0).genes, vec![1, 5, 4, 3, 2]);
    assert_eq!(crossover_at(&one, &two, 4, 4).genes, vec![4, 3, 2, 1, 5]);
}

#[test]
fn crossover_at_of_a_single_gene() {
    let one = chromosome(vec![1]);
    assert_eq!(crossover_at(&one, &one, 0, 0).genes, vec![1]);
}

#[test]
fn crossover_at_leaves_no_slot_empty() {
    let one = chromosome(vec![4, 6, 1, 3, 5, 2]);
    let two = chromosome(vec![2, 5, 6, 1, 4, 3]);
    for a in 0..6 {
        for b in 0..6 {
            let child = crossover_at(&one, &two, a, b);
            assert_eq!(sorted(&child.genes), vec![1, 2, 3, 4, 5, 6]);
            let (start, end) = if a < b { (a, b) } else { (b, a) };
            assert_eq!(child.genes[start..=end], one.genes[start..=end]);
        }
    }
}

#[test]
fn crossover_gives_a_permutation() {
    let mut rng = StdRng::seed_from_u64(21);
    let one = chromosome(vec![4, 6, 1, 3, 5, 2]);
    let two = chromosome(vec![2, 5, 6, 1, 4, 3]);
    for _ in 0..50 {
        let child = crossover(&one, &two, &mut rng);
        assert_eq!(sorted(&child.genes), vec![1, 2, 3, 4, 5, 6]);
        assert_eq!(child.fitness, Fitness::Zero);
    }
}

#[test]
fn swap_genes_exchanges_two_positions() {
    let mut subject = with_fitness(vec![1, 2, 3, 4], Fitness::Inverse(9));
    swap_genes(&mut subject, 0, 3);
    assert_eq!(subject.genes, vec![4, 2, 3, 1]);
    swap_genes(&mut subject, 2, 2);
    assert_eq!(subject.genes, vec![4, 2, 3, 1]);
    assert_eq!(subject.fitness, Fitness::Inverse(9));
}

#[test]
fn mutate_at_rate_zero_changes_nothing() {
    let mut rng = StdRng::seed_from_u64(1);
    let never = Rate::new(0, 1).unwrap();
    for _ in 0..50 {
        let mut subject = with_fitness(vec![3, 1, 2, 4], Fitness::Inverse(5));
        mutate(&mut subject, never, &mut rng);
        assert_eq!(subject.genes, vec![3, 1, 2, 4]);
        assert_eq!(subject.fitness, Fitness::Inverse(5));
    }
}

#[test]
fn mutate_at_rate_one_swaps_at_most_two_genes() {
    let mut rng = StdRng::seed_from_u64(2);
    let always = Rate::new(1, 1).unwrap();
    let before = vec![3, 1, 2, 4, 6, 5, 7, 8];
    let mut changed = false;
    for _ in 0..50 {
        let mut subject = with_fitness(before.clone(), Fitness::Inverse(5));
        mutate(&mut subject, always, &mut rng);
        assert_eq!(sorted(&subject.genes), vec![1, 2, 3, 4, 5, 6, 7, 8]);
        let moved = (0..8).filter(|&i| subject.genes[i] != before[i]).count();
        assert!(moved == 0 || moved == 2);
        changed = changed || moved == 2;
        assert_eq!(subject.fitness, Fitness::Inverse(5));
    }
    assert!(changed);
}

#[test]
fn tournament_winner_is_the_first_of_the_fittest_entrants() {
    let population = vec![
        with_fitness(vec![1, 2], Fitness::Inverse(8)),
        with_fitness(vec![2, 1], Fitness::Inverse(6)),
        with_fitness(vec![1, 2], Fitness::Zero),
        with_fitness(vec![2, 1], Fitness::Inverse(6)),
    ];
    assert_eq!(tournament_winner(&population, &vec![0, 1, 2]), 1);
    assert_eq!(tournament_winner(&population, &vec![3, 1, 0]), 3);
    assert_eq!(tournament_winner(&population, &vec![1, 3, 3]), 1);
    assert_eq!(tournament_winner(&population, &vec![2, 2, 0]), 0);
    assert_eq!(tournament_winner(&population, &vec![2]), 2);
    assert_eq!(tournament_winner(&population, &vec![0, 2, 0]), 0);
}

#[test]
fn draw_picks_stay_inside_the_population() {
    let mut rng = StdRng::seed_from_u64(8);
    for size in [1usize, 2, 7] {
        for k in [0usize, 1, 3, 5] {
            let picks = draw_picks(&mut rng, size, k);
            assert_eq!(picks.len(), if k == 0 { 1 } else { k });
            assert!(picks.iter().all(|&p| p < size));
        }
    }
}

#[test]
fn tournament_selection_copies_a_member() {
    let mut rng = StdRng::seed_from_u64(13);
    let population = vec![
        with_fitness(vec![1, 2, 3], Fitness::Inverse(8)),
        with_fitness(vec![2, 1, 3], Fitness::Inverse(6)),
        with_fitness(vec![3, 2, 1], Fitness::Zero),
    ];
    for _ in 0..30 {
        let chosen = tournament_selection(&population, 3, &mut rng);
        assert!(population.iter().any(|c| c.genes == chosen.genes && c.fitness == chosen.fitness));
    }
    let alone = vec![with_fitness(vec![1], Fitness::Inverse(2))];
    let chosen = tournament_selection(&alone, 3, &mut rng);
    assert_eq!(chosen.genes, vec![1]);
    assert_eq!(chosen.fitness, Fitness::Inverse(2));
}

#[test]
fn tournament_of_the_whole_population_many_times_finds_the_fittest() {
    let mut rng = StdRng::seed_from_u64(17);
    let population = vec![
        with_fitness(vec![1, 2], Fitness::Zero),
        with_fitness(vec![2, 1], Fitness::Inverse(4)),
    ];
    let chosen = tournament_selection(&population, 64, &mut rng);
    assert_eq!(chosen.fitness, Fitness::Inverse(4));
}

#[test]
fn rank_population_puts_the_fittest_first_and_keeps_equals_in_order() {
    let population = vec![
        with_fitness(vec![1], Fitness::Zero),
        with_fitness(vec![2], Fitness::Inverse(7)),
        with_fitness(vec![3], Fitness::Inverse(6)),
        with_fitness(vec![4], Fitness::Inverse(7)),
        with_fitness(vec![5], Fitness::Zero),
        with_fitness(vec![6], Fitness::Inverse(6)),
        with_fitness(vec![7], Fitness::Inverse(0)),
    ];
    let ranked = rank_population(&population);
    let order: Vec<usize> = ranked.iter().map(|c| c.genes[0]).collect();
    assert_eq!(order, vec![7, 3, 6, 2, 4, 1, 5]);
    assert_eq!(ranked[0].fitness, Fitness::Inverse(0));
    assert!(rank_population(&vec![]).is_empty());
}

#[test]
fn mutate_at_exchanges_the_positions_given_or_nothing() {
    let mut subject = with_fitness(vec![3, 1, 2, 4], Fitness::Inverse(5));
    mutate_at(&mut subject, None);
    assert_eq!(subject.genes, vec![3, 1, 2, 4]);
    mutate_at(&mut subject, Some((1, 3)));
    assert_eq!(subject.genes, vec![3, 4, 2, 1]);
    mutate_at(&mut subject, Some((2, 2)));
    assert_eq!(subject.genes, vec![3, 4, 2, 1]);
    assert_eq!(subject.fitness, Fitness::Inverse(5));
}

#[test]
fn mutate_at_rate_one_of_two_genes_swaps_or_picks_one_place_twice() {
    let mut rng = StdRng::seed_from_u64(71);
    let always = Rate::new(3, 3).unwrap();
    let mut swapped = 0;
    let mut kept = 0;
    for _ in 0..200 {
        let mut subject = chromosome(vec![1, 2]);
        mutate(&mut subject, always, &mut rng);
        if subject.genes == vec![2, 1] {
            swapped += 1;
        } else {
            assert_eq!(subject.genes, vec![1, 2]);
            kept += 1;
        }
    }
    assert!(swapped > 0 && kept > 0);
}
