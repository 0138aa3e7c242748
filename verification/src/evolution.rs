//! The evolution loop: from one generation to the next, and the search as a
//! whole.
//!
//! Every random number that a generation needs is drawn before anything is
//! computed from it, so that the next generation is a function of the
//! present one and of the numbers drawn.

use crate::chromosome::{
    generate_random_chromosome, individuals, is_permutation, Chromosome, Individual,
};
use crate::crossover::{crossed, crossover_at, lemma_crossed_is_permutation};
use crate::decoder::{decode, decoded};
use crate::fitness::{lemma_exceeds_is_strict_total, Fitness};
use crate::graph::{Graph, Network};
use crate::mutation::{lemma_swapped_is_permutation, swap_genes, swapped};
use crate::random::{random_below, random_chance, Rate};
use crate::ranking::{
    lemma_peak, lemma_ranked_rearranges, lemma_ranked_starts_at_peak, peak, rank_population, ranked,
};
use crate::routes::{
    follows_edges, lemma_decoded_path_follows_edges, lemma_decoded_path_within_limits,
    path_within_limits,
};
use crate::selection::{draw_picks, lemma_winner_is_fittest, picks_ok, tournament_winner, winner};
use rand::rngs::StdRng;
use vstd::prelude::*;

verus! {

/// The number of entrants of each tournament of the search.
pub const TOURNAMENT_SIZE: usize = 3;

/// The random numbers that go into one child: the entrants of the two
/// tournaments that choose its parents; the cut points, where the parents
/// are crossed; and the two positions to exchange, where the child mutates.
#[derive(Debug)]
pub struct Mating {
    pub first: Vec<usize>,
    pub second: Vec<usize>,
    pub cuts: Option<(usize, usize)>,
    pub swap: Option<(usize, usize)>,
}

/// The numbers of a mating fit a population of `size` individuals with
/// `count` genes each.
pub open spec fn mating_ok(mating: Mating, size: nat, count: nat) -> bool {
    &&& picks_ok(mating.first@, size)
    &&& picks_ok(mating.second@, size)
    &&& match mating.cuts {
        Some((point1, point2)) => point1 < count && point2 < count,
        None => true,
    }
    &&& match mating.swap {
        Some((i, j)) => i < count && j < count,
        None => true,
    }
}

/// The number of genes of the individuals of a population, taken from the
/// first; zero for an empty population.
pub open spec fn gene_count(population: Seq<Individual>) -> nat {
    if population.len() == 0 {
        0
    } else {
        population[0].genes.len()
    }
}

/// The numbers of a mating are such as the rates allow: each tournament has
/// its three entrants; there are no cut points at a crossover rate of zero
/// and always some at a rate of one; there are no positions to exchange at
/// a mutation rate of zero and always some at a rate of one.
pub open spec fn mating_keeps_rates(mating: Mating, crossover_rate: Rate, mutation_rate: Rate) -> bool {
    &&& mating.first@.len() == TOURNAMENT_SIZE
    &&& mating.second@.len() == TOURNAMENT_SIZE
    &&& crossover_rate.numerator == 0 ==> mating.cuts is None
    &&& crossover_rate.numerator == crossover_rate.denominator ==> mating.cuts is Some
    &&& mutation_rate.numerator == 0 ==> mating.swap is None
    &&& mutation_rate.numerator == mutation_rate.denominator ==> mating.swap is Some
}

/// Every mating of the plan is such as the rates allow.
pub open spec fn plan_keeps_rates(plan: Seq<Mating>, crossover_rate: Rate, mutation_rate: Rate) -> bool {
    forall|k: int|
        0 <= k < plan.len() ==> mating_keeps_rates(#[trigger] plan[k], crossover_rate, mutation_rate)
}

/// Every individual is a permutation of `count` genes.
pub open spec fn population_ok(population: Seq<Individual>, count: nat) -> bool {
    forall|i: int|
        0 <= i < population.len() ==> {
            &&& is_permutation((#[trigger] population[i]).genes)
            &&& population[i].genes.len() == count
        }
}

/// The individual with these genes and the fitness that decoding them
/// earns: the reciprocal of the cost where a path is found, zero where none
/// is.
pub open spec fn assessed(net: Network, limits: Seq<u64>, genes: Seq<usize>) -> Individual {
    Individual { genes, fitness: Fitness::of(decoded(net, genes, limits)) }
}

/// The fitness of every individual is the one that its genes earn.
pub open spec fn all_assessed(net: Network, limits: Seq<u64>, population: Seq<Individual>) -> bool {
    forall|i: int|
        0 <= i < population.len() ==> #[trigger] population[i] == assessed(
            net,
            limits,
            population[i].genes,
        )
}

/// The genes of the child of a mating. Its parents are the winners of the
/// two tournaments. With cut points the child is their crossing; without,
/// it has the genes of the first parent where that one is strictly fitter,
/// and of the second otherwise. With positions to exchange, the genes at
/// those positions change places.
pub open spec fn offspring(population: Seq<Individual>, mating: Mating) -> Seq<usize> {
    let one = population[winner(population, mating.first@) as int];
    let two = population[winner(population, mating.second@) as int];
    let genes = match mating.cuts {
        Some((point1, point2)) => crossed(one.genes, two.genes, point1 as int, point2 as int),
        None => if one.fitness.exceeds(two.fitness) {
            one.genes
        } else {
            two.genes
        },
    };
    match mating.swap {
        Some((i, j)) => swapped(genes, i as int, j as int),
        None => genes,
    }
}

/// The number of individuals that pass into the next generation as they
/// are: a tenth of the population, rounded down.
pub open spec fn elite_count(size: nat) -> nat {
    size / 10
}

/// The children of a plan, each bred from the ranked population and
/// assessed.
pub open spec fn children(
    net: Network,
    limits: Seq<u64>,
    sorted: Seq<Individual>,
    plan: Seq<Mating>,
) -> Seq<Individual> {
    Seq::new(plan.len(), |k: int| assessed(net, limits, offspring(sorted, plan[k])))
}

/// The generation that follows a population under a plan: the fittest tenth
/// of the ranked population as it is, and after it the children of the plan
/// in order.
pub open spec fn succession(
    net: Network,
    limits: Seq<u64>,
    population: Seq<Individual>,
    plan: Seq<Mating>,
) -> Seq<Individual> {
    let sorted = ranked(population);
    sorted.take(elite_count(population.len()) as int) + children(net, limits, sorted, plan)
}

/// A plan fits a population: it has a mating for every individual that is
/// not among the elite, and each mating fits.
pub open spec fn plan_ok(plan: Seq<Mating>, size: nat, count: nat) -> bool {
    &&& plan.len() == size - elite_count(size)
    &&& forall|k: int| 0 <= k < plan.len() ==> mating_ok(#[trigger] plan[k], size, count)
}

proof fn lemma_ranked_members(population: Seq<Individual>)
    ensures
        ranked(population).len() == population.len(),
        forall|i: int|
            0 <= i < population.len() ==> population.contains(#[trigger] ranked(population)[i]),
{
    let sorted = ranked(population);
    lemma_ranked_rearranges(population);
    assert forall|i: int| 0 <= i < population.len() implies population.contains(
        #[trigger] sorted[i],
    ) by {
        vstd::seq_lib::to_multiset_contains(population, sorted[i]);
        vstd::seq_lib::to_multiset_contains(sorted, sorted[i]);
        assert(sorted.contains(sorted[i]));
    }
}

/// The child of a mating among permutations is a permutation of as many
/// genes.
pub proof fn lemma_offspring_is_permutation(population: Seq<Individual>, mating: Mating, count: nat)
    requires
        population_ok(population, count),
        mating_ok(mating, population.len(), count),
    ensures
        offspring(population, mating).len() == count,
        is_permutation(offspring(population, mating)),
{
    lemma_winner_is_fittest(population, mating.first@);
    lemma_winner_is_fittest(population, mating.second@);
    let one = population[winner(population, mating.first@) as int];
    let two = population[winner(population, mating.second@) as int];
    let genes = match mating.cuts {
        Some((point1, point2)) => crossed(one.genes, two.genes, point1 as int, point2 as int),
        None => if one.fitness.exceeds(two.fitness) {
            one.genes
        } else {
            two.genes
        },
    };
    match mating.cuts {
        Some((point1, point2)) => {
            lemma_crossed_is_permutation(one.genes, two.genes, point1 as int, point2 as int);
        },
        None => {},
    }
    match mating.swap {
        Some((i, j)) => {
            lemma_swapped_is_permutation(genes, i as int, j as int);
        },
        None => {},
    }
}

/// A generation of permutations is followed by a generation of
/// permutations, of the same size and with as many genes each.
pub proof fn lemma_succession_keeps_permutations(
    net: Network,
    limits: Seq<u64>,
    population: Seq<Individual>,
    plan: Seq<Mating>,
    count: nat,
)
    requires
        population_ok(population, count),
        plan_ok(plan, population.len(), count),
    ensures
        succession(net, limits, population, plan).len() == population.len(),
        population_ok(succession(net, limits, population, plan), count),
{
    let sorted = ranked(population);
    let elite = elite_count(population.len()) as int;
    let next = succession(net, limits, population, plan);
    lemma_ranked_members(population);
    assert(population_ok(sorted, count)) by {
        assert forall|i: int| 0 <= i < sorted.len() implies {
            &&& is_permutation((#[trigger] sorted[i]).genes)
            &&& sorted[i].genes.len() == count
        } by {
            assert(population.contains(sorted[i]));
            let j = choose|j: int| 0 <= j < population.len() && population[j] == sorted[i];
            assert(is_permutation(population[j].genes));
        }
    }
    assert forall|i: int| 0 <= i < next.len() implies {
        &&& is_permutation((#[trigger] next[i]).genes)
        &&& next[i].genes.len() == count
    } by {
        if i < elite {
            assert(next[i] == sorted[i]);
        } else {
            assert(next[i] == assessed(net, limits, offspring(sorted, plan[i - elite])));
            assert(mating_ok(plan[i - elite], sorted.len(), count));
            lemma_offspring_is_permutation(sorted, plan[i - elite], count);
        }
    }
}

/// Where every individual of a generation has the fitness that its genes
/// earn, so has every individual of the generation that follows.
pub proof fn lemma_succession_is_assessed(
    net: Network,
    limits: Seq<u64>,
    population: Seq<Individual>,
    plan: Seq<Mating>,
)
    requires
        all_assessed(net, limits, population),
    ensures
        all_assessed(net, limits, succession(net, limits, population, plan)),
{
    let sorted = ranked(population);
    let elite = elite_count(population.len()) as int;
    let next = succession(net, limits, population, plan);
    lemma_ranked_members(population);
    assert forall|i: int| 0 <= i < next.len() implies #[trigger] next[i] == assessed(
        net,
        limits,
        next[i].genes,
    ) by {
        if i < elite {
            assert(next[i] == sorted[i]);
            assert(population.contains(sorted[i]));
            let j = choose|j: int| 0 <= j < population.len() && population[j] == sorted[i];
            assert(population[j] == assessed(net, limits, population[j].genes));
        } else {
            assert(next[i] == assessed(net, limits, offspring(sorted, plan[i - elite])));
        }
    }
}

/// Without crossing and mutation nothing new appears: where no mating of
/// the plan holds cut points or positions to exchange, every individual of
/// the next generation is, in genes and fitness, an individual of this one.
pub proof fn lemma_succession_without_change_copies(
    net: Network,
    limits: Seq<u64>,
    population: Seq<Individual>,
    plan: Seq<Mating>,
    count: nat,
)
    requires
        all_assessed(net, limits, population),
        plan_ok(plan, population.len(), count),
        forall|k: int| 0 <= k < plan.len() ==> (#[trigger] plan[k]).cuts is None && plan[k].swap is None,
    ensures
        forall|i: int|
            0 <= i < succession(net, limits, population, plan).len() ==> population.contains(
                #[trigger] succession(net, limits, population, plan)[i],
            ),
{
    let sorted = ranked(population);
    let elite = elite_count(population.len()) as int;
    let next = succession(net, limits, population, plan);
    lemma_ranked_members(population);
    assert forall|i: int| 0 <= i < next.len() implies population.contains(#[trigger] next[i]) by {
        if i < elite {
            assert(next[i] == sorted[i]);
        } else {
            let mating = plan[i - elite];
            assert(mating_ok(mating, sorted.len(), count));
            lemma_winner_is_fittest(sorted, mating.first@);
            lemma_winner_is_fittest(sorted, mating.second@);
            let one = sorted[winner(sorted, mating.first@) as int];
            let two = sorted[winner(sorted, mating.second@) as int];
            let copied = if one.fitness.exceeds(two.fitness) {
                one
            } else {
                two
            };
            assert(next[i] == assessed(net, limits, offspring(sorted, mating)));
            assert(offspring(sorted, mating) == copied.genes);
            assert(population.contains(copied));
            let j = choose|j: int| 0 <= j < population.len() && population[j] == copied;
            assert(population[j] == assessed(net, limits, population[j].genes));
        }
    }
}

/// Elitism: in a population of ten or more, the fittest passes into the
/// next generation as it is, so the greatest fitness of the next generation
/// is no less than the greatest of this one.
pub proof fn lemma_elitism(
    net: Network,
    limits: Seq<u64>,
    population: Seq<Individual>,
    plan: Seq<Mating>,
)
    requires
        population.len() >= 10,
    ensures
        !peak(population).exceeds(peak(succession(net, limits, population, plan))),
{
    let sorted = ranked(population);
    let next = succession(net, limits, population, plan);
    lemma_ranked_starts_at_peak(population);
    assert(elite_count(population.len()) >= 1);
    assert(next[0] == sorted[0]);
    lemma_peak(next);
    assert(!next[0].fitness.exceeds(peak(next)));
}

/// Decodes the chromosome and sets its fitness: the reciprocal of the cost
/// where a path is found, zero where none is. The genes stay as they are.
pub fn evaluate(graph: &Graph, chromosome: &mut Chromosome, resource_limits: &[u64])
    requires
        graph@.fits(resource_limits@.len()),
    ensures
        final(chromosome)@ == assessed(graph@, resource_limits@, old(chromosome).genes@),
{
    let fitness = match decode(graph, chromosome, resource_limits) {
        Some((_, cost)) => Fitness::Inverse(cost),
        None => Fitness::Zero,
    };
    chromosome.fitness = fitness;
}

/// The child of a mating, assessed: its parents are chosen from the
/// population by the two tournaments, crossed or copied, and the result
/// mutated, all with the numbers that the mating holds.
pub fn breed(graph: &Graph, resource_limits: &[u64], population: &Vec<Chromosome>, mating: &Mating) -> (child:
    Chromosome)
    requires
        graph@.fits(resource_limits@.len()),
        population_ok(individuals(population@), gene_count(individuals(population@))),
        mating_ok(*mating, population@.len(), gene_count(individuals(population@))),
    ensures
        child@ == assessed(
            graph@,
            resource_limits@,
            offspring(individuals(population@), *mating),
        ),
{
    let ghost members = individuals(population@);
    let one: usize = tournament_winner(population, &mating.first);
    let two: usize = tournament_winner(population, &mating.second);
    proof {
        assert(members[one as int] == population@[one as int]@);
        assert(members[two as int] == population@[two as int]@);
        assert(is_permutation(members[one as int].genes));
        assert(is_permutation(members[two as int].genes));
    }
    let mut child = match mating.cuts {
        Some((point1, point2)) => crossover_at(&population[one], &population[two], point1, point2),
        None => if population[one].fitness.is_above(&population[two].fitness) {
            population[one].duplicate()
        } else {
            population[two].duplicate()
        },
    };
    match mating.swap {
        Some((i, j)) => {
            swap_genes(&mut child, i, j);
        },
        None => {},
    }
    evaluate(graph, &mut child, resource_limits);
    child
}

/// Draws two positions below `count`, with the given probability; nothing
/// otherwise.
fn draw_pair(rng: &mut StdRng, rate: Rate, count: usize) -> (pair: Option<(usize, usize)>)
    requires
        rate.wf(),
        count > 0,
    ensures
        match pair {
            Some((i, j)) => i < count && j < count,
            None => true,
        },
        rate.numerator == 0 ==> pair is None,
        rate.numerator == rate.denominator ==> pair is Some,
{
    if random_chance(rng, rate) {
        let i: usize = random_below(rng, count);
        let j: usize = random_below(rng, count);
        Some((i, j))
    } else {
        None
    }
}

/// Draws the numbers for one child of a population of `size` individuals
/// with `count` genes each: the entrants of two tournaments, with
/// probability `crossover_rate` two cut points, and with probability
/// `mutation_rate` two positions to exchange.
pub fn draw_mating(
    rng: &mut StdRng,
    size: usize,
    count: usize,
    crossover_rate: Rate,
    mutation_rate: Rate,
) -> (mating: Mating)
    requires
        size > 0,
        count > 0,
        crossover_rate.wf(),
        mutation_rate.wf(),
    ensures
        mating_ok(mating, size as nat, count as nat),
        mating_keeps_rates(mating, crossover_rate, mutation_rate),
{
    let first = draw_picks(rng, size, TOURNAMENT_SIZE);
    let second = draw_picks(rng, size, TOURNAMENT_SIZE);
    let cuts = draw_pair(rng, crossover_rate, count);
    let swap = draw_pair(rng, mutation_rate, count);
    Mating { first, second, cuts, swap }
}

/// Draws the numbers for one generation: a mating for every individual
/// that is not among the elite.
pub fn draw_plan(
    rng: &mut StdRng,
    size: usize,
    count: usize,
    crossover_rate: Rate,
    mutation_rate: Rate,
) -> (plan: Vec<Mating>)
    requires
        size > 0,
        count > 0,
        crossover_rate.wf(),
        mutation_rate.wf(),
    ensures
        plan_ok(plan@, size as nat, count as nat),
        plan_keeps_rates(plan@, crossover_rate, mutation_rate),
{
    let wanted: usize = size - size / 10;
    let mut plan: Vec<Mating> = Vec::new();
    while plan.len() < wanted
        invariant
            size > 0,
            count > 0,
            crossover_rate.wf(),
            mutation_rate.wf(),
            wanted == size - elite_count(size as nat),
            plan@.len() <= wanted,
            forall|k: int|
                0 <= k < plan@.len() ==> mating_ok(#[trigger] plan@[k], size as nat, count as nat),
            plan_keeps_rates(plan@, crossover_rate, mutation_rate),
        decreases wanted - plan@.len(),
    {
        let mating = draw_mating(rng, size, count, crossover_rate, mutation_rate);
        plan.push(mating);
    }
    plan
}

/// The generation that follows `population` under `plan`: the fittest
/// tenth of the population as it is, and a child for every mating of the
/// plan.
pub fn next_generation(
    graph: &Graph,
    resource_limits: &[u64],
    population: &Vec<Chromosome>,
    plan: &Vec<Mating>,
) -> (next: Vec<Chromosome>)
    requires
        graph@.fits(resource_limits@.len()),
        population_ok(individuals(population@), gene_count(individuals(population@))),
        plan_ok(plan@, population@.len(), gene_count(individuals(population@))),
    ensures
        individuals(next@) == succession(
            graph@,
            resource_limits@,
            individuals(population@),
            plan@,
        ),
        next@.len() == population@.len(),
{
    let ghost net = graph@;
    let ghost limits = resource_limits@;
    let ghost members = individuals(population@);
    let ghost count = gene_count(members);
    let sorted = rank_population(population);
    let ghost order = individuals(sorted@);
    let elite: usize = population.len() / 10;
    proof {
        lemma_ranked_members(members);
        assert forall|i: int| 0 <= i < order.len() implies {
            &&& is_permutation((#[trigger] order[i]).genes)
            &&& order[i].genes.len() == count
        } by {
            assert(members.contains(order[i]));
            let j = choose|j: int| 0 <= j < members.len() && members[j] == order[i];
            assert(is_permutation(members[j].genes));
        }
        if order.len() > 0 {
            assert(order[0].genes.len() == count);
        }
    }
    let mut next: Vec<Chromosome> = Vec::new();
    let mut i: usize = 0;
    assert(individuals(next@) =~= order.take(0));
    while i < elite
        invariant
            i <= elite <= sorted@.len(),
            order == individuals(sorted@),
            next@.len() == i,
            individuals(next@) == order.take(i as int),
        decreases elite - i,
    {
        let ghost before = next@;
        let kept = sorted[i].duplicate();
        next.push(kept);
        assert(individuals(next@) =~= order.take(i + 1)) by {
            assert(individuals(next@) =~= individuals(before).push(kept@));
        }
        i += 1;
    }
    let ghost bred = children(net, limits, order, plan@);
    let mut k: usize = 0;
    assert(individuals(next@) =~= order.take(elite as int) + bred.take(0));
    while k < plan.len()
        invariant
            k <= plan@.len(),
            net == graph@,
            limits == resource_limits@,
            net.fits(limits.len()),
            order == individuals(sorted@),
            sorted@.len() == population@.len(),
            elite == elite_count(population@.len()),
            population_ok(order, gene_count(order)),
            plan@.len() == population@.len() - elite,
            forall|m: int|
                0 <= m < plan@.len() ==> mating_ok(
                    #[trigger] plan@[m],
                    population@.len(),
                    gene_count(order),
                ),
            bred == children(net, limits, order, plan@),
            next@.len() == elite + k,
            individuals(next@) == order.take(elite as int) + bred.take(k as int),
        decreases plan@.len() - k,
    {
        let ghost before = next@;
        let child = breed(graph, resource_limits, &sorted, &plan[k]);
        next.push(child);
        assert(individuals(next@) =~= order.take(elite as int) + bred.take(k + 1)) by {
            assert(individuals(next@) =~= individuals(before).push(child@));
            assert(bred[k as int] == child@);
        }
        k += 1;
    }
    assert(bred.take(k as int) =~= bred);
    next
}

/// The generation reached from a first one by following one plan after
/// another.
pub open spec fn evolved(
    net: Network,
    limits: Seq<u64>,
    first: Seq<Individual>,
    plans: Seq<Seq<Mating>>,
) -> Seq<Individual>
    decreases plans.len(),
{
    if plans.len() == 0 {
        first
    } else {
        succession(net, limits, evolved(net, limits, first, plans.drop_last()), plans.last())
    }
}

proof fn lemma_earlier_plans_fit(plans: Seq<Seq<Mating>>, size: nat, count: nat)
    requires
        plans.len() > 0,
        forall|g: int| 0 <= g < plans.len() ==> plan_ok(#[trigger] plans[g], size, count),
    ensures
        plan_ok(plans.last(), size, count),
        forall|g: int|
            0 <= g < plans.drop_last().len() ==> plan_ok(
                #[trigger] plans.drop_last()[g],
                size,
                count,
            ),
{
    assert(plan_ok(plans[plans.len() - 1], size, count));
    assert forall|g: int| 0 <= g < plans.drop_last().len() implies plan_ok(
        #[trigger] plans.drop_last()[g],
        size,
        count,
    ) by {
        assert(plans.drop_last()[g] == plans[g]);
    }
}

/// Through a whole run the population keeps its size, every individual
/// stays a permutation of as many genes, and every individual has the
/// fitness that its genes earn.
pub proof fn lemma_evolved_stays_sound(
    net: Network,
    limits: Seq<u64>,
    first: Seq<Individual>,
    plans: Seq<Seq<Mating>>,
    count: nat,
)
    requires
        population_ok(first, count),
        all_assessed(net, limits, first),
        forall|g: int| 0 <= g < plans.len() ==> plan_ok(#[trigger] plans[g], first.len(), count),
    ensures
        evolved(net, limits, first, plans).len() == first.len(),
        population_ok(evolved(net, limits, first, plans), count),
        all_assessed(net, limits, evolved(net, limits, first, plans)),
    decreases plans.len(),
{
    if plans.len() > 0 {
        let earlier = plans.drop_last();
        lemma_earlier_plans_fit(plans, first.len(), count);
        lemma_evolved_stays_sound(net, limits, first, earlier, count);
        let before = evolved(net, limits, first, earlier);
        lemma_succession_keeps_permutations(net, limits, before, plans.last(), count);
        lemma_succession_is_assessed(net, limits, before, plans.last());
    }
}

/// Through a whole run at a crossover rate and a mutation rate of zero, no
/// individual appears that the first generation did not hold.
pub proof fn lemma_evolved_without_change_copies(
    net: Network,
    limits: Seq<u64>,
    first: Seq<Individual>,
    plans: Seq<Seq<Mating>>,
    count: nat,
    crossover_rate: Rate,
    mutation_rate: Rate,
)
    requires
        crossover_rate.numerator == 0,
        mutation_rate.numerator == 0,
        population_ok(first, count),
        all_assessed(net, limits, first),
        forall|g: int| 0 <= g < plans.len() ==> plan_ok(#[trigger] plans[g], first.len(), count),
        forall|g: int|
            0 <= g < plans.len() ==> plan_keeps_rates(
                #[trigger] plans[g],
                crossover_rate,
                mutation_rate,
            ),
    ensures
        forall|i: int|
            0 <= i < evolved(net, limits, first, plans).len() ==> first.contains(
                #[trigger] evolved(net, limits, first, plans)[i],
            ),
    decreases plans.len(),
{
    if plans.len() > 0 {
        let earlier = plans.drop_last();
        let plan = plans.last();
        lemma_earlier_plans_fit(plans, first.len(), count);
        assert forall|g: int| 0 <= g < earlier.len() implies plan_keeps_rates(
            #[trigger] earlier[g],
            crossover_rate,
            mutation_rate,
        ) by {
            assert(earlier[g] == plans[g]);
        }
        lemma_evolved_without_change_copies(
            net,
            limits,
            first,
            earlier,
            count,
            crossover_rate,
            mutation_rate,
        );
        lemma_evolved_stays_sound(net, limits, first, earlier, count);
        let before = evolved(net, limits, first, earlier);
        let after = evolved(net, limits, first, plans);
        assert(plan_keeps_rates(plans[plans.len() - 1], crossover_rate, mutation_rate));
        assert forall|k: int| 0 <= k < plan.len() implies (#[trigger] plan[k]).cuts is None
            && plan[k].swap is None by {
            assert(mating_keeps_rates(plan[k], crossover_rate, mutation_rate));
        }
        lemma_succession_without_change_copies(net, limits, before, plan, count);
        assert forall|i: int| 0 <= i < after.len() implies first.contains(#[trigger] after[i]) by {
            assert(before.contains(after[i]));
            let j = choose|j: int| 0 <= j < before.len() && before[j] == after[i];
            assert(first.contains(before[j]));
        }
    } else {
        assert forall|i: int| 0 <= i < first.len() implies first.contains(#[trigger] first[i]) by {}
    }
}

/// Through a whole run of a population of ten or more, the greatest
/// fitness never falls below that of the first generation.
pub proof fn lemma_evolved_peak_never_falls(
    net: Network,
    limits: Seq<u64>,
    first: Seq<Individual>,
    plans: Seq<Seq<Mating>>,
    count: nat,
)
    requires
        first.len() >= 10,
        population_ok(first, count),
        forall|g: int| 0 <= g < plans.len() ==> plan_ok(#[trigger] plans[g], first.len(), count),
    ensures
        !peak(first).exceeds(peak(evolved(net, limits, first, plans))),
    decreases plans.len(),
{
    if plans.len() > 0 {
        let earlier = plans.drop_last();
        lemma_earlier_plans_fit(plans, first.len(), count);
        lemma_evolved_peak_never_falls(net, limits, first, earlier, count);
        lemma_evolved_sizes(net, limits, first, earlier, count);
        let before = evolved(net, limits, first, earlier);
        lemma_elitism(net, limits, before, plans.last());
        lemma_exceeds_is_strict_total(
            peak(first),
            peak(before),
            peak(evolved(net, limits, first, plans)),
        );
    } else {
        lemma_exceeds_is_strict_total(peak(first), peak(first), peak(first));
    }
}

proof fn lemma_evolved_sizes(
    net: Network,
    limits: Seq<u64>,
    first: Seq<Individual>,
    plans: Seq<Seq<Mating>>,
    count: nat,
)
    requires
        population_ok(first, count),
        forall|g: int| 0 <= g < plans.len() ==> plan_ok(#[trigger] plans[g], first.len(), count),
    ensures
        evolved(net, limits, first, plans).len() == first.len(),
        population_ok(evolved(net, limits, first, plans), count),
    decreases plans.len(),
{
    if plans.len() > 0 {
        let earlier = plans.drop_last();
        lemma_earlier_plans_fit(plans, first.len(), count);
        lemma_evolved_sizes(net, limits, first, earlier, count);
        let before = evolved(net, limits, first, earlier);
        lemma_succession_keeps_permutations(net, limits, before, plans.last(), count);
    }
}

/// Two plans hold the same numbers.
pub open spec fn same_numbers(one: Seq<Mating>, two: Seq<Mating>) -> bool {
    &&& one.len() == two.len()
    &&& forall|k: int|
        0 <= k < one.len() ==> {
            &&& (#[trigger] one[k]).first@ == two[k].first@
            &&& one[k].second@ == two[k].second@
            &&& one[k].cuts == two[k].cuts
            &&& one[k].swap == two[k].swap
        }
}

/// The next generation is determined by the present one and the numbers
/// drawn: two plans that hold the same numbers lead to the same generation.
pub proof fn lemma_same_numbers_same_generation(
    net: Network,
    limits: Seq<u64>,
    population: Seq<Individual>,
    one: Seq<Mating>,
    two: Seq<Mating>,
)
    requires
        same_numbers(one, two),
    ensures
        succession(net, limits, population, one) == succession(net, limits, population, two),
{
    let sorted = ranked(population);
    assert(children(net, limits, sorted, one) =~= children(net, limits, sorted, two)) by {
        assert forall|k: int| 0 <= k < one.len() implies offspring(sorted, one[k]) == offspring(
            sorted,
            two[k],
        ) by {
            assert(one[k].first@ == two[k].first@);
        }
    }
}

/// Two runs from the same first generation, in which the same numbers are
/// drawn, pass through the same population at every generation.
pub proof fn lemma_same_numbers_same_run(
    net: Network,
    limits: Seq<u64>,
    first: Seq<Individual>,
    one: Seq<Seq<Mating>>,
    two: Seq<Seq<Mating>>,
    generation: int,
)
    requires
        one.len() == two.len(),
        forall|g: int| 0 <= g < one.len() ==> same_numbers(#[trigger] one[g], two[g]),
        0 <= generation <= one.len(),
    ensures
        evolved(net, limits, first, one.take(generation)) == evolved(
            net,
            limits,
            first,
            two.take(generation),
        ),
    decreases generation,
{
    if generation > 0 {
        lemma_same_numbers_same_run(net, limits, first, one, two, generation - 1);
        let before = evolved(net, limits, first, one.take(generation - 1));
        assert(one.take(generation).drop_last() =~= one.take(generation - 1));
        assert(two.take(generation).drop_last() =~= two.take(generation - 1));
        assert(one.take(generation).last() == one[generation - 1]);
        assert(two.take(generation).last() == two[generation - 1]);
        lemma_same_numbers_same_generation(
            net,
            limits,
            before,
            one[generation - 1],
            two[generation - 1],
        );
    }
}

/// A first generation and a sequence of plans that a search of the given
/// size, length and rates can have drawn: the first generation holds
/// `population_size` permutations of the intermediate nodes, each with the
/// fitness it earns, and there is a fitting plan for every generation, all
/// of whose matings are such as the rates allow.
pub open spec fn drawn_ok(
    net: Network,
    limits: Seq<u64>,
    first: Seq<Individual>,
    plans: Seq<Seq<Mating>>,
    population_size: usize,
    generations: usize,
    crossover_rate: Rate,
    mutation_rate: Rate,
) -> bool {
    &&& first.len() == population_size
    &&& population_ok(first, (net.num_nodes - 2) as nat)
    &&& all_assessed(net, limits, first)
    &&& plans.len() == generations
    &&& forall|g: int|
        0 <= g < plans.len() ==> plan_ok(
            #[trigger] plans[g],
            population_size as nat,
            (net.num_nodes - 2) as nat,
        )
    &&& forall|g: int|
        0 <= g < plans.len() ==> plan_keeps_rates(#[trigger] plans[g], crossover_rate, mutation_rate)
}

/// Whether a path is the one that decoding the genes gives, and missing
/// where decoding gives none.
pub open spec fn path_of(path: Option<Vec<usize>>, outcome: Option<(Seq<usize>, nat)>) -> bool {
    match (path, outcome) {
        (None, None) => true,
        (Some(found), Some((nodes, _))) => found@ == nodes,
        _ => false,
    }
}

/// Searches for a cheap path from the source to the sink within the
/// resource limits.
///
/// A population of `population_size` random chromosomes is assessed and
/// followed by `generations` further generations. Each keeps the fittest
/// tenth of the one before; the others are children of parents chosen by
/// tournament, crossed with probability `crossover_rate` and mutated with
/// probability `mutation_rate`. The result is the path that the fittest
/// chromosome of the last generation decodes to, and nothing where it
/// decodes to none.
///
/// Whatever numbers are drawn, the result is what the first of the ranked
/// last generation decodes to, for some first generation and some plans that
/// fit. It is therefore what decoding some permutation of the intermediate
/// nodes gives, and a path that is returned leads from the source to the
/// sink over edges of the graph, through no node twice, within the limits
/// after every edge.
pub fn run_search(
    graph: &Graph,
    population_size: usize,
    generations: usize,
    crossover_rate: Rate,
    mutation_rate: Rate,
    resource_limits: &[u64],
    rng: &mut StdRng,
) -> (path: Option<Vec<usize>>)
    requires
        population_size > 0,
        crossover_rate.wf(),
        mutation_rate.wf(),
        graph@.fits(resource_limits@.len()),
    ensures
        exists|first: Seq<Individual>, plans: Seq<Seq<Mating>>|
            {
                &&& drawn_ok(
                    graph@,
                    resource_limits@,
                    first,
                    plans,
                    population_size,
                    generations,
                    crossover_rate,
                    mutation_rate,
                )
                &&& path_of(
                    path,
                    decoded(
                        graph@,
                        ranked(#[trigger] evolved(graph@, resource_limits@, first, plans))[0].genes,
                        resource_limits@,
                    ),
                )
            },
        exists|genes: Seq<usize>|
            {
                &&& is_permutation(genes)
                &&& genes.len() == graph@.num_nodes - 2
                &&& path_of(path, #[trigger] decoded(graph@, genes, resource_limits@))
            },
        match path {
            Some(found) => {
                &&& follows_edges(graph@, found@, graph@.sink())
                &&& found@.no_duplicates()
                &&& path_within_limits(graph@, resource_limits@, found@)
            },
            None => true,
        },
{
    let ghost net = graph@;
    let ghost limits = resource_limits@;
    let num_nodes: usize = graph.num_nodes();
    let count: usize = num_nodes - 2;
    let mut population: Vec<Chromosome> = Vec::new();
    while population.len() < population_size
        invariant
            net == graph@,
            limits == resource_limits@,
            net.fits(limits.len()),
            num_nodes == net.num_nodes,
            num_nodes >= 3,
            count == num_nodes - 2,
            population@.len() <= population_size,
            population_ok(individuals(population@), count as nat),
            all_assessed(net, limits, individuals(population@)),
        decreases population_size - population@.len(),
    {
        let mut chromosome = generate_random_chromosome(num_nodes, rng);
        evaluate(graph, &mut chromosome, resource_limits);
        let ghost before = population@;
        population.push(chromosome);
        assert(individuals(population@) =~= individuals(before).push(chromosome@));
    }
    let ghost first = individuals(population@);
    let ghost mut plans: Seq<Seq<Mating>> = Seq::empty();
    let mut generation: usize = 0;
    while generation < generations
        invariant
            generation <= generations,
            plans.len() == generation,
            forall|g: int|
                0 <= g < plans.len() ==> plan_ok(
                    #[trigger] plans[g],
                    population_size as nat,
                    count as nat,
                ),
            forall|g: int|
                0 <= g < plans.len() ==> plan_keeps_rates(
                    #[trigger] plans[g],
                    crossover_rate,
                    mutation_rate,
                ),
            individuals(population@) == evolved(net, limits, first, plans),
            net == graph@,
            limits == resource_limits@,
            net.fits(limits.len()),
            count > 0,
            population_size > 0,
            crossover_rate.wf(),
            mutation_rate.wf(),
            population@.len() == population_size,
            population_ok(individuals(population@), count as nat),
            all_assessed(net, limits, individuals(population@)),
        decreases generations - generation,
    {
        let plan = draw_plan(rng, population_size, count, crossover_rate, mutation_rate);
        proof {
            let members = individuals(population@);
            assert(members[0].genes.len() == count);
            lemma_succession_keeps_permutations(net, limits, members, plan@, count as nat);
            lemma_succession_is_assessed(net, limits, members, plan@);
        }
        population = next_generation(graph, resource_limits, &population, &plan);
        proof {
            let longer = plans.push(plan@);
            assert(longer.drop_last() =~= plans);
            assert(longer.last() == plan@);
            plans = longer;
        }
        generation += 1;
    }
    let sorted = rank_population(&population);
    proof {
        let members = individuals(population@);
        lemma_ranked_members(members);
        let best = individuals(sorted@)[0];
        assert(best == sorted@[0]@);
        assert(members.contains(best));
        let j = choose|j: int| 0 <= j < members.len() && members[j] == best;
        assert(is_permutation(members[j].genes));
        lemma_decoded_path_follows_edges(net, best.genes, limits);
        lemma_decoded_path_within_limits(net, best.genes, limits);
        assert(drawn_ok(
            net,
            limits,
            first,
            plans,
            population_size,
            generations,
            crossover_rate,
            mutation_rate,
        ));
        assert(best == ranked(evolved(net, limits, first, plans))[0]);
    }
    match decode(graph, &sorted[0], resource_limits) {
        Some((path, _)) => Some(path),
        None => None,
    }
}

} // verus!
