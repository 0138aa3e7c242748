//! Ranking a population: the fittest first, equals in the order they had.

use crate::chromosome::{individuals, Chromosome, Individual};
use crate::fitness::{lemma_exceeds_is_strict_total, Fitness};
use vstd::prelude::*;

verus! {

/// Where an individual of the given fitness goes into a ranked sequence:
/// before the first individual that it is strictly fitter than, and at the
/// end when there is none.
pub open spec fn slot(sorted: Seq<Individual>, fitness: Fitness) -> int
    decreases sorted.len(),
{
    if sorted.len() == 0 || fitness.exceeds(sorted[0].fitness) {
        0
    } else {
        1 + slot(sorted.drop_first(), fitness)
    }
}

/// The population in descending order of fitness. Individuals of equal
/// fitness keep the order they had.
pub open spec fn ranked(population: Seq<Individual>) -> Seq<Individual>
    decreases population.len(),
{
    if population.len() == 0 {
        Seq::empty()
    } else {
        let sorted = ranked(population.drop_last());
        sorted.insert(slot(sorted, population.last().fitness), population.last())
    }
}

/// No individual is fitter than one that stands before it.
pub open spec fn descending(population: Seq<Individual>) -> bool {
    forall|i: int, j: int|
        0 <= i < j < population.len() ==> !(#[trigger] population[j]).fitness.exceeds(
            (#[trigger] population[i]).fitness,
        )
}

/// The greatest fitness in the population, and zero in an empty one.
pub open spec fn peak(population: Seq<Individual>) -> Fitness
    decreases population.len(),
{
    if population.len() == 0 {
        Fitness::Zero
    } else {
        let before = peak(population.drop_last());
        if population.last().fitness.exceeds(before) {
            population.last().fitness
        } else {
            before
        }
    }
}

proof fn lemma_slot(sorted: Seq<Individual>, fitness: Fitness)
    ensures
        0 <= slot(sorted, fitness) <= sorted.len(),
        forall|k: int|
            0 <= k < slot(sorted, fitness) ==> !fitness.exceeds((#[trigger] sorted[k]).fitness),
        slot(sorted, fitness) < sorted.len() ==> fitness.exceeds(
            sorted[slot(sorted, fitness)].fitness,
        ),
    decreases sorted.len(),
{
    if !(sorted.len() == 0 || fitness.exceeds(sorted[0].fitness)) {
        let tail = sorted.drop_first();
        lemma_slot(tail, fitness);
        assert forall|k: int| 0 <= k < slot(sorted, fitness) implies !fitness.exceeds(
            (#[trigger] sorted[k]).fitness,
        ) by {
            if k > 0 {
                assert(sorted[k] == tail[k - 1]);
            }
        }
        if slot(sorted, fitness) < sorted.len() {
            assert(sorted[slot(sorted, fitness)] == tail[slot(tail, fitness)]);
        }
    }
}

/// Ranking rearranges: the ranked population holds the same individuals,
/// each as often as before.
pub proof fn lemma_ranked_rearranges(population: Seq<Individual>)
    ensures
        ranked(population).len() == population.len(),
        ranked(population).to_multiset() == population.to_multiset(),
    decreases population.len(),
{
    if population.len() == 0 {
        assert(population =~= Seq::empty());
    } else {
        let shorter = population.drop_last();
        let last = population.last();
        let sorted = ranked(shorter);
        lemma_ranked_rearranges(shorter);
        lemma_slot(sorted, last.fitness);
        vstd::seq_lib::to_multiset_insert(sorted, slot(sorted, last.fitness), last);
        vstd::seq_lib::to_multiset_build(shorter, last);
        assert(shorter.push(last) =~= population);
    }
}

/// The ranked population is in descending order of fitness.
pub proof fn lemma_ranked_descends(population: Seq<Individual>)
    ensures
        descending(ranked(population)),
    decreases population.len(),
{
    if population.len() > 0 {
        let shorter = population.drop_last();
        let last = population.last();
        let sorted = ranked(shorter);
        let at = slot(sorted, last.fitness);
        let after = ranked(population);
        lemma_ranked_descends(shorter);
        lemma_ranked_rearranges(shorter);
        lemma_slot(sorted, last.fitness);
        assert forall|i: int, j: int| 0 <= i < j < after.len() implies !(#[trigger] after[j]).fitness.exceeds(
            (#[trigger] after[i]).fitness,
        ) by {
            let from_i = if i < at {
                i
            } else {
                i - 1
            };
            let from_j = if j < at {
                j
            } else {
                j - 1
            };
            if i == at {
                assert(after[j] == sorted[j - 1]);
                assert(!sorted[j - 1].fitness.exceeds(sorted[at].fitness)) by {
                    if j - 1 > at {
                        assert(!sorted[j - 1].fitness.exceeds(sorted[at].fitness));
                    } else {
                        lemma_exceeds_is_strict_total(
                            sorted[at].fitness,
                            sorted[at].fitness,
                            sorted[at].fitness,
                        );
                    }
                }
                lemma_exceeds_is_strict_total(
                    last.fitness,
                    sorted[at].fitness,
                    sorted[j - 1].fitness,
                );
                lemma_exceeds_is_strict_total(
                    sorted[j - 1].fitness,
                    last.fitness,
                    sorted[at].fitness,
                );
            } else if j == at {
                assert(after[i] == sorted[i]);
            } else {
                assert(after[i] == sorted[from_i]);
                assert(after[j] == sorted[from_j]);
            }
        }
    }
}

/// For every place in the ranked population, the place that its individual
/// had before.
pub open spec fn origins(population: Seq<Individual>) -> Seq<int>
    decreases population.len(),
{
    if population.len() == 0 {
        Seq::empty()
    } else {
        let shorter = population.drop_last();
        origins(shorter).insert(
            slot(ranked(shorter), population.last().fitness),
            population.len() - 1,
        )
    }
}

/// Ranking is stable: every individual comes from a place of its own, and
/// of two individuals of equal fitness the one that stood first stands
/// first.
pub proof fn lemma_ranked_is_stable(population: Seq<Individual>)
    ensures
        origins(population).len() == population.len(),
        ranked(population).len() == population.len(),
        forall|i: int|
            0 <= i < population.len() ==> {
                &&& 0 <= #[trigger] origins(population)[i] < population.len()
                &&& ranked(population)[i] == population[origins(population)[i]]
            },
        forall|i: int, j: int|
            0 <= i < j < population.len() ==> #[trigger] origins(population)[i]
                != #[trigger] origins(population)[j],
        forall|i: int, j: int|
            0 <= i < j < population.len() && ranked(population)[i].fitness == ranked(
                population,
            )[j].fitness ==> #[trigger] origins(population)[i] < #[trigger] origins(
                population,
            )[j],
    decreases population.len(),
{
    if population.len() > 0 {
        let shorter = population.drop_last();
        let last = population.last();
        let sorted = ranked(shorter);
        let from = origins(shorter);
        let at = slot(sorted, last.fitness);
        let after = ranked(population);
        let places = origins(population);
        let newest = population.len() - 1;
        lemma_ranked_is_stable(shorter);
        lemma_ranked_descends(shorter);
        lemma_slot(sorted, last.fitness);
        assert forall|i: int| 0 <= i < population.len() implies {
            &&& 0 <= #[trigger] places[i] < population.len()
            &&& after[i] == population[places[i]]
        } by {
            if i < at {
                assert(places[i] == from[i]);
                assert(after[i] == sorted[i]);
                assert(shorter[from[i]] == population[from[i]]);
            } else if i > at {
                assert(places[i] == from[i - 1]);
                assert(after[i] == sorted[i - 1]);
                assert(shorter[from[i - 1]] == population[from[i - 1]]);
            }
        }
        assert forall|i: int, j: int| 0 <= i < j < population.len() implies #[trigger] places[i]
            != #[trigger] places[j] by {
            let before_i = if i < at {
                i
            } else {
                i - 1
            };
            let before_j = if j < at {
                j
            } else {
                j - 1
            };
            if i != at && j != at {
                assert(places[i] == from[before_i]);
                assert(places[j] == from[before_j]);
            } else if i == at {
                assert(places[j] == from[before_j]);
            } else {
                assert(places[i] == from[before_i]);
            }
        }
        assert forall|i: int, j: int|
            0 <= i < j < population.len() && after[i].fitness
                == after[j].fitness implies #[trigger] places[i] < #[trigger] places[j] by {
            let before_i = if i < at {
                i
            } else {
                i - 1
            };
            let before_j = if j < at {
                j
            } else {
                j - 1
            };
            if i != at && j != at {
                assert(places[i] == from[before_i]);
                assert(places[j] == from[before_j]);
                assert(after[i] == sorted[before_i]);
                assert(after[j] == sorted[before_j]);
            } else if i == at {
                assert(after[j] == sorted[j - 1]);
                if j - 1 > at {
                    assert(!sorted[j - 1].fitness.exceeds(sorted[at].fitness));
                }
                lemma_exceeds_is_strict_total(
                    last.fitness,
                    sorted[at].fitness,
                    sorted[j - 1].fitness,
                );
                lemma_exceeds_is_strict_total(
                    sorted[j - 1].fitness,
                    sorted[at].fitness,
                    last.fitness,
                );
            } else {
                assert(places[i] == from[before_i]);
            }
        }
    }
}

/// No individual is fitter than the peak, and in a population that is not
/// empty some individual has the fitness of the peak.
pub proof fn lemma_peak(population: Seq<Individual>)
    ensures
        forall|i: int|
            0 <= i < population.len() ==> !(#[trigger] population[i]).fitness.exceeds(
                peak(population),
            ),
        population.len() > 0 ==> exists|i: int|
            0 <= i < population.len() && (#[trigger] population[i]).fitness == peak(population),
    decreases population.len(),
{
    if population.len() > 0 {
        let shorter = population.drop_last();
        let last = population.last();
        lemma_peak(shorter);
        let before = peak(shorter);
        assert forall|i: int| 0 <= i < population.len() implies !(#[trigger] population[i]).fitness.exceeds(
        peak(population)) by {
            if i < shorter.len() {
                assert(population[i] == shorter[i]);
                lemma_exceeds_is_strict_total(population[i].fitness, last.fitness, before);
                lemma_exceeds_is_strict_total(last.fitness, before, population[i].fitness);
            } else {
                lemma_exceeds_is_strict_total(last.fitness, last.fitness, before);
            }
        }
        if last.fitness.exceeds(before) || shorter.len() == 0 {
            if !last.fitness.exceeds(before) {
                assert(before == Fitness::Zero);
                assert(last.fitness == Fitness::Zero);
            }
            assert(population[population.len() - 1].fitness == peak(population));
        } else {
            let i = choose|i: int| 0 <= i < shorter.len() && (#[trigger] shorter[i]).fitness == before;
            assert(population[i] == shorter[i]);
        }
    }
}

/// The first of a ranked population has the fitness of the peak.
pub proof fn lemma_ranked_starts_at_peak(population: Seq<Individual>)
    requires
        population.len() > 0,
    ensures
        ranked(population).len() == population.len(),
        ranked(population)[0].fitness == peak(population),
{
    let sorted = ranked(population);
    lemma_ranked_rearranges(population);
    lemma_ranked_descends(population);
    lemma_peak(population);
    let top = choose|i: int|
        0 <= i < population.len() && (#[trigger] population[i]).fitness == peak(population);
    vstd::seq_lib::to_multiset_contains(population, population[top]);
    vstd::seq_lib::to_multiset_contains(sorted, population[top]);
    assert(population.contains(population[top]));
    let at = choose|at: int| 0 <= at < sorted.len() && sorted[at] == population[top];
    vstd::seq_lib::to_multiset_contains(population, sorted[0]);
    vstd::seq_lib::to_multiset_contains(sorted, sorted[0]);
    assert(sorted.contains(sorted[0]));
    let back = choose|back: int| 0 <= back < population.len() && population[back] == sorted[0];
    assert(!population[back].fitness.exceeds(peak(population)));
    if at > 0 {
        assert(!sorted[at].fitness.exceeds(sorted[0].fitness));
    }
    lemma_exceeds_is_strict_total(sorted[0].fitness, peak(population), sorted[0].fitness);
}

/// Where a chromosome of the given fitness goes into a ranked population.
fn slot_for(sorted: &Vec<Chromosome>, fitness: &Fitness) -> (at: usize)
    ensures
        at == slot(individuals(sorted@), *fitness),
        at <= sorted@.len(),
{
    let ghost all = individuals(sorted@);
    let mut at: usize = 0;
    assert(all.skip(0) =~= all);
    while at < sorted.len() && !fitness.is_above(&sorted[at].fitness)
        invariant
            at <= sorted@.len(),
            all == individuals(sorted@),
            slot(all, *fitness) == at + slot(all.skip(at as int), *fitness),
        decreases sorted@.len() - at,
    {
        proof {
            let tail = all.skip(at as int);
            assert(tail[0] == sorted@[at as int]@);
            assert(tail.drop_first() =~= all.skip(at + 1));
        }
        at += 1;
    }
    proof {
        let tail = all.skip(at as int);
        if at < sorted@.len() {
            assert(tail[0] == sorted@[at as int]@);
        }
    }
    at
}

/// A copy of the population in descending order of fitness, equals in the
/// order they had.
pub fn rank_population(population: &Vec<Chromosome>) -> (sorted: Vec<Chromosome>)
    ensures
        individuals(sorted@) == ranked(individuals(population@)),
        sorted@.len() == population@.len(),
{
    let ghost all = individuals(population@);
    let mut sorted: Vec<Chromosome> = Vec::new();
    let mut i: usize = 0;
    assert(individuals(sorted@) =~= ranked(all.take(0)));
    while i < population.len()
        invariant
            i <= population@.len(),
            all == individuals(population@),
            sorted@.len() == i,
            individuals(sorted@) == ranked(all.take(i as int)),
        decreases population@.len() - i,
    {
        let chromosome = population[i].duplicate();
        let at: usize = slot_for(&sorted, &chromosome.fitness);
        let ghost before = sorted@;
        sorted.insert(at, chromosome);
        proof {
            let upto = all.take(i + 1);
            assert(upto.drop_last() =~= all.take(i as int));
            assert(upto.last() == chromosome@);
            assert(individuals(sorted@) =~= individuals(before).insert(at as int, chromosome@));
        }
        i += 1;
    }
    assert(all.take(i as int) =~= all);
    sorted
}

} // verus!
