//! Tournament selection: of a few individuals drawn at random, the fittest
//! is chosen.

use crate::chromosome::{individuals, Chromosome, Individual};
use crate::fitness::lemma_exceeds_is_strict_total;
use crate::random::random_below;
use rand::rngs::StdRng;
use vstd::prelude::*;

verus! {

/// Every pick is a position in a population of `size` individuals.
pub open spec fn picks_ok(picks: Seq<usize>, size: nat) -> bool {
    &&& picks.len() > 0
    &&& forall|i: int| 0 <= i < picks.len() ==> #[trigger] picks[i] < size
}

/// The position in the population of the winner of a tournament among the
/// picked individuals: the first pick holds its place until a later one is
/// strictly fitter.
pub open spec fn winner(population: Seq<Individual>, picks: Seq<usize>) -> usize
    decreases picks.len(),
{
    if picks.len() <= 1 {
        picks[0]
    } else {
        let best = winner(population, picks.drop_last());
        if population[picks.last() as int].fitness.exceeds(population[best as int].fitness) {
            picks.last()
        } else {
            best
        }
    }
}

/// The winner of a tournament is one of the picks, and no pick is fitter.
pub proof fn lemma_winner_is_fittest(population: Seq<Individual>, picks: Seq<usize>)
    requires
        picks_ok(picks, population.len()),
    ensures
        picks.contains(winner(population, picks)),
        winner(population, picks) < population.len(),
        forall|i: int|
            0 <= i < picks.len() ==> !population[#[trigger] picks[i] as int].fitness.exceeds(
                population[winner(population, picks) as int].fitness,
            ),
    decreases picks.len(),
{
    if picks.len() <= 1 {
        assert(picks[0] == winner(population, picks));
    } else {
        let earlier = picks.drop_last();
        lemma_winner_is_fittest(population, earlier);
        let best = winner(population, earlier);
        let at = choose|at: int| 0 <= at < earlier.len() && earlier[at] == best;
        assert(picks[at] == best);
        assert(picks[picks.len() - 1] == picks.last());
        assert forall|i: int| 0 <= i < picks.len() implies !population[#[trigger] picks[i] as int].fitness.exceeds(
            population[winner(population, picks) as int].fitness,
        ) by {
            if i < earlier.len() {
                assert(earlier[i] == picks[i]);
                assert(!population[earlier[i] as int].fitness.exceeds(population[best as int].fitness));
            }
        }
    }
}

/// Ties keep the earliest entrant: the winner of a tournament stands at some
/// place among the picks before which every pick is strictly less fit.
pub proof fn lemma_winner_is_earliest_of_fittest(population: Seq<Individual>, picks: Seq<usize>)
    requires
        picks_ok(picks, population.len()),
    ensures
        exists|place: int|
            {
                &&& 0 <= place < picks.len()
                &&& #[trigger] picks[place] == winner(population, picks)
                &&& forall|i: int|
                    0 <= i < place ==> population[winner(population, picks) as int].fitness.exceeds(
                        population[#[trigger] picks[i] as int].fitness,
                    )
            },
    decreases picks.len(),
{
    if picks.len() <= 1 {
        assert(picks[0] == winner(population, picks));
    } else {
        let earlier = picks.drop_last();
        lemma_winner_is_earliest_of_fittest(population, earlier);
        lemma_winner_is_fittest(population, earlier);
        let best = winner(population, earlier);
        let held = choose|place: int|
            {
                &&& 0 <= place < earlier.len()
                &&& #[trigger] earlier[place] == best
                &&& forall|i: int|
                    0 <= i < place ==> population[best as int].fitness.exceeds(
                        population[#[trigger] earlier[i] as int].fitness,
                    )
            };
        let last = picks.last();
        if population[last as int].fitness.exceeds(population[best as int].fitness) {
            let place = picks.len() - 1;
            assert(picks[place] == winner(population, picks));
            assert forall|i: int| 0 <= i < place implies population[last as int].fitness.exceeds(
                population[#[trigger] picks[i] as int].fitness,
            ) by {
                assert(earlier[i] == picks[i]);
                assert(!population[earlier[i] as int].fitness.exceeds(
                    population[best as int].fitness,
                ));
                lemma_exceeds_is_strict_total(
                    population[last as int].fitness,
                    population[picks[i] as int].fitness,
                    population[best as int].fitness,
                );
            }
        } else {
            assert(picks[held] == winner(population, picks)) by {
                assert(earlier[held] == picks[held]);
            }
            assert forall|i: int| 0 <= i < held implies population[best as int].fitness.exceeds(
                population[#[trigger] picks[i] as int].fitness,
            ) by {
                assert(earlier[i] == picks[i]);
            }
        }
    }
}

/// The position of the winner of a tournament among the picked individuals.
pub fn tournament_winner(population: &Vec<Chromosome>, picks: &Vec<usize>) -> (best: usize)
    requires
        picks_ok(picks@, population@.len()),
    ensures
        best == winner(individuals(population@), picks@),
        best < population@.len(),
{
    let ghost members = individuals(population@);
    let mut best: usize = picks[0];
    let mut i: usize = 1;
    assert(picks@.take(1).len() == 1);
    assert(picks@.take(1)[0] == picks@[0]);
    while i < picks.len()
        invariant
            1 <= i <= picks@.len(),
            picks_ok(picks@, population@.len()),
            members == individuals(population@),
            best < population@.len(),
            best == winner(members, picks@.take(i as int)),
        decreases picks@.len() - i,
    {
        proof {
            let upto = picks@.take(i + 1);
            assert(upto.drop_last() =~= picks@.take(i as int));
            assert(upto.last() == picks@[i as int]);
        }
        let challenger: usize = picks[i];
        if population[challenger].fitness.is_above(&population[best].fitness) {
            best = challenger;
        }
        i += 1;
    }
    assert(picks@.take(i as int) =~= picks@);
    best
}

/// Draws the entrants of one tournament: `tournament_size` positions in a
/// population of `size`, and one position where `tournament_size` is zero.
pub fn draw_picks(rng: &mut StdRng, size: usize, tournament_size: usize) -> (picks: Vec<usize>)
    requires
        size > 0,
    ensures
        picks_ok(picks@, size as nat),
        picks@.len() == if tournament_size == 0 {
            1
        } else {
            tournament_size as int
        },
{
    let mut picks: Vec<usize> = Vec::new();
    picks.push(random_below(rng, size));
    let mut i: usize = 1;
    while i < tournament_size
        invariant
            size > 0,
            1 <= i,
            i <= tournament_size || (tournament_size == 0 && i == 1),
            picks@.len() == i,
            forall|k: int| 0 <= k < picks@.len() ==> #[trigger] picks@[k] < size,
        decreases tournament_size - i,
    {
        picks.push(random_below(rng, size));
        i += 1;
    }
    picks
}

/// A copy of the winner of a tournament among `tournament_size` individuals
/// drawn at random from the population, the same one possibly more than
/// once.
pub fn tournament_selection(population: &Vec<Chromosome>, tournament_size: usize, rng: &mut StdRng) -> (chosen:
    Chromosome)
    requires
        population@.len() > 0,
    ensures
        exists|picks: Seq<usize>|
            {
                &&& picks_ok(picks, population@.len())
                &&& picks.len() == if tournament_size == 0 {
                    1
                } else {
                    tournament_size as int
                }
                &&& chosen@ == individuals(population@)[#[trigger] winner(
                    individuals(population@),
                    picks,
                ) as int]
            },
        exists|i: int| 0 <= i < population@.len() && chosen@ == #[trigger] population@[i]@,
{
    let picks = draw_picks(rng, population.len(), tournament_size);
    let best: usize = tournament_winner(population, &picks);
    let chosen = population[best].duplicate();
    assert(individuals(population@)[best as int] == population@[best as int]@);
    chosen
}

} // verus!
