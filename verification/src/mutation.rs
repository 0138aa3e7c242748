//! Swap mutation: with some probability, two genes change places.

use crate::chromosome::{is_permutation, Chromosome};
use crate::random::{random_below, random_chance, Rate};
use rand::rngs::StdRng;
use vstd::prelude::*;

verus! {

/// The genes with those at positions `i` and `j` exchanged.
pub open spec fn swapped(genes: Seq<usize>, i: int, j: int) -> Seq<usize> {
    genes.update(i, genes[j]).update(j, genes[i])
}

/// Exchanging two genes of a permutation leaves a permutation.
pub proof fn lemma_swapped_is_permutation(genes: Seq<usize>, i: int, j: int)
    requires
        is_permutation(genes),
        0 <= i < genes.len(),
        0 <= j < genes.len(),
    ensures
        swapped(genes, i, j).len() == genes.len(),
        is_permutation(swapped(genes, i, j)),
{
    let after = swapped(genes, i, j);
    assert forall|a: int, b: int|
        0 <= a < after.len() && 0 <= b < after.len() && a != b implies after[a] != after[b] by {
        let from_a = if a == i {
            j
        } else if a == j {
            i
        } else {
            a
        };
        let from_b = if b == i {
            j
        } else if b == j {
            i
        } else {
            b
        };
        assert(after[a] == genes[from_a]);
        assert(after[b] == genes[from_b]);
        assert(genes[from_a] != genes[from_b]);
    }
}

/// Exchanges the genes at positions `i` and `j`. The fitness stays as it
/// was, though it may no longer be that of the genes.
pub fn swap_genes(chromosome: &mut Chromosome, i: usize, j: usize)
    requires
        i < old(chromosome).genes@.len(),
        j < old(chromosome).genes@.len(),
    ensures
        final(chromosome).genes@ == swapped(old(chromosome).genes@, i as int, j as int),
        final(chromosome).fitness == old(chromosome).fitness,
{
    let at_i: usize = chromosome.genes[i];
    let at_j: usize = chromosome.genes[j];
    chromosome.genes[i] = at_j;
    chromosome.genes[j] = at_i;
}

/// The positions of a swap, where there is one, lie within `count` genes.
pub open spec fn swap_fits(swap: Option<(usize, usize)>, count: nat) -> bool {
    match swap {
        Some((i, j)) => i < count && j < count,
        None => true,
    }
}

/// The genes after a mutation: with two positions, the genes at those
/// positions exchanged; without, the genes as they are.
pub open spec fn mutated(genes: Seq<usize>, swap: Option<(usize, usize)>) -> Seq<usize> {
    match swap {
        Some((i, j)) => swapped(genes, i as int, j as int),
        None => genes,
    }
}

/// A mutation of a permutation is a permutation of as many genes.
pub proof fn lemma_mutated_is_permutation(genes: Seq<usize>, swap: Option<(usize, usize)>)
    requires
        is_permutation(genes),
        swap_fits(swap, genes.len()),
    ensures
        mutated(genes, swap).len() == genes.len(),
        is_permutation(mutated(genes, swap)),
{
    match swap {
        Some((i, j)) => {
            lemma_swapped_is_permutation(genes, i as int, j as int);
        },
        None => {},
    }
}

/// Mutates with the numbers given: exchanges the genes at the two positions
/// where there are two, and leaves the chromosome as it is where there are
/// none. The fitness is not touched.
pub fn mutate_at(chromosome: &mut Chromosome, swap: Option<(usize, usize)>)
    requires
        swap_fits(swap, old(chromosome).genes@.len()),
    ensures
        final(chromosome).genes@ == mutated(old(chromosome).genes@, swap),
        final(chromosome).fitness == old(chromosome).fitness,
{
    match swap {
        Some((i, j)) => {
            swap_genes(chromosome, i, j);
        },
        None => {},
    }
}

/// With probability `mutation_rate`, exchanges the genes at two positions
/// drawn at random, which may be the same position twice; otherwise leaves
/// the chromosome as it is. The fitness is not touched.
///
/// Whatever is drawn, the genes are afterwards what `mutated` gives for some
/// swap that fits: for none at a rate of zero, and for two positions at a
/// rate of one.
pub fn mutate(chromosome: &mut Chromosome, mutation_rate: Rate, rng: &mut StdRng)
    requires
        mutation_rate.wf(),
        old(chromosome).genes@.len() > 0,
    ensures
        final(chromosome).fitness == old(chromosome).fitness,
        exists|swap: Option<(usize, usize)>|
            {
                &&& swap_fits(swap, old(chromosome).genes@.len())
                &&& final(chromosome).genes@ == #[trigger] mutated(old(chromosome).genes@, swap)
                &&& mutation_rate.numerator == 0 ==> swap is None
                &&& mutation_rate.numerator == mutation_rate.denominator ==> swap is Some
            },
        mutation_rate.numerator == 0 ==> final(chromosome).genes@ == old(chromosome).genes@,
        final(chromosome).genes@.len() == old(chromosome).genes@.len(),
        is_permutation(old(chromosome).genes@) ==> is_permutation(final(chromosome).genes@),
{
    let swap: Option<(usize, usize)> = if random_chance(rng, mutation_rate) {
        let count: usize = chromosome.genes.len();
        let i: usize = random_below(rng, count);
        let j: usize = random_below(rng, count);
        Some((i, j))
    } else {
        None
    };
    proof {
        if is_permutation(chromosome.genes@) {
            lemma_mutated_is_permutation(chromosome.genes@, swap);
        }
    }
    mutate_at(chromosome, swap);
}

} // verus!
