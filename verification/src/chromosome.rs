//! Chromosomes: orderings of the nodes between source and sink.

use crate::fitness::Fitness;
use crate::random::shuffle;
use rand::rngs::StdRng;
use vstd::prelude::*;

verus! {

/// A candidate solution: an ordering of the intermediate nodes, and the
/// fitness that its last evaluation found.
#[derive(Clone, Debug)]
pub struct Chromosome {
    pub genes: Vec<usize>,
    pub fitness: Fitness,
}

/// What a [`Chromosome`] is, as a mathematical value.
pub struct Individual {
    pub genes: Seq<usize>,
    pub fitness: Fitness,
}

impl View for Chromosome {
    type V = Individual;

    open spec fn view(&self) -> Individual {
        Individual { genes: self.genes@, fitness: self.fitness }
    }
}

/// The nodes `1, 2, ..., count` in rising order.
pub open spec fn ascending(count: nat) -> Seq<usize> {
    Seq::new(count, |i: int| (i + 1) as usize)
}

/// The genes name each of the nodes `1 ..= genes.len()` exactly once.
pub open spec fn is_permutation(genes: Seq<usize>) -> bool {
    &&& forall|i: int| 0 <= i < genes.len() ==> 1 <= #[trigger] genes[i] <= genes.len()
    &&& genes.no_duplicates()
}

/// The views of a population, in order.
pub open spec fn individuals(population: Seq<Chromosome>) -> Seq<Individual> {
    population.map_values(|chromosome: Chromosome| chromosome@)
}

proof fn lemma_ascending_is_permutation(count: nat)
    requires
        count < usize::MAX,
    ensures
        is_permutation(ascending(count)),
{
}

/// A sequence that holds the values of `1 ..= count`, each as often as the
/// rising sequence does, is a permutation.
pub proof fn lemma_rearranged_range_is_permutation(genes: Seq<usize>, count: nat)
    requires
        count < usize::MAX,
        genes.to_multiset() == ascending(count).to_multiset(),
    ensures
        genes.len() == count,
        is_permutation(genes),
{
    broadcast use vstd::seq_lib::to_multiset_len;

    let range = ascending(count);
    assert(genes.len() == count) by {
        assert(genes.to_multiset().len() == range.to_multiset().len());
    }
    lemma_ascending_is_permutation(count);
    range.lemma_multiset_has_no_duplicates();
    assert forall|i: int| 0 <= i < genes.len() implies 1 <= #[trigger] genes[i] <= genes.len() by {
        vstd::seq_lib::to_multiset_contains(genes, genes[i]);
        vstd::seq_lib::to_multiset_contains(range, genes[i]);
        assert(genes.contains(genes[i]));
        let j = choose|j: int| 0 <= j < range.len() && range[j] == genes[i];
        assert(range[j] == j + 1);
    }
    genes.lemma_multiset_has_no_duplicates_conv();
}

/// A permutation names every one of the nodes `1 ..= genes.len()`.
pub proof fn lemma_permutation_names_every_node(genes: Seq<usize>)
    requires
        is_permutation(genes),
    ensures
        forall|node: usize| 1 <= node <= genes.len() ==> genes.contains(node),
{
    broadcast use vstd::seq_lib::seq_to_set_is_finite;

    let numbers = genes.map_values(|gene: usize| gene as int);
    let range = vstd::set_lib::set_int_range(1, genes.len() as int + 1);
    vstd::set_lib::lemma_int_range(1, genes.len() as int + 1);
    assert(numbers.no_duplicates()) by {
        assert forall|i: int, j: int|
            0 <= i < numbers.len() && 0 <= j < numbers.len() && i != j implies numbers[i]
            != numbers[j] by {
            assert(genes[i] != genes[j]);
        }
    }
    numbers.unique_seq_to_set();
    assert(numbers.to_set().subset_of(range)) by {
        assert forall|x: int| numbers.to_set().contains(x) implies range.contains(x) by {
            let i = choose|i: int| 0 <= i < numbers.len() && numbers[i] == x;
            assert(numbers[i] == genes[i]);
        }
    }
    vstd::set_lib::lemma_subset_equality(numbers.to_set(), range);
    assert forall|node: usize| 1 <= node <= genes.len() implies genes.contains(node) by {
        assert(range.contains(node as int));
        assert(numbers.to_set().contains(node as int));
        let i = choose|i: int| 0 <= i < numbers.len() && numbers[i] == node as int;
        assert(genes[i] == node);
    }
}

/// A permutation holds exactly the values of `1 ..= genes.len()`: put in
/// rising order it is the sequence `1, 2, ..., genes.len()`.
pub proof fn lemma_permutation_is_rearranged_range(genes: Seq<usize>)
    requires
        genes.len() < usize::MAX,
        is_permutation(genes),
    ensures
        genes.to_multiset() == ascending(genes.len()).to_multiset(),
{
    broadcast use vstd::seq_lib::seq_to_set_is_finite;

    let range = ascending(genes.len());
    lemma_ascending_is_permutation(genes.len());
    genes.unique_seq_to_set();
    range.unique_seq_to_set();
    assert(genes.to_set().subset_of(range.to_set())) by {
        assert forall|x: usize| genes.to_set().contains(x) implies range.to_set().contains(x) by {
            let i = choose|i: int| 0 <= i < genes.len() && genes[i] == x;
            assert(range[x - 1] == x);
        }
    }
    vstd::set_lib::lemma_subset_equality(genes.to_set(), range.to_set());
    genes.lemma_multiset_has_no_duplicates();
    range.lemma_multiset_has_no_duplicates();
    assert forall|x: usize| genes.to_multiset().count(x) == range.to_multiset().count(x) by {
        vstd::seq_lib::to_multiset_contains(genes, x);
        vstd::seq_lib::to_multiset_contains(range, x);
        assert(genes.contains(x) <==> genes.to_set().contains(x));
        assert(range.contains(x) <==> range.to_set().contains(x));
    }
    assert(genes.to_multiset() =~= range.to_multiset());
}

impl Chromosome {
    /// A copy of the chromosome, with the same genes and the same fitness.
    pub fn duplicate(&self) -> (copy: Chromosome)
        ensures
            copy@ == self@,
    {
        let genes = self.genes.clone();
        assert(genes@ =~= self.genes@);
        Chromosome { genes, fitness: self.fitness }
    }
}

/// A chromosome for a graph of `num_nodes` nodes whose genes are the
/// intermediate nodes `1 ..= num_nodes - 2` in random order, not yet
/// evaluated. The graph must have an intermediate node.
pub fn generate_random_chromosome(num_nodes: usize, rng: &mut StdRng) -> (chromosome: Chromosome)
    requires
        num_nodes >= 3,
    ensures
        chromosome.genes@.len() == num_nodes - 2,
        chromosome.genes@.to_multiset() == ascending((num_nodes - 2) as nat).to_multiset(),
        is_permutation(chromosome.genes@),
        chromosome.fitness == Fitness::Zero,
{
    let mut genes: Vec<usize> = Vec::new();
    let mut node: usize = 1;
    while node + 1 < num_nodes
        invariant
            1 <= node < num_nodes,
            genes@ == ascending((node - 1) as nat),
        decreases num_nodes - node,
    {
        genes.push(node);
        assert(genes@ =~= ascending(node as nat));
        node += 1;
    }
    let ghost range = genes@;
    shuffle(&mut genes, rng);
    proof {
        lemma_rearranged_range_is_permutation(genes@, range.len());
    }
    Chromosome { genes, fitness: Fitness::Zero }
}

} // verus!
