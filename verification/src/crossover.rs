//! Order crossover: a child takes a segment of one parent as it stands, and
//! the remaining genes in the order in which the other parent holds them.

use crate::chromosome::{is_permutation, lemma_permutation_names_every_node, Chromosome};
use crate::fitness::Fitness;
use crate::random::random_below;
use rand::rngs::StdRng;
use vstd::prelude::*;

verus! {

/// The segment `start ..= end` of `first` holds the gene.
pub open spec fn taken(first: Seq<usize>, start: int, end: int, gene: usize) -> bool {
    exists|i: int| start <= i <= end && #[trigger] first[i] == gene
}

/// The genes of `second` that the segment `start ..= end` of `first` does not
/// hold, in the order of `second`.
pub open spec fn leftover(first: Seq<usize>, second: Seq<usize>, start: int, end: int) -> Seq<usize>
    decreases second.len(),
{
    if second.len() == 0 {
        Seq::empty()
    } else {
        let earlier = leftover(first, second.drop_last(), start, end);
        if taken(first, start, end, second.last()) {
            earlier
        } else {
            earlier.push(second.last())
        }
    }
}

/// The child of two parents for the cut points `point1` and `point2`. Between
/// the smaller and the greater of the two points, both counted in, it has
/// the genes of `first` at their positions. The positions after the greater
/// point, and after those the positions before the smaller, are filled in
/// turn with the genes of `second` that the segment does not hold.
pub open spec fn crossed(first: Seq<usize>, second: Seq<usize>, point1: int, point2: int) -> Seq<
    usize,
> {
    let start = if point1 < point2 {
        point1
    } else {
        point2
    };
    let end = if point1 < point2 {
        point2
    } else {
        point1
    };
    let rest = leftover(first, second, start, end);
    Seq::new(
        first.len(),
        |i: int|
            if start <= i <= end {
                first[i]
            } else if i > end {
                rest[i - end - 1]
            } else {
                rest[i + first.len() - end - 1]
            },
    )
}

proof fn lemma_leftover_members(first: Seq<usize>, second: Seq<usize>, start: int, end: int)
    requires
        second.no_duplicates(),
    ensures
        leftover(first, second, start, end).no_duplicates(),
        forall|gene: usize| #[trigger]
            leftover(first, second, start, end).contains(gene) <==> second.contains(gene)
                && !taken(first, start, end, gene),
    decreases second.len(),
{
    let rest = leftover(first, second, start, end);
    if second.len() > 0 {
        let shorter = second.drop_last();
        let earlier = leftover(first, shorter, start, end);
        lemma_leftover_members(first, shorter, start, end);
        let last = second.last();
        assert(!shorter.contains(last)) by {
            if shorter.contains(last) {
                let i = choose|i: int| 0 <= i < shorter.len() && shorter[i] == last;
                assert(second[i] == second[second.len() - 1]);
            }
        }
        assert forall|gene: usize| second.contains(gene) <==> shorter.contains(gene) || gene
            == last by {
            if second.contains(gene) {
                let i = choose|i: int| 0 <= i < second.len() && second[i] == gene;
                if i < shorter.len() {
                    assert(shorter[i] == gene);
                }
            }
            if shorter.contains(gene) {
                let i = choose|i: int| 0 <= i < shorter.len() && shorter[i] == gene;
                assert(second[i] == gene);
            }
            if gene == last {
                assert(second[second.len() - 1] == gene);
            }
        }
        if taken(first, start, end, last) {
            assert(rest == earlier);
        } else {
            assert(rest == earlier.push(last));
            assert forall|gene: usize| #[trigger]
                rest.contains(gene) <==> earlier.contains(gene) || gene == last by {
                if rest.contains(gene) {
                    let i = choose|i: int| 0 <= i < rest.len() && rest[i] == gene;
                    if i < earlier.len() {
                        assert(earlier[i] == gene);
                    }
                }
                if earlier.contains(gene) {
                    let i = choose|i: int| 0 <= i < earlier.len() && earlier[i] == gene;
                    assert(rest[i] == gene);
                }
                if gene == last {
                    assert(rest[rest.len() - 1] == gene);
                }
            }
            assert forall|i: int, j: int|
                0 <= i < rest.len() && 0 <= j < rest.len() && i != j implies rest[i]
                != rest[j] by {
                if i < earlier.len() && j < earlier.len() {
                    assert(earlier[i] != earlier[j]);
                } else if i < earlier.len() {
                    assert(earlier.contains(earlier[i]));
                } else {
                    assert(earlier.contains(earlier[j]));
                }
            }
        }
    }
}

proof fn lemma_leftover_prefix(
    first: Seq<usize>,
    second: Seq<usize>,
    start: int,
    end: int,
    upto: int,
)
    requires
        0 <= upto <= second.len(),
    ensures
        leftover(first, second.take(upto), start, end).len() <= leftover(
            first,
            second,
            start,
            end,
        ).len(),
        forall|k: int|
            0 <= k < leftover(first, second.take(upto), start, end).len() ==> leftover(
                first,
                second.take(upto),
                start,
                end,
            )[k] == #[trigger] leftover(first, second, start, end)[k],
    decreases second.len() - upto,
{
    if upto == second.len() {
        assert(second.take(upto) =~= second);
    } else {
        lemma_leftover_prefix(first, second, start, end, upto + 1);
        assert(second.take(upto + 1).drop_last() =~= second.take(upto));
    }
}

proof fn lemma_leftover_count(first: Seq<usize>, second: Seq<usize>, start: int, end: int)
    requires
        is_permutation(first),
        is_permutation(second),
        first.len() == second.len(),
        0 <= start <= end < first.len(),
    ensures
        leftover(first, second, start, end).len() == first.len() - (end - start + 1),
{
    broadcast use vstd::seq_lib::seq_to_set_is_finite;

    let rest = leftover(first, second, start, end);
    let segment = first.subrange(start, end + 1);
    lemma_leftover_members(first, second, start, end);
    lemma_permutation_names_every_node(second);
    assert(segment.no_duplicates()) by {
        assert forall|i: int, j: int|
            0 <= i < segment.len() && 0 <= j < segment.len() && i != j implies segment[i]
            != segment[j] by {
            assert(first[start + i] != first[start + j]);
        }
    }
    assert forall|gene: usize| segment.contains(gene) <==> taken(first, start, end, gene) by {
        if segment.contains(gene) {
            let i = choose|i: int| 0 <= i < segment.len() && segment[i] == gene;
            assert(first[start + i] == gene);
        }
        if taken(first, start, end, gene) {
            let i = choose|i: int| start <= i <= end && first[i] == gene;
            assert(segment[i - start] == gene);
        }
    }
    assert(segment.to_set().subset_of(second.to_set())) by {
        assert forall|gene: usize| segment.to_set().contains(gene) implies second.to_set().contains(
            gene,
        ) by {
            let i = choose|i: int| 0 <= i < segment.len() && segment[i] == gene;
            assert(first[start + i] == gene);
        }
    }
    assert(rest.to_set() =~= second.to_set().difference(segment.to_set()));
    assert(second.to_set().intersect(segment.to_set()) =~= segment.to_set());
    vstd::set_lib::lemma_set_difference_len(second.to_set(), segment.to_set());
    rest.unique_seq_to_set();
    second.unique_seq_to_set();
    segment.unique_seq_to_set();
}

/// The child of two permutations of the same nodes is a permutation of those
/// nodes: no slot stays empty, and no gene comes twice.
pub proof fn lemma_crossed_is_permutation(
    first: Seq<usize>,
    second: Seq<usize>,
    point1: int,
    point2: int,
)
    requires
        is_permutation(first),
        is_permutation(second),
        first.len() == second.len(),
        0 <= point1 < first.len(),
        0 <= point2 < first.len(),
    ensures
        crossed(first, second, point1, point2).len() == first.len(),
        is_permutation(crossed(first, second, point1, point2)),
{
    let start = if point1 < point2 {
        point1
    } else {
        point2
    };
    let end = if point1 < point2 {
        point2
    } else {
        point1
    };
    let rest = leftover(first, second, start, end);
    let child = crossed(first, second, point1, point2);
    let count = first.len();
    lemma_leftover_members(first, second, start, end);
    lemma_leftover_count(first, second, start, end);
    assert forall|i: int| 0 <= i < child.len() implies 1 <= #[trigger] child[i] <= child.len() by {
        if !(start <= i <= end) {
            let k = if i > end {
                i - end - 1
            } else {
                i + count - end - 1
            };
            assert(rest.contains(rest[k]));
            let at = choose|at: int| 0 <= at < second.len() && second[at] == rest[k];
        }
    }
    assert forall|i: int, j: int|
        0 <= i < child.len() && 0 <= j < child.len() && i != j implies child[i] != child[j] by {
        let inside_i = start <= i <= end;
        let inside_j = start <= j <= end;
        let k = if i > end {
            i - end - 1
        } else {
            i + count - end - 1
        };
        let l = if j > end {
            j - end - 1
        } else {
            j + count - end - 1
        };
        if inside_i && inside_j {
            assert(first[i] != first[j]);
        } else if inside_i {
            assert(rest.contains(rest[l]));
            assert(!taken(first, start, end, rest[l]));
        } else if inside_j {
            assert(rest.contains(rest[k]));
            assert(!taken(first, start, end, rest[k]));
        } else {
            assert(rest[k] != rest[l]);
        }
    }
}

/// The position that the filler number `k` goes to: the positions after
/// `end` in turn, and after the last position the first.
spec fn filler_slot(count: int, end: int, k: int) -> int {
    if end + 1 + k < count {
        end + 1 + k
    } else {
        end + 1 + k - count
    }
}

/// The child of two parents for given cut points, not yet evaluated.
///
/// Both parents must be permutations of the same nodes; the child is one
/// too.
pub fn crossover_at(parent1: &Chromosome, parent2: &Chromosome, point1: usize, point2: usize) -> (child:
    Chromosome)
    requires
        is_permutation(parent1.genes@),
        is_permutation(parent2.genes@),
        parent1.genes@.len() == parent2.genes@.len(),
        point1 < parent1.genes@.len(),
        point2 < parent1.genes@.len(),
    ensures
        child.genes@ == crossed(parent1.genes@, parent2.genes@, point1 as int, point2 as int),
        child.fitness == Fitness::Zero,
        child.genes@.len() == parent1.genes@.len(),
        is_permutation(child.genes@),
{
    let count: usize = parent1.genes.len();
    let start: usize = if point1 < point2 {
        point1
    } else {
        point2
    };
    let end: usize = if point1 < point2 {
        point2
    } else {
        point1
    };
    let ghost first = parent1.genes@;
    let ghost second = parent2.genes@;
    let ghost rest = leftover(first, second, start as int, end as int);
    let mut genes: Vec<usize> = Vec::new();
    let mut used: Vec<bool> = Vec::new();
    let mut i: usize = 0;
    while i < count
        invariant
            i <= count,
            genes@.len() == i,
            used@.len() == i,
            forall|g: int| 0 <= g < i ==> !#[trigger] used@[g],
        decreases count - i,
    {
        genes.push(0);
        used.push(false);
        i += 1;
    }
    let mut i: usize = start;
    while i <= end
        invariant
            start <= i <= end + 1,
            end < count,
            count == first.len(),
            first == parent1.genes@,
            is_permutation(first),
            genes@.len() == count,
            used@.len() == count,
            forall|t: int| start <= t < i ==> #[trigger] genes@[t] == first[t],
            forall|gene: usize|
                1 <= gene <= count ==> (#[trigger] used@[gene - 1] <==> taken(
                    first,
                    start as int,
                    i - 1,
                    gene,
                )),
        decreases end + 1 - i,
    {
        let gene: usize = parent1.genes[i];
        genes[i] = gene;
        used[gene - 1] = true;
        proof {
            assert forall|other: usize| 1 <= other <= count implies (#[trigger] used@[other - 1]
                <==> taken(first, start as int, i as int, other)) by {
                if other == gene {
                    assert(first[i as int] == gene);
                } else {
                    if taken(first, start as int, i - 1, other) {
                        let t = choose|t: int| start <= t <= i - 1 && first[t] == other;
                        assert(first[t] == other);
                    }
                    if taken(first, start as int, i as int, other) {
                        let t = choose|t: int| start <= t <= i && first[t] == other;
                        assert(first[t] == other);
                    }
                }
            }
        }
        i += 1;
    }
    proof {
        lemma_leftover_count(first, second, start as int, end as int);
        lemma_leftover_prefix(first, second, start as int, end as int, 0);
        assert(second.take(0).len() == 0);
    }
    let mut slot: usize = if end + 1 == count {
        0
    } else {
        end + 1
    };
    let mut from: usize = 0;
    let mut full: bool = false;
    let ghost mut placed: int = 0;
    while from < count && !full
        invariant
            from <= count,
            start <= end < count,
            count == first.len(),
            count == second.len(),
            first == parent1.genes@,
            second == parent2.genes@,
            is_permutation(first),
            is_permutation(second),
            rest == leftover(first, second, start as int, end as int),
            rest.len() == count - (end - start + 1),
            genes@.len() == count,
            used@.len() == count,
            forall|t: int| start <= t <= end ==> #[trigger] genes@[t] == first[t],
            forall|gene: usize|
                1 <= gene <= count ==> (#[trigger] used@[gene - 1] <==> taken(
                    first,
                    start as int,
                    end as int,
                    gene,
                )),
            0 <= placed <= rest.len(),
            placed == leftover(first, second.take(from as int), start as int, end as int).len(),
            slot == filler_slot(count as int, end as int, placed),
            forall|k: int|
                0 <= k < placed ==> genes@[filler_slot(count as int, end as int, k)]
                    == #[trigger] rest[k],
            full ==> placed == rest.len(),
        decreases count - from, if full { 0int } else { 1int },
    {
        let gene: usize = parent2.genes[from];
        proof {
            let upto = second.take(from + 1);
            assert(upto.drop_last() =~= second.take(from as int));
            assert(upto.last() == gene);
            lemma_leftover_prefix(first, second, start as int, end as int, from + 1);
        }
        if !used[gene - 1] {
            proof {
                let grown = leftover(first, second.take(from + 1), start as int, end as int);
                assert(grown.len() == placed + 1);
                assert(grown[placed] == gene);
                assert(rest[placed] == gene);
            }
            genes[slot] = gene;
            slot = if slot + 1 == count {
                0
            } else {
                slot + 1
            };
            proof {
                placed = placed + 1;
            }
            if slot == start {
                full = true;
            }
        }
        from += 1;
    }
    proof {
        if !full {
            assert(second.take(from as int) =~= second);
        }
        assert(placed == rest.len());
        let child = crossed(first, second, point1 as int, point2 as int);
        assert forall|t: int| 0 <= t < count implies genes@[t] == child[t] by {
            if !(start <= t <= end) {
                let k = if t > end {
                    t - end - 1
                } else {
                    t + count - end - 1
                };
                assert(filler_slot(count as int, end as int, k) == t);
                assert(genes@[filler_slot(count as int, end as int, k)] == rest[k]);
            }
        }
        assert(genes@ =~= child);
        lemma_crossed_is_permutation(first, second, point1 as int, point2 as int);
    }
    Chromosome { genes, fitness: Fitness::Zero }
}

/// A child of two parents for cut points drawn at random, not yet
/// evaluated.
pub fn crossover(parent1: &Chromosome, parent2: &Chromosome, rng: &mut StdRng) -> (child: Chromosome)
    requires
        is_permutation(parent1.genes@),
        is_permutation(parent2.genes@),
        parent1.genes@.len() == parent2.genes@.len(),
        parent1.genes@.len() > 0,
    ensures
        exists|point1: int, point2: int|
            0 <= point1 < parent1.genes@.len() && 0 <= point2 < parent1.genes@.len()
                && child.genes@ == #[trigger] crossed(
                parent1.genes@,
                parent2.genes@,
                point1,
                point2,
            ),
        child.fitness == Fitness::Zero,
        child.genes@.len() == parent1.genes@.len(),
        is_permutation(child.genes@),
{
    let count: usize = parent1.genes.len();
    let point1: usize = random_below(rng, count);
    let point2: usize = random_below(rng, count);
    crossover_at(parent1, parent2, point1, point2)
}

} // verus!
