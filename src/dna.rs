//! Candidates: one queen per row, `genes[row]` giving its column.
use vstd::prelude::*;
use crate::rng::{random_below, random_chance};

verus! {

/// A fraction `num / den`. A zero `den` marks a value that is not defined
/// (a fitness normalised by a zero total).
#[derive(Clone, Copy, Debug, PartialEq, Eq, Structural)]
pub struct Ratio {
    pub num: u32,
    pub den: u32,
}

impl Ratio {
    /// A probability: a defined fraction in `[0, 1]`.
    pub open spec fn is_probability(self) -> bool {
        0 < self.den && self.num <= self.den
    }

    /// At most one, or undefined with a zero numerator.
    pub open spec fn at_most_one(self) -> bool {
        self.num <= self.den
    }
}

/// The genes of the child of `a` and `b` split at `k`: positions below `k`
/// from `a`, the others from `b`.
pub open spec fn crossed(a: Seq<u8>, b: Seq<u8>, k: int) -> Seq<u8> {
    Seq::new(8, |i: int| if i < k { a[i] } else { b[i] })
}

/// The genes `g` after mutation: where `hit` is set, the fresh value.
pub open spec fn mutated(g: Seq<u8>, hit: Seq<bool>, fresh: Seq<u8>) -> Seq<u8> {
    Seq::new(8, |i: int| if hit[i] { fresh[i] } else { g[i] })
}

/// Draws that a mutation at `rate` can make: eight decisions and eight
/// fresh columns; no gene is hit at rate zero, every gene at rate one.
pub open spec fn valid_mutation_draws(hit: Seq<bool>, fresh: Seq<u8>, rate: Ratio) -> bool {
    &&& hit.len() == 8
    &&& fresh.len() == 8
    &&& forall|i: int| 0 <= i < 8 ==> #[trigger] fresh[i] < 8
    &&& rate.num == 0 ==> forall|i: int| 0 <= i < 8 ==> !#[trigger] hit[i]
    &&& rate.num == rate.den ==> forall|i: int| 0 <= i < 8 ==> #[trigger] hit[i]
}

/// Draws, for each of eight genes, whether it mutates (with probability
/// `rate`) and, when it does, its fresh column.
pub(crate) fn draw_mutation(rate: Ratio) -> (r: ([bool; 8], [u8; 8]))
    requires
        rate.is_probability(),
    ensures
        valid_mutation_draws(r.0@, r.1@, rate),
{
    let mut hit = [false; 8];
    let mut fresh = [0u8; 8];
    let mut i: usize = 0;
    while i < 8
        invariant
            i <= 8,
            rate.is_probability(),
            forall|j: int| 0 <= j < 8 ==> #[trigger] fresh@[j] < 8,
            forall|j: int| i <= j < 8 ==> !#[trigger] hit@[j],
            forall|j: int| 0 <= j < i ==> rate.num == 0 ==> !#[trigger] hit@[j],
            forall|j: int| 0 <= j < i ==> rate.num == rate.den ==> #[trigger] hit@[j],
        decreases 8 - i,
    {
        if random_chance(rate.num, rate.den) {
            hit[i] = true;
            fresh[i] = random_below(8) as u8;
        }
        i += 1;
    }
    (hit, fresh)
}

/// One candidate placement, with its cached match count and fitness.
#[derive(Clone, Copy, Debug)]
pub struct DNA {
    genes: [u8; 8],
    matches: u8,
    fitness: Ratio,
}

impl DNA {
    /// The column of the queen of each row.
    pub closed spec fn genes_seq(&self) -> Seq<u8> {
        self.genes@
    }

    /// The cached number of unattacked queens.
    pub closed spec fn match_count(&self) -> u8 {
        self.matches
    }

    /// The cached fitness.
    pub closed spec fn fitness_ratio(&self) -> Ratio {
        self.fitness
    }

    /// Eight genes, each a column in `[0, 7]`.
    pub open spec fn wf(&self) -> bool {
        &&& self.genes_seq().len() == 8
        &&& forall|i: int| 0 <= i < 8 ==> #[trigger] self.genes_seq()[i] < 8
    }

    /// The fitness of a candidate that has not been scored.
    pub open spec fn fitness_zero() -> Ratio {
        Ratio { num: 0, den: 1 }
    }

    pub fn new() -> (r: Self)
        ensures
            r.wf(),
            r.genes_seq() == Seq::new(8, |i: int| 0u8),
            r.match_count() == 0,
            r.fitness_ratio() == Self::fitness_zero(),
    {
        let r = DNA { genes: [0; 8], matches: 0, fitness: Ratio { num: 0, den: 1 } };
        assert(r.genes_seq() =~= Seq::new(8, |i: int| 0u8));
        r
    }

    pub fn randomized_new() -> (r: Self)
        ensures
            r.wf(),
            r.match_count() == 0,
            r.fitness_ratio() == Self::fitness_zero(),
    {
        let mut dna_instance = DNA::new();
        dna_instance.randomize();
        dna_instance
    }

    /// Draws every gene anew, uniformly from `[0, 7]`.
    pub fn randomize(&mut self)
        ensures
            final(self).wf(),
            final(self).match_count() == old(self).match_count(),
            final(self).fitness_ratio() == old(self).fitness_ratio(),
    {
        let mut i: usize = 0;
        while i < 8
            invariant
                i <= 8,
                self.matches == old(self).matches,
                self.fitness == old(self).fitness,
                forall|j: int| 0 <= j < i ==> #[trigger] self.genes@[j] < 8,
            decreases 8 - i,
        {
            self.genes[i] = random_below(8) as u8;
            i += 1;
        }
    }

    pub fn get_gene_at(&self, ind: usize) -> (r: u8)
        requires
            ind < 8,
        ensures
            r == self.genes_seq()[ind as int],
    {
        self.genes[ind]
    }

    pub fn set_gene_at(&mut self, ind: usize, val: u8)
        requires
            ind < 8,
        ensures
            final(self).genes_seq() == old(self).genes_seq().update(ind as int, val),
            final(self).match_count() == old(self).match_count(),
            final(self).fitness_ratio() == old(self).fitness_ratio(),
    {
        self.genes[ind] = val;
    }

    pub fn get_fitness(&self) -> (r: Ratio)
        ensures
            r == self.fitness_ratio(),
    {
        self.fitness
    }

    pub fn set_fitness(&mut self, new_fitness: Ratio)
        ensures
            final(self).genes_seq() == old(self).genes_seq(),
            final(self).match_count() == old(self).match_count(),
            final(self).fitness_ratio() == new_fitness,
    {
        self.fitness = new_fitness;
    }

    pub fn get_matches(&self) -> (r: u8)
        ensures
            r == self.match_count(),
    {
        self.matches
    }

    pub fn set_matches(&mut self, new_match: u8)
        ensures
            final(self).genes_seq() == old(self).genes_seq(),
            final(self).match_count() == new_match,
            final(self).fitness_ratio() == old(self).fitness_ratio(),
    {
        self.matches = new_match;
    }

    /// The child of two parents split at `split`: genes below it come from
    /// `parent_a`, the others from `parent_b`. Nothing but the genes is
    /// inherited.
    pub fn crossover_at(parent_a: &Self, parent_b: &Self, split: usize) -> (r: Self)
        requires
            parent_a.wf(),
            parent_b.wf(),
        ensures
            r.wf(),
            r.genes_seq() == crossed(parent_a.genes_seq(), parent_b.genes_seq(), split as int),
            r.match_count() == 0,
            r.fitness_ratio() == Self::fitness_zero(),
    {
        let mut child_dna = DNA::new();
        let mut i: usize = 0;
        while i < 8
            invariant
                i <= 8,
                parent_a.wf(),
                parent_b.wf(),
                child_dna.wf(),
                child_dna.match_count() == 0,
                child_dna.fitness_ratio() == Self::fitness_zero(),
                forall|j: int|
                    0 <= j < i ==> #[trigger] child_dna.genes_seq()[j] == (if j < split {
                        parent_a.genes_seq()[j]
                    } else {
                        parent_b.genes_seq()[j]
                    }),
            decreases 8 - i,
        {
            assert(parent_a.genes_seq()[i as int] < 8 && parent_b.genes_seq()[i as int] < 8);
            if i < split {
                child_dna.set_gene_at(i, parent_a.get_gene_at(i));
            } else {
                child_dna.set_gene_at(i, parent_b.get_gene_at(i));
            }
            i += 1;
        }
        assert(child_dna.genes_seq() =~= crossed(
            parent_a.genes_seq(),
            parent_b.genes_seq(),
            split as int,
        ));
        child_dna
    }

    /// The child of two parents split at a point drawn uniformly from
    /// `[0, 7)`, so that the last gene always comes from `parent_b`.
    pub fn crossover(parent_a: &Self, parent_b: &Self) -> (r: Self)
        requires
            parent_a.wf(),
            parent_b.wf(),
        ensures
            r.wf(),
            exists|k: int|
                0 <= k < 7 && r.genes_seq() == crossed(
                    parent_a.genes_seq(),
                    parent_b.genes_seq(),
                    k,
                ),
            r.match_count() == 0,
            r.fitness_ratio() == Self::fitness_zero(),
    {
        let random_split_point = random_below(8 - 1);
        Self::crossover_at(parent_a, parent_b, random_split_point)
    }

    /// Applies drawn mutation decisions: gene `i` becomes `fresh[i]` where
    /// `hit[i]` is set and stays as it was elsewhere.
    pub fn mutate_with(dna_el: &mut DNA, hit: [bool; 8], fresh: [u8; 8])
        requires
            old(dna_el).wf(),
            forall|i: int| 0 <= i < 8 ==> #[trigger] fresh@[i] < 8,
        ensures
            final(dna_el).wf(),
            final(dna_el).genes_seq() == mutated(old(dna_el).genes_seq(), hit@, fresh@),
            final(dna_el).match_count() == old(dna_el).match_count(),
            final(dna_el).fitness_ratio() == old(dna_el).fitness_ratio(),
    {
        let mut i: usize = 0;
        while i < 8
            invariant
                i <= 8,
                forall|j: int| 0 <= j < 8 ==> #[trigger] fresh@[j] < 8,
                dna_el.wf(),
                dna_el.match_count() == old(dna_el).match_count(),
                dna_el.fitness_ratio() == old(dna_el).fitness_ratio(),
                forall|j: int|
                    0 <= j < 8 ==> #[trigger] dna_el.genes_seq()[j] == if j < i {
                        mutated(old(dna_el).genes_seq(), hit@, fresh@)[j]
                    } else {
                        old(dna_el).genes_seq()[j]
                    },
            decreases 8 - i,
        {
            if hit[i] {
                dna_el.set_gene_at(i, fresh[i]);
            }
            i += 1;
        }
        assert(dna_el.genes_seq() =~= mutated(old(dna_el).genes_seq(), hit@, fresh@));
    }

    /// Replaces each gene, independently with probability `mutate_rate`, by
    /// a column drawn uniformly from `[0, 7]`.
    pub fn mutate(dna_el: &mut DNA, mutate_rate: Ratio)
        requires
            old(dna_el).wf(),
            mutate_rate.is_probability(),
        ensures
            final(dna_el).wf(),
            exists|hit: Seq<bool>, fresh: Seq<u8>|
                valid_mutation_draws(hit, fresh, mutate_rate) && final(dna_el).genes_seq()
                    == #[trigger] mutated(old(dna_el).genes_seq(), hit, fresh),
            final(dna_el).match_count() == old(dna_el).match_count(),
            final(dna_el).fitness_ratio() == old(dna_el).fitness_ratio(),
    {
        let (hit, fresh) = draw_mutation(mutate_rate);
        DNA::mutate_with(dna_el, hit, fresh);
    }
}

} // verus!
