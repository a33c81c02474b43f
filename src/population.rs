//! The population engine: scoring, fitness-proportionate selection and
//! reproduction of a fixed number of candidates.
use vstd::prelude::*;
use crate::attack::{col_of, lemma_square, row_of, SlidingAttack};
use crate::bb::{
    has_bit, lemma_bit_and, lemma_bit_or, lemma_empty_board, lemma_zero_iff_no_bits, BBTrait, BB,
};
use crate::dna::{crossed, draw_mutation, mutated, valid_mutation_draws, Ratio, DNA};
use crate::queens::{
    free_squares, is_board_of, lemma_board_safe_queens, lemma_count_free_bound, lemma_free_squares_bound,
    lemma_free_squares_skip, safe_queens, square_is_free,
};
use crate::rng::random_below;
use crate::{MUTATION_RATE_DEN, MUTATION_RATE_NUM, POPULATION_COUNT};

verus! {

/// Why no next generation was produced.
#[derive(Clone, Copy, Debug, PartialEq, Eq, Structural)]
pub enum GenerateError {
    /// Rank-based selection was asked for; it is not supported.
    SelectiveUnsupported,
    /// No candidate earned a place in the mating pool.
    EmptyMatingPool,
}

/// How many places in the mating pool a fitness earns: `floor(fitness * 100)`,
/// none for an undefined fitness.
pub open spec fn share(f: Ratio) -> nat {
    if f.den == 0 {
        0
    } else {
        (100 * f.num) as nat / (f.den as nat)
    }
}

/// The mating pool of `e`: each index `i`, in order, `share` of its fitness
/// times.
pub open spec fn pool_of(e: Seq<DNA>) -> Seq<u16>
    decreases e.len(),
{
    if e.len() == 0 {
        Seq::empty()
    } else {
        pool_of(e.drop_last()) + Seq::new(
            share(e.last().fitness_ratio()),
            |j: int| (e.len() - 1) as u16,
        )
    }
}

/// The sum of the cached match counts of the first `n` candidates.
pub open spec fn match_total(e: Seq<DNA>, n: int) -> nat
    decreases n,
{
    if n <= 0 {
        0
    } else {
        match_total(e, n - 1) + e[n - 1].match_count() as nat
    }
}

/// The sum of the fitness numerators of the first `n` candidates.
pub open spec fn fitness_total(e: Seq<DNA>, n: int) -> nat
    decreases n,
{
    if n <= 0 {
        0
    } else {
        fitness_total(e, n - 1) + e[n - 1].fitness_ratio().num as nat
    }
}

/// Every candidate holds its own match count, and as fitness that count
/// over the population's total.
pub open spec fn is_scored(e: Seq<DNA>) -> bool {
    forall|i: int|
        0 <= i < e.len() ==> {
            &&& #[trigger] e[i].match_count() == safe_queens(e[i].genes_seq())
            &&& e[i].fitness_ratio() == Ratio {
                num: e[i].match_count() as u32,
                den: match_total(e, e.len() as int) as u32,
            }
        }
}

/// The match total of a prefix depends on the match counts alone.
pub proof fn lemma_match_total_same(a: Seq<DNA>, b: Seq<DNA>, n: int)
    requires
        0 <= n <= a.len(),
        n <= b.len(),
        forall|j: int| 0 <= j < n ==> #[trigger] a[j].match_count() == b[j].match_count(),
    ensures
        match_total(a, n) == match_total(b, n),
    decreases n,
{
    if n > 0 {
        lemma_match_total_same(a, b, n - 1);
    }
}

/// With at most eight matches each, the total is at most eight per
/// candidate and at least each single count.
pub proof fn lemma_match_total_bounds(e: Seq<DNA>, n: int)
    requires
        0 <= n <= e.len(),
        forall|j: int| 0 <= j < n ==> #[trigger] e[j].match_count() <= 8,
    ensures
        match_total(e, n) <= 8 * n,
        forall|j: int| 0 <= j < n ==> #[trigger] e[j].match_count() <= match_total(e, n),
    decreases n,
{
    if n > 0 {
        lemma_match_total_bounds(e, n - 1);
    }
}

/// Every entry of the mating pool is the index of a candidate.
pub proof fn lemma_pool_indices(e: Seq<DNA>)
    requires
        e.len() <= 65536,
    ensures
        forall|k: int| 0 <= k < pool_of(e).len() ==> #[trigger] pool_of(e)[k] < e.len(),
    decreases e.len(),
{
    if e.len() > 0 {
        lemma_pool_indices(e.drop_last());
        let p = pool_of(e.drop_last());
        assert forall|k: int| 0 <= k < pool_of(e).len() implies #[trigger] pool_of(e)[k]
            < e.len() by {
            if k < p.len() {
                assert(pool_of(e)[k] == p[k]);
            }
        }
    }
}

/// Where each fitness numerator is the match count, the numerators add up
/// to the match total.
pub proof fn lemma_fitness_total_matches(e: Seq<DNA>, n: int)
    requires
        0 <= n <= e.len(),
        forall|j: int|
            0 <= j < n ==> #[trigger] e[j].fitness_ratio().num == e[j].match_count() as u32,
    ensures
        fitness_total(e, n) == match_total(e, n),
    decreases n,
{
    if n > 0 {
        lemma_fitness_total_matches(e, n - 1);
    }
}

/// Once a population of at most `POPULATION_COUNT` candidates is scored,
/// every fitness lies in `[0, 1]`; when the total of matches is not zero,
/// the fitnesses share that total as denominator and add up to exactly one.
pub proof fn lemma_scored_fitness_sums_to_one(e: Seq<DNA>)
    requires
        is_scored(e),
        e.len() <= POPULATION_COUNT,
    ensures
        forall|i: int|
            0 <= i < e.len() ==> #[trigger] e[i].fitness_ratio().num
                <= e[i].fitness_ratio().den,
        match_total(e, e.len() as int) > 0 ==> {
            &&& forall|i: int|
                0 <= i < e.len() ==> #[trigger] e[i].fitness_ratio().den == match_total(
                    e,
                    e.len() as int,
                )
            &&& fitness_total(e, e.len() as int) == match_total(e, e.len() as int)
        },
{
    let n = e.len() as int;
    assert forall|j: int| 0 <= j < n implies #[trigger] e[j].match_count() <= 8 by {
        lemma_count_free_bound(e[j].genes_seq(), 8);
    }
    lemma_match_total_bounds(e, n);
    assert forall|j: int| 0 <= j < n implies #[trigger] e[j].fitness_ratio().num
        == e[j].match_count() as u32 by {}
    lemma_fitness_total_matches(e, n);
    assert(match_total(e, n) <= 4000);
    assert forall|j: int| 0 <= j < n implies #[trigger] e[j].fitness_ratio().den == match_total(
        e,
        n,
    ) by {
        assert(e[j].match_count() == safe_queens(e[j].genes_seq()));
    }
}

/// The genes of the child bred from pool entries `ia` and `ib` of the
/// population `e`: split at `split`, then mutated by `hit` and `fresh`.
pub open spec fn bred(
    e: Seq<DNA>,
    pool: Seq<u16>,
    ia: int,
    ib: int,
    split: int,
    hit: Seq<bool>,
    fresh: Seq<u8>,
) -> Seq<u8> {
    mutated(crossed(e[pool[ia] as int].genes_seq(), e[pool[ib] as int].genes_seq(), split), hit, fresh)
}

/// `c` is an unscored child that breeding from `pool` over `e` at mutation
/// `rate` can give: two pool entries, a split in `[0, 7)` and mutation draws.
pub open spec fn is_child_of(c: DNA, e: Seq<DNA>, pool: Seq<u16>, rate: Ratio) -> bool {
    &&& c.wf()
    &&& c.match_count() == 0
    &&& c.fitness_ratio() == DNA::fitness_zero()
    &&& exists|ia: int, ib: int, split: int, hit: Seq<bool>, fresh: Seq<u8>|
        {
            &&& 0 <= ia < pool.len()
            &&& 0 <= ib < pool.len()
            &&& 0 <= split < 7
            &&& valid_mutation_draws(hit, fresh, rate)
            &&& c.genes_seq() == #[trigger] bred(e, pool, ia, ib, split, hit, fresh)
        }
}

/// A fixed number of candidates, the reach tables they are scored with,
/// the mating pool of the last selection and the index of the best
/// candidate of the last scoring.
pub struct Population {
    elements: Vec<DNA>,
    capacity: usize,
    mutate_rate: Ratio,
    attack_table: SlidingAttack,
    mating_pool: Vec<u16>,
    best: usize,
}

impl Population {
    /// The candidates.
    pub closed spec fn elements_view(&self) -> Seq<DNA> {
        self.elements@
    }

    /// The number of candidates of every generation.
    pub closed spec fn size(&self) -> nat {
        self.capacity as nat
    }

    /// The mating pool of the last selection.
    pub closed spec fn pool_view(&self) -> Seq<u16> {
        self.mating_pool@
    }

    /// The index of the best candidate of the last scoring.
    pub closed spec fn best_index(&self) -> int {
        self.best as int
    }

    /// The probability with which each gene of a child mutates.
    pub closed spec fn mutation_rate(&self) -> Ratio {
        self.mutate_rate
    }

    /// The reach tables are right, the population is empty or full, every
    /// candidate is well formed with a fitness of at most one, and the best
    /// index points into a non-empty population.
    pub closed spec fn wf(&self) -> bool {
        &&& self.attack_table.wf()
        &&& self.capacity == POPULATION_COUNT
        &&& self.elements@.len() == 0 || self.elements@.len() == self.capacity
        &&& forall|i: int|
            0 <= i < self.elements@.len() ==> (#[trigger] self.elements@[i]).wf()
                && self.elements@[i].fitness_ratio().at_most_one()
                && self.elements@[i].match_count() <= 8
        &&& self.mutate_rate.is_probability()
        &&& self.best < self.capacity
    }

    pub fn new() -> (r: Self)
        ensures
            r.wf(),
            r.elements_view().len() == 0,
            r.size() == POPULATION_COUNT,
            r.pool_view().len() == 0,
            r.best_index() == 0,
            r.mutation_rate() == (Ratio { num: MUTATION_RATE_NUM, den: MUTATION_RATE_DEN }),
    {
        Population {
            elements: Vec::with_capacity(POPULATION_COUNT),
            capacity: POPULATION_COUNT,
            mutate_rate: Ratio { num: MUTATION_RATE_NUM, den: MUTATION_RATE_DEN },
            attack_table: SlidingAttack::new(),
            mating_pool: Vec::new(),
            best: 0,
        }
    }

    /// Fills the empty population with randomized candidates.
    pub fn init(&mut self)
        requires
            old(self).wf(),
            old(self).elements_view().len() == 0,
        ensures
            final(self).wf(),
            final(self).elements_view().len() == final(self).size(),
            final(self).size() == old(self).size(),
            final(self).pool_view() == old(self).pool_view(),
            final(self).best_index() == old(self).best_index(),
            final(self).mutation_rate() == old(self).mutation_rate(),
            forall|i: int|
                0 <= i < final(self).elements_view().len() ==> (
                #[trigger] final(self).elements_view()[i]).match_count() == 0
                    && final(self).elements_view()[i].fitness_ratio() == DNA::fitness_zero()
                    && final(self).elements_view()[i].wf(),
    {
        let mut i: usize = 0;
        while i < self.capacity
            invariant
                self.capacity == old(self).capacity,
                self.capacity == POPULATION_COUNT,
                self.attack_table == old(self).attack_table,
                self.mating_pool == old(self).mating_pool,
                self.best == old(self).best,
                self.mutate_rate == old(self).mutate_rate,
                old(self).wf(),
                i <= self.capacity,
                self.elements@.len() == i,
                forall|j: int|
                    0 <= j < i ==> (#[trigger] self.elements@[j]).wf()
                        && self.elements@[j].match_count() == 0
                        && self.elements@[j].fitness_ratio() == DNA::fitness_zero(),
            decreases self.capacity - i,
        {
            let new_dna = DNA::randomized_new();
            self.elements.push(new_dna);
            i += 1;
        }
    }
}

impl Population {
    /// The board of a candidate: for each row, the square of its queen.
    pub fn dna_to_bb(&self, dna_ref: &DNA) -> (r: BB)
        requires
            dna_ref.wf(),
        ensures
            is_board_of(r, dna_ref.genes_seq()),
    {
        let mut dna_bb: BB = 0;
        proof {
            lemma_empty_board();
        }
        let mut i: u8 = 0;
        while i < 8
            invariant
                i <= 8,
                dna_ref.wf(),
                forall|t: u64|
                    t < 64 ==> #[trigger] has_bit(dna_bb, t) == (row_of(t as int) < i
                        && dna_ref.genes_seq()[row_of(t as int)] == col_of(t as int)),
            decreases 8 - i,
        {
            let gene = dna_ref.get_gene_at(i as usize);
            assert(gene < 8);
            let sq: u8 = i * 8 + gene;
            let ghost before = dna_bb;
            dna_bb.set_bit(sq as i8);
            proof {
                assert forall|t: u64| t < 64 implies #[trigger] has_bit(dna_bb, t) == (row_of(
                    t as int,
                ) < i + 1 && dna_ref.genes_seq()[row_of(t as int)] == col_of(t as int)) by {
                    lemma_square(t as int, i as int, gene as int);
                    assert(has_bit(dna_bb, t) == (has_bit(before, t) || t == sq as u64));
                }
            }
            i += 1;
        }
        dna_bb
    }

    /// How many queens of candidate `ind` no other queen attacks.
    fn count_matches(&self, ind: usize) -> (r: u8)
        requires
            self.wf(),
            ind < self.elements_view().len(),
        ensures
            r == safe_queens(self.elements_view()[ind as int].genes_seq()),
            r <= 8,
    {
        assert(self.elements@[ind as int].wf());
        self.count_dna_matches(&self.elements[ind])
    }

    /// How many queens of a candidate no other queen attacks, counted on its
    /// board with the reach tables: each queen, lowest square first, counts
    /// when its reach meets no square of the board.
    pub fn count_dna_matches(&self, dna_ref: &DNA) -> (r: u8)
        requires
            self.wf(),
            dna_ref.wf(),
        ensures
            r == safe_queens(dna_ref.genes_seq()),
            r <= 8,
    {
        let mut dna_bb = self.dna_to_bb(dna_ref);
        let init_bb = dna_bb;
        let mut matches: u8 = 0;
        let ghost mut k: int = 0;
        while dna_bb != 0
            invariant
                self.wf(),
                0 <= k <= 64,
                forall|t: u64|
                    t < 64 ==> #[trigger] has_bit(dna_bb, t) == (has_bit(init_bb, t) && t >= k),
                matches == free_squares(init_bb, k),
            decreases 64 - k,
        {
            let ghost before = dna_bb;
            let sq = dna_bb.pop_lsb();
            let ghost s = sq as u64;
            proof {
                assert(has_bit(before, s));
                assert forall|t: u64| k <= t < s implies !#[trigger] has_bit(init_bb, t) by {
                    assert(!has_bit(before, t));
                }
                lemma_free_squares_skip(init_bb, k, s as int);
                lemma_free_squares_bound(init_bb, s as int);
            }
            let all_moves = self.attack_table.bishop_moves[sq as usize]
                | self.attack_table.rook_moves[sq as usize];
            proof {
                let both = init_bb & all_moves;
                lemma_zero_iff_no_bits(both);
                assert forall|u: u64| u < 64 implies #[trigger] has_bit(both, u) == (has_bit(
                    init_bb,
                    u,
                ) && crate::attack::queen_reach(s as int, u as int)) by {
                    lemma_bit_and(init_bb, all_moves, u);
                    lemma_bit_or(
                        self.attack_table.bishop_moves@[s as int],
                        self.attack_table.rook_moves@[s as int],
                        u,
                    );
                    assert(crate::attack::is_bishop_reach(
                        self.attack_table.bishop_moves@[s as int],
                        s as int,
                    ));
                    assert(crate::attack::is_rook_reach(
                        self.attack_table.rook_moves@[s as int],
                        s as int,
                    ));
                }
                if both == 0 {
                    assert forall|u: u64| u < 64 && #[trigger] has_bit(init_bb, u) implies !crate::attack::queen_reach(s as int, u as int) by {
                        assert(!has_bit(both, u));
                    }
                } else {
                    let u = choose|u: u64| u < 64 && #[trigger] has_bit(both, u);
                    assert(has_bit(init_bb, u) && crate::attack::queen_reach(s as int, u as int));
                }
                assert((both == 0) == square_is_free(init_bb, s as int));
            }
            if init_bb & all_moves == 0 {
                matches += 1;
            }
            proof {
                k = s + 1;
            }
        }
        proof {
            lemma_zero_iff_no_bits(dna_bb);
            assert forall|t: u64| k <= t < 64 implies !#[trigger] has_bit(init_bb, t) by {
                assert(!has_bit(dna_bb, t));
            }
            lemma_free_squares_skip(init_bb, k, 64);
            lemma_board_safe_queens(init_bb, dna_ref.genes_seq());
            lemma_count_free_bound(dna_ref.genes_seq(), 8);
        }
        matches
    }

    /// Whether some candidate's stored match count is eight, that is, after
    /// scoring, whether some candidate has all eight queens unattacked.
    pub fn check_all_state(&self) -> (r: bool)
        requires
            self.wf(),
        ensures
            r == exists|i: int|
                0 <= i < self.elements_view().len() && (
                #[trigger] self.elements_view()[i]).match_count() == 8,
            is_scored(self.elements_view()) ==> (r == exists|i: int|
                0 <= i < self.elements_view().len() && safe_queens(
                    #[trigger] self.elements_view()[i].genes_seq(),
                ) == 8),
    {
        let mut found = false;
        let mut i: usize = 0;
        while i < self.elements.len()
            invariant
                self.wf(),
                i <= self.elements@.len(),
                found == exists|j: int|
                    0 <= j < i && (#[trigger] self.elements@[j]).match_count() == 8,
            decreases self.elements@.len() - i,
        {
            if self.elements[i].get_matches() == 8 {
                found = true;
            }
            i += 1;
        }
        assert(self.elements_view() == self.elements@);
        proof {
            if is_scored(self.elements@) {
                assert forall|j: int| 0 <= j < self.elements@.len() implies (
                #[trigger] self.elements@[j]).match_count() == safe_queens(
                    self.elements@[j].genes_seq(),
                ) by {}
            }
        }
        found
    }
}


impl Population {
    /// Scores every candidate: its match count, and as fitness that count
    /// over the population's total (undefined when the total is zero). Then
    /// moves the best index to a candidate of highest fitness.
    pub fn calc_fitness(&mut self)
        requires
            old(self).wf(),
        ensures
            final(self).wf(),
            final(self).elements_view().len() == old(self).elements_view().len(),
            forall|i: int|
                0 <= i < old(self).elements_view().len() ==> (
                #[trigger] final(self).elements_view()[i]).genes_seq()
                    == old(self).elements_view()[i].genes_seq(),
            is_scored(final(self).elements_view()),
            forall|i: int|
                0 <= i < final(self).elements_view().len() ==> (
                #[trigger] final(self).elements_view()[i]).wf(),
            final(self).size() == old(self).size(),
            final(self).pool_view() == old(self).pool_view(),
            final(self).mutation_rate() == old(self).mutation_rate(),
            final(self).elements_view().len() == 0 ==> final(self).best_index()
                == old(self).best_index(),
            final(self).elements_view().len() > 0 ==> 0 <= final(self).best_index()
                < final(self).elements_view().len(),
            forall|i: int|
                0 <= i < final(self).elements_view().len() ==> (
                #[trigger] final(self).elements_view()[i]).fitness_ratio().num
                    <= final(self).elements_view()[final(self).best_index()].fitness_ratio().num,
            final(self).best_index() == old(self).best_index() || {
                let e = final(self).elements_view();
                let b = final(self).best_index();
                &&& e[old(self).best_index()].fitness_ratio().num < e[b].fitness_ratio().num
                &&& forall|j: int|
                    0 <= j < b ==> (#[trigger] e[j]).fitness_ratio().num
                        < e[b].fitness_ratio().num
            },
    {
        let ghost old_e = self.elements@;
        let n = self.elements.len();
        let mut fitness_sum: u32 = 0;
        let mut i: usize = 0;
        while i < n
            invariant
                self.wf(),
                n == self.elements@.len(),
                n == old_e.len(),
                i <= n,
                self.capacity == old(self).capacity,
                self.mating_pool == old(self).mating_pool,
                self.mutate_rate == old(self).mutate_rate,
                self.best == old(self).best,
                forall|j: int|
                    0 <= j < n ==> (#[trigger] self.elements@[j]).genes_seq()
                        == old_e[j].genes_seq(),
                forall|j: int|
                    0 <= j < i ==> (#[trigger] self.elements@[j]).match_count() == safe_queens(
                        self.elements@[j].genes_seq(),
                    ),
                fitness_sum == match_total(self.elements@, i as int),
                fitness_sum <= 8 * i,
            decreases n - i,
        {
            let match_count = self.count_matches(i);
            let ghost prev = self.elements@;
            self.elements[i].set_matches(match_count);
            proof {
                lemma_match_total_same(prev, self.elements@, i as int);
            }
            fitness_sum += match_count as u32;
            i += 1;
        }
        let ghost scored = self.elements@;
        proof {
            lemma_match_total_bounds(scored, n as int);
        }
        i = 0;
        while i < n
            invariant
                self.wf(),
                n == self.elements@.len(),
                i <= n,
                self.capacity == old(self).capacity,
                self.mating_pool == old(self).mating_pool,
                self.mutate_rate == old(self).mutate_rate,
                self.best == old(self).best,
                fitness_sum == match_total(scored, n as int),
                n == scored.len(),
                n == old_e.len(),
                forall|j: int|
                    0 <= j < n ==> #[trigger] scored[j].genes_seq() == old_e[j].genes_seq(),
                forall|j: int|
                    0 <= j < n ==> #[trigger] scored[j].match_count() == safe_queens(
                        scored[j].genes_seq(),
                    ),
                forall|j: int|
                    0 <= j < n ==> {
                        &&& (#[trigger] self.elements@[j]).genes_seq() == scored[j].genes_seq()
                        &&& self.elements@[j].match_count() == scored[j].match_count()
                    },
                forall|j: int|
                    0 <= j < n ==> #[trigger] scored[j].match_count() <= match_total(
                        scored,
                        n as int,
                    ),
                forall|j: int|
                    0 <= j < i ==> (#[trigger] self.elements@[j]).fitness_ratio() == (Ratio {
                        num: self.elements@[j].match_count() as u32,
                        den: fitness_sum,
                    }),
            decreases n - i,
        {
            let match_count = self.elements[i].get_matches();
            self.elements[i].set_fitness(Ratio { num: match_count as u32, den: fitness_sum });
            i += 1;
        }
        proof {
            lemma_match_total_same(scored, self.elements@, n as int);
            assert(self.elements@.len() == n);
            assert forall|j: int| 0 <= j < n implies #[trigger] self.elements@[j].genes_seq()
                == old_e[j].genes_seq() by {
                assert(self.elements@[j].genes_seq() == scored[j].genes_seq());
                assert(scored[j].genes_seq() == old_e[j].genes_seq());
            }
            assert(is_scored(self.elements@));
        }
        let ghost fitted = self.elements@;
        i = 0;
        while i < n
            invariant
                self.wf(),
                n == self.elements@.len(),
                i <= n,
                n > 0 ==> self.best < n,
                self.elements@ == fitted,
                self.capacity == old(self).capacity,
                self.mating_pool == old(self).mating_pool,
                self.mutate_rate == old(self).mutate_rate,
                n == 0 ==> self.best == old(self).best,
                old(self).best < self.capacity,
                self.best == old(self).best || {
                    &&& self.elements@[old(self).best as int].fitness_ratio().num
                        < self.elements@[self.best as int].fitness_ratio().num
                    &&& forall|j: int|
                        0 <= j < self.best ==> (#[trigger] self.elements@[j]).fitness_ratio().num
                            < self.elements@[self.best as int].fitness_ratio().num
                },
                forall|j: int|
                    0 <= j < i ==> (#[trigger] self.elements@[j]).fitness_ratio().num
                        <= self.elements@[self.best as int].fitness_ratio().num,
            decreases n - i,
        {
            if self.elements[i].get_fitness().num > self.elements[self.best].get_fitness().num {
                self.best = i;
            }
            i += 1;
        }
    }
}


impl Population {
    /// Fitness-proportionate selection: appends each index `i`, in order,
    /// `floor(fitness_i * 100)` times to the empty mating pool.
    fn random_selection(&mut self)
        requires
            old(self).wf(),
            old(self).mating_pool@.len() == 0,
        ensures
            final(self).wf(),
            final(self).mating_pool@ == pool_of(old(self).elements@),
            final(self).elements == old(self).elements,
            final(self).capacity == old(self).capacity,
            final(self).mutate_rate == old(self).mutate_rate,
            final(self).best == old(self).best,
    {
        let n = self.elements.len();
        let mut i: usize = 0;
        while i < n
            invariant
                old(self).wf(),
                self.elements == old(self).elements,
                self.capacity == old(self).capacity,
                self.mutate_rate == old(self).mutate_rate,
                self.best == old(self).best,
                self.attack_table == old(self).attack_table,
                n == self.elements@.len(),
                n <= POPULATION_COUNT,
                i <= n,
                self.mating_pool@ == pool_of(self.elements@.take(i as int)),
            decreases n - i,
        {
            let f = self.elements[i].get_fitness();
            assert(self.elements@[i as int].fitness_ratio().at_most_one());
            let count: u64 = if f.den == 0 {
                0
            } else {
                assert((100 * (f.num as int)) / (f.den as int) <= 100) by (nonlinear_arith)
                    requires
                        f.num <= f.den,
                        f.den > 0,
                ;
                100 * (f.num as u64) / (f.den as u64)
            };
            let ghost start = self.mating_pool@;
            let mut j: u64 = 0;
            while j < count
                invariant
                    old(self).wf(),
                    self.elements == old(self).elements,
                    self.capacity == old(self).capacity,
                    self.mutate_rate == old(self).mutate_rate,
                    self.best == old(self).best,
                    self.attack_table == old(self).attack_table,
                    n == self.elements@.len(),
                    j <= count,
                    i < n,
                    n <= POPULATION_COUNT,
                    self.mating_pool@ == start + Seq::new(j as nat, |k: int| i as u16),
                decreases count - j,
            {
                self.mating_pool.push(i as u16);
                j += 1;
                assert(self.mating_pool@ =~= start + Seq::new(j as nat, |k: int| i as u16));
            }
            proof {
                let e = self.elements@.take(i + 1);
                assert(e.drop_last() =~= self.elements@.take(i as int));
                assert(e.last() == self.elements@[i as int]);
                assert(share(f) == count);
            }
            i += 1;
        }
        assert(self.elements@.take(n as int) =~= self.elements@);
    }

    /// Rank-based selection, which this engine does not offer.
    fn selective_selection(&mut self) -> (r: Result<(), GenerateError>)
        ensures
            r == Err::<(), GenerateError>(GenerateError::SelectiveUnsupported),
            *final(self) == *old(self),
    {
        Err(GenerateError::SelectiveUnsupported)
    }

    /// The child of pool entries `ia` and `ib`: their genes split at `split`,
    /// then gene `i` replaced by `fresh[i]` where `hit[i]` is set.
    fn breed(
        &self,
        ia: usize,
        ib: usize,
        split: usize,
        hit: [bool; 8],
        fresh: [u8; 8],
    ) -> (r: DNA)
        requires
            self.wf(),
            self.pool_view() == pool_of(self.elements_view()),
            ia < self.pool_view().len(),
            ib < self.pool_view().len(),
            forall|i: int| 0 <= i < 8 ==> #[trigger] fresh@[i] < 8,
        ensures
            r.wf(),
            r.genes_seq() == bred(
                self.elements_view(),
                self.pool_view(),
                ia as int,
                ib as int,
                split as int,
                hit@,
                fresh@,
            ),
            r.match_count() == 0,
            r.fitness_ratio() == DNA::fitness_zero(),
    {
        proof {
            lemma_pool_indices(self.elements@);
        }
        let a = self.mating_pool[ia] as usize;
        let b = self.mating_pool[ib] as usize;
        assert(self.elements@[a as int].wf() && self.elements@[b as int].wf());
        let mut child = DNA::crossover_at(&self.elements[a], &self.elements[b], split);
        DNA::mutate_with(&mut child, hit, fresh);
        child
    }

    /// Produces the next generation. The mating pool is rebuilt by the
    /// selection asked for; then each child is the crossover of two parents
    /// drawn uniformly from the pool, mutated at the population's rate, and
    /// the children replace every candidate.
    pub fn generate(&mut self, is_random: bool) -> (r: Result<(), GenerateError>)
        requires
            old(self).wf(),
        ensures
            final(self).wf(),
            final(self).size() == old(self).size(),
            final(self).mutation_rate() == old(self).mutation_rate(),
            final(self).best_index() == old(self).best_index(),
            !is_random ==> r == Err::<(), GenerateError>(GenerateError::SelectiveUnsupported)
                && final(self).elements_view() == old(self).elements_view()
                && final(self).pool_view().len() == 0,
            is_random ==> final(self).pool_view() == pool_of(old(self).elements_view()),
            is_random && pool_of(old(self).elements_view()).len() == 0 ==> r == Err::<
                (),
                GenerateError,
            >(GenerateError::EmptyMatingPool) && final(self).elements_view() == old(
                self,
            ).elements_view(),
            forall|i: int|
                0 <= i < final(self).elements_view().len() ==> (
                #[trigger] final(self).elements_view()[i]).wf(),
            is_random && pool_of(old(self).elements_view()).len() > 0 ==> r is Ok
                && final(self).elements_view().len() == final(self).size() && forall|k: int|
                0 <= k < final(self).size() ==> is_child_of(
                    #[trigger] final(self).elements_view()[k],
                    old(self).elements_view(),
                    final(self).pool_view(),
                    final(self).mutation_rate(),
                ),
    {
        self.mating_pool.clear();
        if !is_random {
            return self.selective_selection();
        }
        self.random_selection();
        let pool_len = self.mating_pool.len();
        if pool_len == 0 {
            return Err(GenerateError::EmptyMatingPool);
        }
        let mut new_elements: Vec<DNA> = Vec::new();
        let mut i: usize = 0;
        while i < self.capacity
            invariant
                self.wf(),
                pool_len == self.mating_pool@.len(),
                pool_len > 0,
                self.mating_pool@ == pool_of(self.elements@),
                i <= self.capacity,
                new_elements@.len() == i,
                forall|j: int|
                    0 <= j < i ==> is_child_of(
                        #[trigger] new_elements@[j],
                        self.elements@,
                        self.mating_pool@,
                        self.mutate_rate,
                    ),
            decreases self.capacity - i,
        {
            let rand_a = random_below(pool_len);
            let rand_b = random_below(pool_len);
            let split = random_below(8 - 1);
            let (hit, fresh) = draw_mutation(self.mutate_rate);
            let child = self.breed(rand_a, rand_b, split, hit, fresh);
            assert(is_child_of(child, self.elements@, self.mating_pool@, self.mutate_rate));
            new_elements.push(child);
            i += 1;
        }
        proof {
            lemma_pool_indices(self.elements@);
            assert(self.mating_pool@[0] < self.elements@.len());
        }
        self.elements = new_elements;
        Ok(())
    }

    /// The candidates.
    pub fn elements(&self) -> (r: &Vec<DNA>)
        ensures
            r@ == self.elements_view(),
    {
        &self.elements
    }

    /// The mating pool of the last selection.
    pub fn mating_pool(&self) -> (r: &Vec<u16>)
        ensures
            r@ == self.pool_view(),
    {
        &self.mating_pool
    }

    /// The index of the best candidate of the last scoring.
    pub fn best(&self) -> (r: usize)
        ensures
            r == self.best_index(),
    {
        self.best
    }
}

} // verus!
