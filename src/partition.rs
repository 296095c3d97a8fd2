//! Multi-way load balancing by an evolutionary algorithm: each weighted item
//! is assigned to one of `piles` destinations so that the heaviest and the
//! lightest destination differ as little as possible.
//!
//! An individual is a vector holding one destination index per item.
//! Probabilities are given in parts per million.
use vstd::prelude::*;
use rand::rngs::StdRng;

verus! {

#[verifier::external_type_specification]
#[verifier::external_body]
pub struct ExStdRng(rand::rngs::StdRng);

/// Probabilities are parts of this whole.
pub const PROB_SCALE: usize = 1_000_000;

/// Relies on rand's `SeedableRng::seed_from_u64`: a generator fixed by the seed.
#[verifier::external_body]
pub(crate) fn seeded_rng(seed: u64) -> StdRng {
    <StdRng as rand::SeedableRng>::seed_from_u64(seed)
}

/// Relies on rand's `Rng::gen_range`: a value drawn from `0..bound`. It panics
/// on an empty range, which `requires` rules out.
#[verifier::external_body]
fn draw_below(rng: &mut StdRng, bound: usize) -> (r: usize)
    requires
        bound > 0,
    ensures
        r < bound,
{
    rand::Rng::gen_range(rng, 0..bound)
}

/// Relies on rand's `seq::index::sample`: `amount` distinct indices drawn from
/// `0..length`, here two. It panics when `amount > length`, which `requires`
/// rules out.
#[verifier::external_body]
fn draw_distinct_pair(rng: &mut StdRng, length: usize) -> (r: Vec<usize>)
    requires
        length >= 2,
    ensures
        r@.len() == 2,
        r@[0] < length,
        r@[1] < length,
        r@[0] != r@[1],
{
    rand::seq::index::sample(rng, length, 2).into_vec()
}

/// Sum of the first `i` weights.
pub open spec fn prefix_sum(w: Seq<u32>, i: int) -> int
    decreases i,
{
    if i <= 0 {
        0
    } else {
        prefix_sum(w, i - 1) + w[i - 1]
    }
}

/// Sum of the first `i` weights whose item is assigned to `bin`.
pub open spec fn bin_total(w: Seq<u32>, ind: Seq<usize>, bin: int, i: int) -> int
    decreases i,
{
    if i <= 0 {
        0
    } else {
        bin_total(w, ind, bin, i - 1) + (if ind[i - 1] == bin {
            w[i - 1] as int
        } else {
            0
        })
    }
}

/// The load of every destination under `ind`.
pub open spec fn bin_totals(w: Seq<u32>, ind: Seq<usize>, piles: nat) -> Seq<int> {
    Seq::new(piles, |b: int| bin_total(w, ind, b, w.len() as int))
}

/// `r` is the spread of `totals`: its largest value minus its smallest.
pub open spec fn is_spread(totals: Seq<int>, r: int) -> bool {
    exists|a: int, b: int|
        0 <= a < totals.len() && 0 <= b < totals.len() && r == totals[a] - totals[b] && forall|j: int|
            0 <= j < totals.len() ==> totals[b] <= #[trigger] totals[j] <= totals[a]
}

/// The spread of `totals`, where it has one (it does when `totals` is not
/// empty).
pub open spec fn spread_of(totals: Seq<int>) -> int {
    choose|r: int| is_spread(totals, r)
}

/// A sequence has at most one spread.
pub proof fn lemma_spread_unique(totals: Seq<int>, r1: int, r2: int)
    requires
        is_spread(totals, r1),
        is_spread(totals, r2),
    ensures
        r1 == r2,
{
    let (a1, b1) = choose|a: int, b: int|
        0 <= a < totals.len() && 0 <= b < totals.len() && r1 == totals[a] - totals[b] && forall|j: int|
            0 <= j < totals.len() ==> totals[b] <= #[trigger] totals[j] <= totals[a];
    let (a2, b2) = choose|a: int, b: int|
        0 <= a < totals.len() && 0 <= b < totals.len() && r2 == totals[a] - totals[b] && forall|j: int|
            0 <= j < totals.len() ==> totals[b] <= #[trigger] totals[j] <= totals[a];
    assert(totals[a1] <= totals[a2] && totals[a2] <= totals[a1]);
    assert(totals[b1] <= totals[b2] && totals[b2] <= totals[b1]);
}

/// `ind` gives each of `n` items a destination below `piles`.
pub open spec fn feasible(ind: Seq<usize>, n: nat, piles: nat) -> bool {
    ind.len() == n && forall|i: int| 0 <= i < n ==> #[trigger] ind[i] < piles
}

pub proof fn lemma_prefix_sum_monotone(w: Seq<u32>, i: int, j: int)
    requires
        0 <= i <= j <= w.len(),
    ensures
        0 <= prefix_sum(w, i) <= prefix_sum(w, j),
    decreases j,
{
    if j > 0 {
        if i < j {
            lemma_prefix_sum_monotone(w, i, j - 1);
        } else {
            lemma_prefix_sum_monotone(w, i - 1, j - 1);
        }
    }
}

/// Every individual of `pop` is feasible.
pub open spec fn population_ok(pop: Seq<Vec<usize>>, n: nat, piles: nat) -> bool {
    forall|i: int| 0 <= i < pop.len() ==> feasible(#[trigger] pop[i]@, n, piles)
}

/// `x` won a binary tournament in `pop`: it is some individual whose
/// objective is no worse than that of another, distinct one.
pub open spec fn tournament_winner(pop: Seq<Vec<usize>>, objectives: Seq<u64>, x: Seq<usize>) -> bool {
    exists|a: int, b: int|
        0 <= a < pop.len() && 0 <= b < pop.len() && a != b && x == (#[trigger] pop[a])@
            && objectives[a] <= #[trigger] objectives[b]
}

/// `c1` and `c2` are the children of `p1` and `p2` cut at some point: each
/// takes its own parent's genes before the cut and the other's after it. A
/// cut at the end leaves both parents as they were.
pub open spec fn crossed(p1: Seq<usize>, p2: Seq<usize>, c1: Seq<usize>, c2: Seq<usize>) -> bool {
    &&& c1.len() == p1.len()
    &&& c2.len() == p1.len()
    &&& exists|cut: int| 0 <= cut <= p1.len() && #[trigger] cut_at(p1, p2, c1, c2, cut)
}

/// The children are cut strictly inside the parents: the cut falls below
/// their length.
pub open spec fn cut_below_end(p1: Seq<usize>, p2: Seq<usize>, c1: Seq<usize>, c2: Seq<usize>) -> bool {
    exists|cut: int| 0 <= cut < p1.len() && #[trigger] cut_at(p1, p2, c1, c2, cut)
}

/// Before `cut` each child holds its own parent's genes, from `cut` on the
/// other parent's.
pub open spec fn cut_at(p1: Seq<usize>, p2: Seq<usize>, c1: Seq<usize>, c2: Seq<usize>, cut: int) -> bool {
    forall|i: int|
        #![trigger c1[i]]
        #![trigger c2[i]]
        0 <= i < p1.len() ==> if i < cut {
            c1[i] == p1[i] && c2[i] == p2[i]
        } else {
            c1[i] == p2[i] && c2[i] == p1[i]
        }
}

/// `after` is `before` with some genes replaced by destinations below `piles`.
pub open spec fn mutated(before: Seq<usize>, after: Seq<usize>, piles: nat) -> bool {
    after.len() == before.len() && forall|i: int|
        0 <= i < before.len() ==> #[trigger] after[i] == before[i] || after[i] < piles
}

/// A copy of `v`.
fn copy_individual(v: &Vec<usize>) -> (r: Vec<usize>)
    ensures
        r@ == v@,
{
    let mut out: Vec<usize> = Vec::new();
    let mut i: usize = 0;
    while i < v.len()
        invariant
            i <= v.len(),
            out@ == v@.take(i as int),
        decreases v.len() - i,
    {
        out.push(v[i]);
        i = i + 1;
        assert(out@ =~= v@.take(i as int));
    }
    assert(v@.take(v.len() as int) =~= v@);
    out
}

/// A position of the least value; with `prefer_last` the last such
/// position, else the first.
pub fn min_position(values: &Vec<u64>, prefer_last: bool) -> (r: usize)
    requires
        values.len() > 0,
    ensures
        r < values.len(),
        forall|j: int| 0 <= j < values.len() ==> values@[r as int] <= #[trigger] values@[j],
        prefer_last ==> forall|j: int| r < j < values.len() ==> values@[r as int] < #[trigger] values@[j],
        !prefer_last ==> forall|j: int| 0 <= j < r ==> values@[r as int] < #[trigger] values@[j],
{
    let mut best: usize = 0;
    let mut j: usize = 1;
    while j < values.len()
        invariant
            1 <= j <= values.len(),
            best < j,
            forall|k: int| 0 <= k < j ==> values@[best as int] <= #[trigger] values@[k],
            prefer_last ==> forall|k: int| best < k < j ==> values@[best as int] < #[trigger] values@[k],
            !prefer_last ==> forall|k: int| 0 <= k < best ==> values@[best as int] < #[trigger] values@[k],
        decreases values.len() - j,
    {
        if values[j] < values[best] || (prefer_last && values[j] == values[best]) {
            best = j;
        }
        j = j + 1;
    }
    best
}

/// The children of `parent1` and `parent2` cut at `cut`: each keeps its own
/// parent's genes before the cut and takes the other's from it on.
pub fn cut_and_swap(parent1: &Vec<usize>, parent2: &Vec<usize>, cut: usize) -> (r: (Vec<usize>, Vec<usize>))
    requires
        parent1@.len() == parent2@.len(),
        cut <= parent1@.len(),
    ensures
        r.0@.len() == parent1@.len(),
        r.1@.len() == parent1@.len(),
        cut_at(parent1@, parent2@, r.0@, r.1@, cut as int),
{
    let len = parent1.len();
    let mut child1 = copy_individual(parent1);
    let mut child2 = copy_individual(parent2);
    let mut i: usize = cut;
    while i < len
        invariant
            len == parent1@.len(),
            len == parent2@.len(),
            cut <= i <= len,
            child1@.len() == len,
            child2@.len() == len,
            forall|k: int|
                0 <= k < len ==> if k < cut || k >= i {
                    #[trigger] child1@[k] == parent1@[k] && child2@[k] == parent2@[k]
                } else {
                    child1@[k] == parent2@[k] && child2@[k] == parent1@[k]
                },
        decreases len - i,
    {
        let ghost (b1, b2) = (child1@, child2@);
        child1.set(i, parent2[i]);
        child2.set(i, parent1[i]);
        proof {
            assert forall|k: int| 0 <= k < len implies if k < cut || k >= i + 1 {
                #[trigger] child1@[k] == parent1@[k] && child2@[k] == parent2@[k]
            } else {
                child1@[k] == parent2@[k] && child2@[k] == parent1@[k]
            } by {
                if k != i {
                    assert(child1@[k] == b1[k] && child2@[k] == b2[k]);
                }
            }
        }
        i = i + 1;
    }
    proof {
        assert(cut_at(parent1@, parent2@, child1@, child2@, cut as int));
    }
    (child1, child2)
}

/// `individual` with gene `i` replaced by `redraws[i]` where that holds a
/// value.
pub fn apply_redraws(individual: &mut Vec<usize>, redraws: &Vec<Option<usize>>)
    requires
        redraws@.len() == old(individual)@.len(),
    ensures
        final(individual)@.len() == old(individual)@.len(),
        forall|i: int|
            0 <= i < old(individual)@.len() ==> #[trigger] final(individual)@[i] == match redraws@[i] {
                Some(b) => b,
                None => old(individual)@[i],
            },
{
    let ghost before = individual@;
    let mut i: usize = 0;
    while i < individual.len()
        invariant
            redraws@.len() == before.len(),
            individual@.len() == before.len(),
            i <= before.len(),
            forall|k: int|
                0 <= k < before.len() ==> #[trigger] individual@[k] == if k < i {
                    match redraws@[k] {
                        Some(b) => b,
                        None => before[k],
                    }
                } else {
                    before[k]
                },
        decreases before.len() - i,
    {
        if let Some(b) = redraws[i] {
            individual.set(i, b);
        }
        i = i + 1;
    }
}

/// A draw that comes out true with `prob` parts per million.
fn chance(rng: &mut StdRng, prob: u32) -> (r: bool)
    ensures
        prob == 0 ==> !r,
        prob >= PROB_SCALE ==> r,
{
    draw_below(rng, PROB_SCALE) < prob as usize
}

/// Solver settings and the weights of the items to distribute.
#[derive(Debug, Clone)]
pub struct PartitioningProblem {
    /// Weights of the collected items.
    pub weights: Vec<u32>,
    /// Number of destinations.
    pub piles: usize,
    /// Population size.
    pub pop_size: usize,
    /// Generations per run.
    pub max_gen: u32,
    /// Chance that a pair is crossed over, in parts per million.
    pub cx_prob: u32,
    /// Chance that an individual is mutated, in parts per million.
    pub mut_prob: u32,
    /// Chance that a gene of a mutated individual is redrawn, in parts per
    /// million.
    pub mut_flip_prob: u32,
    /// Number of independent runs.
    pub repeats: u32,
}

impl PartitioningProblem {
    /// At least one destination, and destination loads that fit in 64 bits.
    pub open spec fn load_ok(&self) -> bool {
        &&& self.piles >= 1
        &&& prefix_sum(self.weights@, self.weights@.len() as int) <= u64::MAX
    }

    /// At least one destination, at least two individuals to compare, and
    /// destination loads that fit in 64 bits.
    pub open spec fn wf(&self) -> bool {
        &&& self.load_ok()
        &&& self.pop_size >= 2
    }

    pub fn new(
        weights: Vec<u32>,
        piles: usize,
        pop_size: usize,
        max_gen: u32,
        cx_prob: u32,
        mut_prob: u32,
        mut_flip_prob: u32,
        repeats: u32,
    ) -> (r: PartitioningProblem)
        ensures
            r.weights@ == weights@,
            r.piles == piles,
            r.pop_size == pop_size,
            r.max_gen == max_gen,
            r.cx_prob == cx_prob,
            r.mut_prob == mut_prob,
            r.mut_flip_prob == mut_flip_prob,
            r.repeats == repeats,
    {
        PartitioningProblem {
            weights,
            piles,
            pop_size,
            max_gen,
            cx_prob,
            mut_prob,
            mut_flip_prob,
            repeats,
        }
    }

    pub fn set_weights(&mut self, weights: Vec<u32>)
        ensures
            final(self).weights@ == weights@,
            final(self).piles == old(self).piles,
            final(self).pop_size == old(self).pop_size,
            final(self).max_gen == old(self).max_gen,
            final(self).cx_prob == old(self).cx_prob,
            final(self).mut_prob == old(self).mut_prob,
            final(self).mut_flip_prob == old(self).mut_flip_prob,
            final(self).repeats == old(self).repeats,
    {
        self.weights = weights;
    }

    /// Checks `wf`.
    pub fn is_well_formed(&self) -> (r: bool)
        ensures
            r == self.wf(),
    {
        if self.piles < 1 || self.pop_size < 2 {
            return false;
        }
        let mut total: u64 = 0;
        let mut i: usize = 0;
        while i < self.weights.len()
            invariant
                i <= self.weights.len(),
                total == prefix_sum(self.weights@, i as int),
            decreases self.weights.len() - i,
        {
            match total.checked_add(self.weights[i] as u64) {
                Some(t) => {
                    total = t;
                },
                None => {
                    proof {
                        lemma_prefix_sum_monotone(
                            self.weights@,
                            i as int + 1,
                            self.weights@.len() as int,
                        );
                    }
                    return false;
                },
            }
            i = i + 1;
        }
        true
    }

    /// The load of every destination under `bins_individual`.
    pub fn bin_weights(&self, bins_individual: &Vec<usize>) -> (r: Vec<u64>)
        requires
            self.load_ok(),
            feasible(bins_individual@, self.weights@.len(), self.piles as nat),
        ensures
            r@.len() == self.piles,
            forall|b: int|
                0 <= b < self.piles ==> r@[b] == #[trigger] bin_totals(
                    self.weights@,
                    bins_individual@,
                    self.piles as nat,
                )[b],
    {
        let n = self.weights.len();
        let mut totals: Vec<u64> = Vec::new();
        while totals.len() < self.piles
            invariant
                totals.len() <= self.piles,
                forall|b: int| 0 <= b < totals.len() ==> totals@[b] == 0,
            decreases self.piles - totals.len(),
        {
            totals.push(0);
        }
        let mut i: usize = 0;
        while i < n
            invariant
                self.load_ok(),
                n == self.weights@.len(),
                feasible(bins_individual@, n as nat, self.piles as nat),
                i <= n,
                totals@.len() == self.piles,
                forall|b: int|
                    0 <= b < self.piles ==> #[trigger] totals@[b] == bin_total(
                        self.weights@,
                        bins_individual@,
                        b,
                        i as int,
                    ) && totals@[b] <= prefix_sum(self.weights@, i as int),
            decreases n - i,
        {
            let b = bins_individual[i];
            let w = self.weights[i];
            proof {
                lemma_prefix_sum_monotone(self.weights@, i as int + 1, n as int);
                assert(totals@[b as int] <= prefix_sum(self.weights@, i as int));
            }
            let t = totals[b] + w as u64;
            totals.set(b, t);
            i = i + 1;
        }
        totals
    }

    /// The spread of `individual`: the heaviest destination's load minus the
    /// lightest one's.
    pub fn objective(&self, individual: &Vec<usize>) -> (r: u64)
        requires
            self.load_ok(),
            feasible(individual@, self.weights@.len(), self.piles as nat),
        ensures
            is_spread(bin_totals(self.weights@, individual@, self.piles as nat), r as int),
    {
        let totals = self.bin_weights(individual);
        let ghost t = bin_totals(self.weights@, individual@, self.piles as nat);
        let mut hi: usize = 0;
        let mut lo: usize = 0;
        let mut j: usize = 1;
        while j < totals.len()
            invariant
                totals@.len() == self.piles,
                self.piles >= 1,
                1 <= j <= totals@.len(),
                hi < j,
                lo < j,
                forall|k: int| 0 <= k < j ==> totals@[lo as int] <= #[trigger] totals@[k] <= totals@[hi as int],
            decreases totals@.len() - j,
        {
            if totals[j] > totals[hi] {
                hi = j;
            }
            if totals[j] < totals[lo] {
                lo = j;
            }
            j = j + 1;
        }
        proof {
            assert forall|k: int| 0 <= k < t.len() implies t[lo as int] <= #[trigger] t[k] <= t[hi as int] by {
                assert(totals@[k] == t[k]);
                assert(totals@[lo as int] == t[lo as int]);
                assert(totals@[hi as int] == t[hi as int]);
            }
            assert(totals@[lo as int] == t[lo as int]);
            assert(totals@[hi as int] == t[hi as int]);
            assert(0 <= hi < t.len() && 0 <= lo < t.len());
        }
        totals[hi] - totals[lo]
    }

    /// An individual of `ind_len` genes, each a destination drawn uniformly.
    pub fn create_individual(&self, rng: &mut StdRng, ind_len: usize) -> (r: Vec<usize>)
        requires
            self.piles >= 1,
        ensures
            feasible(r@, ind_len as nat, self.piles as nat),
    {
        let mut individual: Vec<usize> = Vec::new();
        let mut i: usize = 0;
        while i < ind_len
            invariant
                self.piles >= 1,
                i <= ind_len,
                individual@.len() == i,
                forall|k: int| 0 <= k < i ==> #[trigger] individual@[k] < self.piles,
            decreases ind_len - i,
        {
            let b = draw_below(rng, self.piles);
            individual.push(b);
            i = i + 1;
        }
        individual
    }

    /// `pop_size` random individuals of `ind_len` genes.
    pub fn create_population(&self, rng: &mut StdRng, ind_len: usize) -> (r: Vec<Vec<usize>>)
        requires
            self.piles >= 1,
        ensures
            r@.len() == self.pop_size,
            population_ok(r@, ind_len as nat, self.piles as nat),
    {
        let mut population: Vec<Vec<usize>> = Vec::new();
        let mut i: usize = 0;
        while i < self.pop_size
            invariant
                self.piles >= 1,
                i <= self.pop_size,
                population@.len() == i,
                population_ok(population@, ind_len as nat, self.piles as nat),
            decreases self.pop_size - i,
        {
            let ind = self.create_individual(rng, ind_len);
            population.push(ind);
            i = i + 1;
        }
        population
    }

    /// The objective of every individual of `population`.
    pub fn objectives(&self, population: &Vec<Vec<usize>>) -> (r: Vec<u64>)
        requires
            self.load_ok(),
            population_ok(population@, self.weights@.len(), self.piles as nat),
        ensures
            r@.len() == population@.len(),
            forall|i: int|
                0 <= i < population@.len() ==> is_spread(
                    bin_totals(self.weights@, population@[i]@, self.piles as nat),
                    #[trigger] r@[i] as int,
                ),
    {
        let mut out: Vec<u64> = Vec::new();
        let mut i: usize = 0;
        while i < population.len()
            invariant
                self.load_ok(),
                population_ok(population@, self.weights@.len(), self.piles as nat),
                i <= population@.len(),
                out@.len() == i,
                forall|k: int|
                    0 <= k < i ==> is_spread(
                        bin_totals(self.weights@, population@[k]@, self.piles as nat),
                        #[trigger] out@[k] as int,
                    ),
            decreases population@.len() - i,
        {
            let o = self.objective(&population[i]);
            out.push(o);
            i = i + 1;
        }
        out
    }

    /// `pop_size` binary tournaments: each draws two distinct individuals and
    /// keeps a copy of the one with the smaller spread (the second on a tie).
    pub fn tournament_selection(
        &self,
        rng: &mut StdRng,
        population: &Vec<Vec<usize>>,
        objectives: &Vec<u64>,
    ) -> (r: Vec<Vec<usize>>)
        requires
            population@.len() >= 2,
            objectives@.len() == population@.len(),
        ensures
            r@.len() == self.pop_size,
            forall|i: int|
                0 <= i < r@.len() ==> tournament_winner(population@, objectives@, #[trigger] r@[i]@),
    {
        let mut selected: Vec<Vec<usize>> = Vec::new();
        let mut i: usize = 0;
        while i < self.pop_size
            invariant
                population@.len() >= 2,
                objectives@.len() == population@.len(),
                i <= self.pop_size,
                selected@.len() == i,
                forall|k: int|
                    0 <= k < i ==> tournament_winner(population@, objectives@, #[trigger] selected@[k]@),
            decreases self.pop_size - i,
        {
            let v = draw_distinct_pair(rng, population.len());
            let (a, b) = (v[0], v[1]);
            let winner = if objectives[a] < objectives[b] {
                a
            } else {
                b
            };
            let loser = if winner == a {
                b
            } else {
                a
            };
            let c = copy_individual(&population[winner]);
            proof {
                assert(c@ == population@[winner as int]@);
                assert(tournament_winner(population@, objectives@, c@));
            }
            selected.push(c);
            i = i + 1;
        }
        selected
    }

    /// One-point crossover: a cut drawn uniformly, the genes from the cut on
    /// swapped between the two children.
    pub fn one_point_crossover(&self, rng: &mut StdRng, parent1: &Vec<usize>, parent2: &Vec<usize>) -> (r: (
        Vec<usize>,
        Vec<usize>,
    ))
        requires
            parent1@.len() == parent2@.len(),
        ensures
            crossed(parent1@, parent2@, r.0@, r.1@),
            parent1@.len() > 0 ==> cut_below_end(parent1@, parent2@, r.0@, r.1@),
    {
        let len = parent1.len();
        if len == 0 {
            let r = cut_and_swap(parent1, parent2, 0);
            return r;
        }
        let cut = draw_below(rng, len);
        cut_and_swap(parent1, parent2, cut)
    }

    /// Redraws each gene with chance `mut_flip_prob`.
    pub fn flip_mutate(&self, rng: &mut StdRng, individual: &mut Vec<usize>)
        requires
            self.piles >= 1,
        ensures
            mutated(old(individual)@, final(individual)@, self.piles as nat),
            self.mut_flip_prob == 0 ==> final(individual)@ == old(individual)@,
    {
        let len = individual.len();
        let mut redraws: Vec<Option<usize>> = Vec::new();
        let mut i: usize = 0;
        while i < len
            invariant
                self.piles >= 1,
                i <= len,
                redraws@.len() == i,
                forall|k: int| 0 <= k < i ==> (#[trigger] redraws@[k] matches Some(b) ==> b < self.piles),
                self.mut_flip_prob == 0 ==> forall|k: int| 0 <= k < i ==> #[trigger] redraws@[k] is None,
            decreases len - i,
        {
            if chance(rng, self.mut_flip_prob) {
                let b = draw_below(rng, self.piles);
                redraws.push(Some(b));
            } else {
                redraws.push(None);
            }
            i = i + 1;
        }
        let ghost before = individual@;
        apply_redraws(individual, &redraws);
        proof {
            if self.mut_flip_prob == 0 {
                assert(individual@ =~= before);
            }
            assert forall|k: int| 0 <= k < len implies #[trigger] individual@[k] == before[k]
                || individual@[k] < self.piles by {
                assert(redraws@[k] matches Some(b) ==> b < self.piles);
            }
        }
    }

    /// Pairs the individuals in order (first with second, third with
    /// fourth, ...) and crosses each pair over with chance `cx_prob`; an odd
    /// last individual passes unchanged.
    pub fn crossover(&self, rng: &mut StdRng, population: &Vec<Vec<usize>>) -> (r: Vec<Vec<usize>>)
        requires
            population_ok(population@, self.weights@.len(), self.piles as nat),
        ensures
            r@.len() == population@.len(),
            population_ok(r@, self.weights@.len(), self.piles as nat),
            forall|k: int|
                0 <= k && 2 * k + 1 < population@.len() ==> crossed(
                    population@[2 * k]@,
                    population@[2 * k + 1]@,
                    #[trigger] r@[2 * k]@,
                    r@[2 * k + 1]@,
                ),
            population@.len() % 2 == 1 ==> r@.last()@ == population@.last()@,
            self.cx_prob == 0 ==> forall|i: int|
                0 <= i < population@.len() ==> #[trigger] r@[i]@ == population@[i]@,
            self.cx_prob >= PROB_SCALE && self.weights@.len() > 0 ==> forall|k: int|
                0 <= k && 2 * k + 1 < population@.len() ==> cut_below_end(
                    population@[2 * k]@,
                    population@[2 * k + 1]@,
                    #[trigger] r@[2 * k]@,
                    r@[2 * k + 1]@,
                ),
    {
        let n = population.len();
        let ghost nw = self.weights@.len();
        let ghost piles = self.piles as nat;
        let mut offsprings: Vec<Vec<usize>> = Vec::new();
        let mut i: usize = 0;
        while i + 1 < n
            invariant
                n == population@.len(),
                population_ok(population@, nw, piles),
                i <= n,
                i % 2 == 0,
                offsprings@.len() == i,
                population_ok(offsprings@, nw, piles),
                forall|k: int|
                    0 <= k && 2 * k + 1 < i ==> crossed(
                        population@[2 * k]@,
                        population@[2 * k + 1]@,
                        #[trigger] offsprings@[2 * k]@,
                        offsprings@[2 * k + 1]@,
                    ),
                self.cx_prob == 0 ==> forall|j: int| 0 <= j < i ==> #[trigger] offsprings@[j]@ == population@[j]@,
                self.cx_prob >= PROB_SCALE && nw > 0 ==> forall|k: int|
                    0 <= k && 2 * k + 1 < i ==> cut_below_end(
                        population@[2 * k]@,
                        population@[2 * k + 1]@,
                        #[trigger] offsprings@[2 * k]@,
                        offsprings@[2 * k + 1]@,
                    ),
            decreases n - i,
        {
            let p1 = &population[i];
            let p2 = &population[i + 1];
            assert(feasible(population@[i as int]@, nw, piles));
            assert(feasible(population@[i + 1]@, nw, piles));
            let (c1, c2) = if chance(rng, self.cx_prob) {
                self.one_point_crossover(rng, p1, p2)
            } else {
                let c1 = copy_individual(p1);
                let c2 = copy_individual(p2);
                proof {
                    assert(cut_at(p1@, p2@, c1@, c2@, p1@.len() as int));
                }
                (c1, c2)
            };
            proof {
                let cut = choose|cut: int|
                    0 <= cut <= p1@.len() && #[trigger] cut_at(p1@, p2@, c1@, c2@, cut);
                assert forall|j: int| 0 <= j < nw implies #[trigger] c1@[j] < piles by {
                    assert(c1@[j] == p1@[j] || c1@[j] == p2@[j]);
                }
                assert forall|j: int| 0 <= j < nw implies #[trigger] c2@[j] < piles by {
                    assert(c2@[j] == p1@[j] || c2@[j] == p2@[j]);
                }
            }
            let ghost before = offsprings@;
            offsprings.push(c1);
            offsprings.push(c2);
            proof {
                assert forall|k: int|
                    0 <= k && 2 * k + 1 < i + 2 implies crossed(
                    population@[2 * k]@,
                    population@[2 * k + 1]@,
                    #[trigger] offsprings@[2 * k]@,
                    offsprings@[2 * k + 1]@,
                ) by {
                    if 2 * k + 1 < i {
                        assert(offsprings@[2 * k] == before[2 * k]);
                        assert(offsprings@[2 * k + 1] == before[2 * k + 1]);
                    } else {
                        assert(2 * k == i);
                    }
                }
                assert forall|k: int| 0 <= k < offsprings@.len() implies feasible(
                    #[trigger] offsprings@[k]@,
                    nw,
                    piles,
                ) by {
                    if k < i {
                        assert(offsprings@[k] == before[k]);
                    }
                }
            }
            i = i + 2;
        }
        if i < n {
            let last = copy_individual(&population[i]);
            let ghost before = offsprings@;
            offsprings.push(last);
            proof {
                assert(i == n - 1);
                assert forall|k: int|
                    0 <= k && 2 * k + 1 < n implies crossed(
                    population@[2 * k]@,
                    population@[2 * k + 1]@,
                    #[trigger] offsprings@[2 * k]@,
                    offsprings@[2 * k + 1]@,
                ) by {
                    assert(offsprings@[2 * k] == before[2 * k]);
                    assert(offsprings@[2 * k + 1] == before[2 * k + 1]);
                }
                assert forall|k: int| 0 <= k < offsprings@.len() implies feasible(
                    #[trigger] offsprings@[k]@,
                    nw,
                    piles,
                ) by {
                    if k < i {
                        assert(offsprings@[k] == before[k]);
                    }
                }
            }
        }
        offsprings
    }

    /// Mutates each individual, with chance `mut_prob`, by `flip_mutate`.
    pub fn mutate(&self, rng: &mut StdRng, population: &mut Vec<Vec<usize>>)
        requires
            self.piles >= 1,
        ensures
            final(population)@.len() == old(population)@.len(),
            forall|i: int|
                0 <= i < old(population)@.len() ==> mutated(
                    old(population)@[i]@,
                    #[trigger] final(population)@[i]@,
                    self.piles as nat,
                ),
            self.mut_prob == 0 || self.mut_flip_prob == 0 ==> forall|i: int|
                0 <= i < old(population)@.len() ==> #[trigger] final(population)@[i]@ == old(
                    population,
                )@[i]@,
    {
        let n = population.len();
        let mut out: Vec<Vec<usize>> = Vec::new();
        let mut i: usize = 0;
        while i < n
            invariant
                self.piles >= 1,
                n == population@.len(),
                i <= n,
                out@.len() == i,
                forall|k: int|
                    0 <= k < i ==> mutated(population@[k]@, #[trigger] out@[k]@, self.piles as nat),
                self.mut_prob == 0 || self.mut_flip_prob == 0 ==> forall|k: int|
                    0 <= k < i ==> #[trigger] out@[k]@ == population@[k]@,
            decreases n - i,
        {
            let mut ind = copy_individual(&population[i]);
            if chance(rng, self.mut_prob) {
                self.flip_mutate(rng, &mut ind);
            }
            proof {
                assert(mutated(population@[i as int]@, ind@, self.piles as nat));
            }
            out.push(ind);
            i = i + 1;
        }
        *population = out;
    }

    /// Crossover, then mutation.
    pub fn mate(&self, rng: &mut StdRng, population: &Vec<Vec<usize>>) -> (r: Vec<Vec<usize>>)
        requires
            self.piles >= 1,
            population_ok(population@, self.weights@.len(), self.piles as nat),
        ensures
            r@.len() == population@.len(),
            population_ok(r@, self.weights@.len(), self.piles as nat),
            self.cx_prob == 0 && (self.mut_prob == 0 || self.mut_flip_prob == 0) ==> forall|i: int|
                0 <= i < population@.len() ==> #[trigger] r@[i]@ == population@[i]@,
    {
        let mut new_population = self.crossover(rng, population);
        let ghost crossed_pop = new_population@;
        self.mutate(rng, &mut new_population);
        proof {
            assert forall|i: int| 0 <= i < new_population@.len() implies feasible(
                #[trigger] new_population@[i]@,
                self.weights@.len(),
                self.piles as nat,
            ) by {
                assert(mutated(crossed_pop[i]@, new_population@[i]@, self.piles as nat));
                assert(feasible(crossed_pop[i]@, self.weights@.len(), self.piles as nat));
                assert forall|j: int| 0 <= j < self.weights@.len() implies #[trigger] new_population@[i]@[j]
                    < self.piles by {
                    assert(crossed_pop[i]@[j] < self.piles);
                }
            }
        }
        new_population
    }

    /// `max_gen` generations of selection, crossover and mutation, each new
    /// population replacing the old one.
    pub fn evolutionary_algo_run(&self, rng: &mut StdRng, population: Vec<Vec<usize>>) -> (r: Vec<
        Vec<usize>,
    >)
        requires
            self.wf(),
            population@.len() == self.pop_size,
            population_ok(population@, self.weights@.len(), self.piles as nat),
        ensures
            r@.len() == self.pop_size,
            population_ok(r@, self.weights@.len(), self.piles as nat),
            self.max_gen == 0 ==> r@ == population@,
            self.max_gen > 0 && self.cx_prob == 0 && self.mut_prob == 0 ==> exists|
                prev: Seq<Vec<usize>>,
            |
                #[trigger] population_ok(prev, self.weights@.len(), self.piles as nat) && prev.len()
                    == self.pop_size && forall|i: int|
                    0 <= i < r@.len() ==> self.spread_winner(prev, #[trigger] r@[i]@),
    {
        let ghost initial = population@;
        let mut population = population;
        let ghost mut prev: Seq<Vec<usize>> = population@;
        let mut generation: u32 = 0;
        while generation < self.max_gen
            invariant
                self.wf(),
                population@.len() == self.pop_size,
                population_ok(population@, self.weights@.len(), self.piles as nat),
                generation <= self.max_gen,
                generation == 0 ==> population@ == initial,
                generation > 0 && self.cx_prob == 0 && self.mut_prob == 0 ==> {
                    &&& population_ok(prev, self.weights@.len(), self.piles as nat)
                    &&& prev.len() == self.pop_size
                    &&& forall|i: int|
                        0 <= i < population@.len() ==> self.spread_winner(prev, #[trigger] population@[i]@)
                },
            decreases self.max_gen - generation,
        {
            proof {
                prev = population@;
            }
            let objectives = self.objectives(&population);
            proof {
                self.lemma_objectives_are_spreads(population@, objectives@);
            }
            let mating_pool = self.tournament_selection(rng, &population, &objectives);
            proof {
                assert forall|i: int| 0 <= i < mating_pool@.len() implies feasible(
                    #[trigger] mating_pool@[i]@,
                    self.weights@.len(),
                    self.piles as nat,
                ) by {
                    assert(tournament_winner(population@, objectives@, mating_pool@[i]@));
                    let (a, b) = choose|a: int, b: int|
                        0 <= a < population@.len() && 0 <= b < population@.len() && a != b
                            && mating_pool@[i]@ == (#[trigger] population@[a])@ && objectives@[a]
                            <= #[trigger] objectives@[b];
                    assert(feasible(population@[a]@, self.weights@.len(), self.piles as nat));
                }
            }
            let ghost pool = mating_pool@;
            population = self.mate(rng, &mating_pool);
            proof {
                if self.cx_prob == 0 && self.mut_prob == 0 {
                    assert forall|i: int| 0 <= i < population@.len() implies self.spread_winner(
                        prev,
                        #[trigger] population@[i]@,
                    ) by {
                        assert(population@[i]@ == pool[i]@);
                        assert(tournament_winner(prev, objectives@, pool[i]@));
                        let (a, b) = choose|a: int, b: int|
                            0 <= a < prev.len() && 0 <= b < prev.len() && a != b && pool[i]@ == (
                            #[trigger] prev[a])@ && objectives@[a] <= #[trigger] objectives@[b];
                        assert(self.spread(prev[a]@) == objectives@[a]);
                        assert(self.spread(prev[b]@) == objectives@[b]);
                    }
                }
            }
            generation = generation + 1;
        }
        population
    }

    /// Runs the algorithm `repeats` times from fresh random populations and
    /// returns the best individual over the final populations of all runs,
    /// as `best_across_runs` picks it. The runs are random, so what holds of
    /// every outcome is that the result is feasible.
    pub fn main_exec(&self, rng: &mut StdRng) -> (r: Vec<usize>)
        requires
            self.wf(),
            self.repeats >= 1,
        ensures
            feasible(r@, self.weights@.len(), self.piles as nat),
    {
        let n = self.weights.len();
        let mut finals: Vec<Vec<Vec<usize>>> = Vec::new();
        let mut run: u32 = 0;
        while run < self.repeats
            invariant
                self.wf(),
                n == self.weights@.len(),
                run <= self.repeats,
                finals@.len() == run,
                forall|k: int|
                    0 <= k < finals@.len() ==> (#[trigger] finals@[k])@.len() > 0 && population_ok(
                        finals@[k]@,
                        n as nat,
                        self.piles as nat,
                    ),
            decreases self.repeats - run,
        {
            let population = self.create_population(rng, n);
            let population = self.evolutionary_algo_run(rng, population);
            let ghost before = finals@;
            finals.push(population);
            proof {
                assert forall|k: int| 0 <= k < finals@.len() implies (#[trigger] finals@[k])@.len() > 0
                    && population_ok(finals@[k]@, n as nat, self.piles as nat) by {
                    if k < run {
                        assert(finals@[k] == before[k]);
                    }
                }
            }
            run = run + 1;
        }
        self.best_across_runs(&finals)
    }

    /// The spread of individual `ind` under this problem's weights.
    pub open spec fn spread(&self, ind: Seq<usize>) -> int {
        spread_of(bin_totals(self.weights@, ind, self.piles as nat))
    }

    /// `x` won a binary tournament in `pop` by spread: it is some individual
    /// whose spread is no larger than that of another, distinct one.
    pub open spec fn spread_winner(&self, pop: Seq<Vec<usize>>, x: Seq<usize>) -> bool {
        exists|a: int, b: int|
            0 <= a < pop.len() && 0 <= b < pop.len() && a != b && x == (#[trigger] pop[a])@
                && self.spread(pop[a]@) <= #[trigger] self.spread(pop[b]@)
    }

    /// The objectives computed for `population` are its spreads.
    proof fn lemma_objectives_are_spreads(&self, population: Seq<Vec<usize>>, objectives: Seq<u64>)
        requires
            objectives.len() == population.len(),
            forall|i: int|
                0 <= i < population.len() ==> is_spread(
                    bin_totals(self.weights@, population[i]@, self.piles as nat),
                    #[trigger] objectives[i] as int,
                ),
        ensures
            forall|i: int|
                0 <= i < population.len() ==> self.spread(#[trigger] population[i]@)
                    == objectives[i],
    {
        assert forall|i: int| 0 <= i < population.len() implies self.spread(
            #[trigger] population[i]@,
        ) == objectives[i] by {
            let t = bin_totals(self.weights@, population[i]@, self.piles as nat);
            assert(is_spread(t, objectives[i] as int));
            lemma_spread_unique(t, spread_of(t), objectives[i] as int);
        }
    }

    /// `b` is individual `i` of `run`, which has the smallest spread in the
    /// run, the last such.
    #[verifier::opaque]
    pub open spec fn run_best(&self, run: Seq<Vec<usize>>, i: int, b: Seq<usize>) -> bool {
        &&& 0 <= i < run.len()
        &&& b == run[i]@
        &&& forall|j: int| 0 <= j < run.len() ==> self.spread(b) <= #[trigger] self.spread(run[j]@)
        &&& forall|j: int| i < j < run.len() ==> self.spread(b) < #[trigger] self.spread(run[j]@)
    }

    /// The individual with the smallest spread over the final populations of
    /// several runs: within a run the last such, across runs the earliest
    /// run's.
    pub fn best_across_runs(&self, finals: &Vec<Vec<Vec<usize>>>) -> (r: Vec<usize>)
        requires
            self.load_ok(),
            finals@.len() > 0,
            forall|k: int|
                0 <= k < finals@.len() ==> (#[trigger] finals@[k])@.len() > 0 && population_ok(
                    finals@[k]@,
                    self.weights@.len(),
                    self.piles as nat,
                ),
        ensures
            feasible(r@, self.weights@.len(), self.piles as nat),
            exists|k: int, i: int|
                {
                    &&& 0 <= k < finals@.len()
                    &&& #[trigger] self.run_best(finals@[k]@, i, r@)
                    &&& forall|k2: int, j: int|
                        0 <= k2 < finals@.len() && 0 <= j < finals@[k2]@.len() ==> self.spread(r@)
                            <= #[trigger] self.spread(finals@[k2]@[j]@)
                    &&& forall|k2: int, j: int|
                        0 <= k2 < k && 0 <= j < finals@[k2]@.len() ==> self.spread(r@)
                            < #[trigger] self.spread(finals@[k2]@[j]@)
                },
    {
        let mut bests: Vec<Vec<usize>> = Vec::new();
        let ghost mut idx: Seq<int> = Seq::empty();
        let mut k: usize = 0;
        while k < finals.len()
            invariant
                self.load_ok(),
                k <= finals@.len(),
                forall|k: int|
                    0 <= k < finals@.len() ==> (#[trigger] finals@[k])@.len() > 0 && population_ok(
                        finals@[k]@,
                        self.weights@.len(),
                        self.piles as nat,
                    ),
                bests@.len() == k,
                idx.len() == k,
                population_ok(bests@, self.weights@.len(), self.piles as nat),
                forall|q: int| 0 <= q < k ==> #[trigger] self.run_best(finals@[q]@, idx[q], bests@[q]@),
            decreases finals@.len() - k,
        {
            assert(finals@[k as int]@.len() > 0);
            let b = self.best_individual(&finals[k], true);
            let ghost run = finals@[k as int]@;
            let ghost i = choose|i: int|
                {
                    &&& 0 <= i < run.len()
                    &&& b@ == (#[trigger] run[i])@
                    &&& forall|j: int| 0 <= j < run.len() ==> self.spread(run[i]@) <= self.spread(
                        #[trigger] run[j]@,
                    )
                    &&& forall|j: int|
                        i < j < run.len() ==> self.spread(run[i]@) < self.spread(#[trigger] run[j]@)
                };
            proof {
                reveal(PartitioningProblem::run_best);
                assert(self.run_best(run, i, b@));
            }
            let ghost before = bests@;
            bests.push(b);
            proof {
                idx = idx.push(i);
                assert forall|q: int| 0 <= q < bests@.len() implies feasible(
                    #[trigger] bests@[q]@,
                    self.weights@.len(),
                    self.piles as nat,
                ) by {
                    if q < k {
                        assert(bests@[q] == before[q]);
                    }
                }
                assert forall|q: int| 0 <= q < k + 1 implies #[trigger] self.run_best(
                    finals@[q]@,
                    idx[q],
                    bests@[q]@,
                ) by {
                    if q < k {
                        assert(bests@[q] == before[q]);
                    }
                }
            }
            k = k + 1;
        }
        let r = self.best_individual(&bests, false);
        proof {
            let kk = choose|kk: int|
                {
                    &&& 0 <= kk < bests@.len()
                    &&& r@ == (#[trigger] bests@[kk])@
                    &&& forall|j: int|
                        0 <= j < bests@.len() ==> self.spread(bests@[kk]@) <= self.spread(
                            #[trigger] bests@[j]@,
                        )
                    &&& forall|j: int|
                        0 <= j < kk ==> self.spread(bests@[kk]@) < self.spread(#[trigger] bests@[j]@)
                };
            assert(self.run_best(finals@[kk]@, idx[kk], bests@[kk]@));
            assert forall|k2: int, j: int|
                0 <= k2 < finals@.len() && 0 <= j < finals@[k2]@.len() implies self.spread(r@)
                <= #[trigger] self.spread(finals@[k2]@[j]@) by {
                assert(self.run_best(finals@[k2]@, idx[k2], bests@[k2]@));
                reveal(PartitioningProblem::run_best);
                assert(self.spread(bests@[kk]@) <= self.spread(bests@[k2]@));
            }
            assert forall|k2: int, j: int|
                0 <= k2 < kk && 0 <= j < finals@[k2]@.len() implies self.spread(r@)
                < #[trigger] self.spread(finals@[k2]@[j]@) by {
                assert(self.run_best(finals@[k2]@, idx[k2], bests@[k2]@));
                reveal(PartitioningProblem::run_best);
                assert(self.spread(bests@[kk]@) < self.spread(bests@[k2]@));
            }
            assert(r@ == bests@[kk]@);
        }
        r
    }

    /// A copy of the individual of `population` with the smallest spread:
    /// the last such with `prefer_last`, else the first.
    pub fn best_individual(&self, population: &Vec<Vec<usize>>, prefer_last: bool) -> (r: Vec<usize>)
        requires
            self.load_ok(),
            population@.len() > 0,
            population_ok(population@, self.weights@.len(), self.piles as nat),
        ensures
            exists|k: int|
                {
                    &&& 0 <= k < population@.len()
                    &&& r@ == (#[trigger] population@[k])@
                    &&& forall|j: int|
                        0 <= j < population@.len() ==> self.spread(population@[k]@) <= self.spread(
                            #[trigger] population@[j]@,
                        )
                    &&& prefer_last ==> forall|j: int|
                        k < j < population@.len() ==> self.spread(population@[k]@) < self.spread(
                            #[trigger] population@[j]@,
                        )
                    &&& !prefer_last ==> forall|j: int|
                        0 <= j < k ==> self.spread(population@[k]@) < self.spread(
                            #[trigger] population@[j]@,
                        )
                },
            feasible(r@, self.weights@.len(), self.piles as nat),
    {
        let objectives = self.objectives(population);
        proof {
            assert forall|i: int| 0 <= i < population@.len() implies self.spread(
                #[trigger] population@[i]@,
            ) == objectives@[i] by {
                let t = bin_totals(self.weights@, population@[i]@, self.piles as nat);
                assert(is_spread(t, objectives@[i] as int));
                lemma_spread_unique(t, spread_of(t), objectives@[i] as int);
            }
        }
        let k = min_position(&objectives, prefer_last);
        let best = copy_individual(&population[k]);
        proof {
            assert(population@[k as int]@ == best@);
            assert(feasible(population@[k as int]@, self.weights@.len(), self.piles as nat));
        }
        best
    }

    /// `main_exec` with a generator seeded by `seed`, so that a run can be
    /// repeated.
    pub fn solve(&self, seed: u64) -> (r: Vec<usize>)
        requires
            self.wf(),
            self.repeats >= 1,
        ensures
            feasible(r@, self.weights@.len(), self.piles as nat),
    {
        let mut rng = seeded_rng(seed);
        self.main_exec(&mut rng)
    }
}

} // verus!
