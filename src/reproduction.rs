use crate::operators::{is_mutation_of, make_offspring, mutate};
use crate::permutation::{is_permutation, lemma_same_multiset_permutation};
use crate::random::{probability, draw_below};
use rand::rngs::StdRng;
use vstd::prelude::*;

verus! {

/// Size that each new generation reaches (it may overshoot within a pass).
pub const TARGET_POPULATION: usize = 100;

/// Number of best survivors copied first into the next generation.
pub const ELITE_COUNT: usize = 11;

/// Percent probability that a survivor is copied again during a pass.
pub const CLONE_PERCENT: u64 = 1;

/// Percent probability that a survivor breeds with a later one during a pass.
pub const BREED_PERCENT: u64 = 20;

/// Bound on the number of random passes. Each pass adds an individual with
/// probability at least 1%, so the bound is never reached in practice; it
/// makes the construction provably finite, and should it ever be reached the
/// generation is completed with copies of the best survivor.
pub const MAX_PASSES: u64 = 1_000_000;

/// Every solution of `pop` is a permutation of `0..n`.
pub open spec fn all_permutations(pop: Seq<Vec<i64>>, n: int) -> bool {
    forall|k: int| 0 <= k < pop.len() ==> is_permutation(#[trigger] pop[k]@, n)
}

/// A copy of a solution.
pub fn copy_solution(v: &Vec<i64>) -> (r: Vec<i64>)
    ensures
        r@ == v@,
{
    let mut r: Vec<i64> = Vec::new();
    let mut k: usize = 0;
    while k < v.len()
        invariant
            k <= v@.len(),
            r@ =~= v@.take(k as int),
        decreases v@.len() - k,
    {
        r.push(v[k]);
        k += 1;
    }
    assert(v@.take(k as int) =~= v@);
    r
}

/// Builds the next generation from the survivors, best first: the first
/// eleven are copied as they are; then passes over the survivors copy each
/// with probability 1% and, with probability 20%, add an offspring of it and
/// a uniformly chosen later survivor, until there are at least 100; finally
/// every individual is mutated.
pub fn generate_new_population(survivors: &Vec<Vec<i64>>, rng: &mut StdRng) -> (r: Vec<Vec<i64>>)
    requires
        survivors@.len() > 0,
        all_permutations(survivors@, survivors@[0]@.len() as int),
        2 * survivors@[0]@.len() <= usize::MAX,
    ensures
        r@.len() >= TARGET_POPULATION,
        all_permutations(r@, survivors@[0]@.len() as int),
        forall|k: int|
            0 <= k < survivors@.len() && k < ELITE_COUNT ==> is_mutation_of(
                #[trigger] r@[k]@,
                survivors@[k]@,
            ),
{
    let n: usize = survivors.len();
    let ghost m: int = survivors@[0]@.len() as int;
    let mut result: Vec<Vec<i64>> = Vec::new();
    let mut i: usize = 0;
    while i < n && i < ELITE_COUNT
        invariant
            n == survivors@.len(),
            all_permutations(survivors@, m),
            i <= n,
            i <= ELITE_COUNT,
            result@.len() == i,
            forall|k: int| 0 <= k < i ==> (#[trigger] result@[k])@ == survivors@[k]@,
            all_permutations(result@, m),
        decreases n - i,
    {
        let copy = copy_solution(&survivors[i]);
        assert(is_permutation(survivors@[i as int]@, m));
        result.push(copy);
        i += 1;
    }
    let elites: usize = i;
    assert(elites == n || elites == ELITE_COUNT);
    let mut passes: u64 = 0;
    while result.len() < TARGET_POPULATION && passes < MAX_PASSES
        invariant
            n == survivors@.len(),
            n > 0,
            2 * m <= usize::MAX,
            all_permutations(survivors@, m),
            all_permutations(result@, m),
            elites <= n && elites <= ELITE_COUNT && (elites == n || elites == ELITE_COUNT),
            elites <= result@.len(),
            forall|k: int| 0 <= k < elites ==> (#[trigger] result@[k])@ == survivors@[k]@,
        decreases MAX_PASSES - passes,
    {
        let mut i: usize = 0;
        while i < n
            invariant
                n == survivors@.len(),
                2 * m <= usize::MAX,
                all_permutations(survivors@, m),
                i <= n,
                all_permutations(result@, m),
                elites <= result@.len(),
                forall|k: int| 0 <= k < elites ==> (#[trigger] result@[k])@ == survivors@[k]@,
            decreases n - i,
        {
            assert(is_permutation(survivors@[i as int]@, m));
            if probability(rng, CLONE_PERCENT) {
                let copy = copy_solution(&survivors[i]);
                result.push(copy);
            }
            if probability(rng, BREED_PERCENT) && i + 1 < n {
                let offset: u64 = draw_below(rng, (n - i - 1) as u64);
                let j: usize = i + 1 + offset as usize;
                assert(is_permutation(survivors@[j as int]@, m));
                let child = make_offspring(&survivors[i], &survivors[j], rng);
                result.push(child);
            }
            i += 1;
        }
        passes += 1;
    }
    while result.len() < TARGET_POPULATION
        invariant
            n == survivors@.len(),
            n > 0,
            all_permutations(survivors@, m),
            all_permutations(result@, m),
            elites <= result@.len(),
            forall|k: int| 0 <= k < elites ==> (#[trigger] result@[k])@ == survivors@[k]@,
        decreases TARGET_POPULATION - result@.len(),
    {
        assert(is_permutation(survivors@[0]@, m));
        let copy = copy_solution(&survivors[0]);
        result.push(copy);
    }
    let total: usize = result.len();
    let mut k: usize = 0;
    while k < total
        invariant
            total == result@.len(),
            total >= TARGET_POPULATION,
            k <= total,
            all_permutations(result@, m),
            elites <= total,
            elites <= n && elites <= ELITE_COUNT && (elites == n || elites == ELITE_COUNT),
            n == survivors@.len(),
            forall|e: int| 0 <= e < elites && e < k ==> is_mutation_of(#[trigger] result@[e]@, survivors@[e]@),
            forall|e: int| k <= e < elites ==> (#[trigger] result@[e])@ == survivors@[e]@,
        decreases total - k,
    {
        let ghost before = result@[k as int]@;
        assert(is_permutation(before, m));
        mutate(&mut result[k], rng);
        proof {
            lemma_same_multiset_permutation(result@[k as int]@, before, m);
        }
        k += 1;
    }
    result
}

} // verus!
