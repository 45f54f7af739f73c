use crate::types::{benefits_nonneg, lemma_total_benefit_prefix, total_benefit, valid_items, Item};
use vstd::prelude::*;

verus! {

/// Statistics of a run: the best solution found so far and when it was found.
pub struct Stats {
    /// Sum of all item benefits: the score of a perfect packing.
    pub max_possible_score: i64,
    pub total_generations: i64,
    pub optimal_best_score: i64,
    /// Digest of `optimal_solution`, for display.
    pub optimal_hash: String,
    pub optimal_wasted: i64,
    /// Generations in which a strictly better score was found.
    pub optimal_found_gens: Vec<i64>,
    pub optimal_solution: Vec<i64>,
}

impl Stats {
    pub fn new() -> (r: Stats)
        ensures
            r.max_possible_score == 0,
            r.total_generations == 0,
            r.optimal_best_score == 0,
            r.optimal_hash@ == Seq::<char>::empty(),
            r.optimal_wasted == 0,
            r.optimal_found_gens@ == Seq::<i64>::empty(),
            r.optimal_solution@ == Seq::<i64>::empty(),
    {
        Stats {
            max_possible_score: 0,
            total_generations: 0,
            optimal_best_score: 0,
            optimal_hash: String::new(),
            optimal_wasted: 0,
            optimal_found_gens: Vec::new(),
            optimal_solution: Vec::new(),
        }
    }

    /// Records the sum of the benefits of `items` as the maximum possible score.
    pub fn initialize(&mut self, items: &Vec<Item>)
        requires
            valid_items(items@),
        ensures
            final(self).max_possible_score == total_benefit(items@),
            final(self).total_generations == old(self).total_generations,
            final(self).optimal_best_score == old(self).optimal_best_score,
            final(self).optimal_hash == old(self).optimal_hash,
            final(self).optimal_wasted == old(self).optimal_wasted,
            final(self).optimal_found_gens == old(self).optimal_found_gens,
            final(self).optimal_solution == old(self).optimal_solution,
    {
        let mut max_possible_score: i64 = 0;
        let mut k: usize = 0;
        assert(benefits_nonneg(items@)) by {
            assert forall|j: int| 0 <= j < items@.len() implies (#[trigger] items@[j]).benefit >= 0 by {
                assert(items@[j].valid());
            }
        }
        proof {
            lemma_total_benefit_prefix(items@, 0);
        }
        while k < items.len()
            invariant
                valid_items(items@),
                benefits_nonneg(items@),
                k <= items@.len(),
                max_possible_score == total_benefit(items@.take(k as int)),
            decreases items@.len() - k,
        {
            proof {
                lemma_total_benefit_prefix(items@, k + 1);
                assert(items@.take(k + 1).drop_last() =~= items@.take(k as int));
            }
            max_possible_score = max_possible_score + items[k].benefit;
            k += 1;
        }
        assert(items@.take(k as int) =~= items@);
        self.max_possible_score = max_possible_score;
    }

    /// Keeps a copy of `solution` as the best solution.
    pub fn store_optimal_solution(&mut self, solution: &Vec<i64>)
        ensures
            final(self).optimal_solution@ == solution@,
            final(self).max_possible_score == old(self).max_possible_score,
            final(self).total_generations == old(self).total_generations,
            final(self).optimal_best_score == old(self).optimal_best_score,
            final(self).optimal_hash == old(self).optimal_hash,
            final(self).optimal_wasted == old(self).optimal_wasted,
            final(self).optimal_found_gens == old(self).optimal_found_gens,
    {
        let mut copy: Vec<i64> = Vec::new();
        let mut k: usize = 0;
        while k < solution.len()
            invariant
                k <= solution@.len(),
                copy@ =~= solution@.take(k as int),
            decreases solution@.len() - k,
        {
            copy.push(solution[k]);
            k += 1;
        }
        assert(solution@.take(k as int) =~= solution@);
        self.optimal_solution = copy;
    }

    /// Records a new best solution, found in the current generation, with its
    /// score and digest.
    pub fn record_optimum(&mut self, benefit: i64, wasted: i64, solution: &Vec<i64>, digest: String)
        ensures
            final(self).optimal_best_score == benefit,
            final(self).optimal_wasted == wasted,
            final(self).optimal_hash@ == digest@,
            final(self).optimal_solution@ == solution@,
            final(self).optimal_found_gens@ == old(self).optimal_found_gens@.push(
                old(self).total_generations,
            ),
            final(self).max_possible_score == old(self).max_possible_score,
            final(self).total_generations == old(self).total_generations,
    {
        self.optimal_best_score = benefit;
        self.optimal_hash = digest;
        self.optimal_wasted = wasted;
        self.optimal_found_gens.push(self.total_generations);
        self.store_optimal_solution(solution);
    }
}

} // verus!
