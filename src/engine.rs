use crate::operators::random_solution;
use crate::permutation::is_permutation;
use crate::placement::{lemma_permutation_listed_benefit, lemma_score_nonneg, score, score_of};
use crate::reproduction::{all_permutations, copy_solution, generate_new_population, TARGET_POPULATION};
use crate::selection::{is_ranking, rank, ranks_before, survivor_count};
use crate::stats::Stats;
use crate::types::{valid_items, Container, Item};
use rand::rngs::StdRng;
use vstd::prelude::*;

verus! {

/// What `md5::compute` makes of a solution's debug text, as lowercase hex.
pub uninterp spec fn digest_of(solution: Seq<i64>) -> Seq<char>;

/// Relies on `md5::compute` (with the digest's `Debug` format): a stable
/// digest of the solution, which depends on the solution alone.
#[verifier::external_body]
fn solution_digest(solution: &Vec<i64>) -> (r: String)
    ensures
        r@ == digest_of(solution@),
{
    format!("{:?}", md5::compute(format!("{:?}", solution)))
}

/// `(benefit, wasted cells)` of every individual of a population.
pub open spec fn population_scores(container: Container, items: Seq<Item>, pop: Seq<Vec<i64>>) -> Seq<(i64, i64)> {
    Seq::new(
        pop.len(),
        |k: int| (score_of(container, items, pop[k]@).0 as i64, score_of(container, items, pop[k]@).1 as i64),
    )
}

/// `t` is ranked ahead of every other individual.
pub open spec fn is_top(scores: Seq<(i64, i64)>, t: int) -> bool {
    &&& 0 <= t < scores.len()
    &&& forall|k: int| 0 <= k < scores.len() && k != t ==> #[trigger] ranks_before(scores, t, k)
}

/// The search state: the fixed instance and the current population.
pub struct GeneticAlgorithm {
    items: Vec<Item>,
    solutions: Vec<Vec<i64>>,
    container: Container,
    last_benefits: Vec<i64>,
}

impl GeneticAlgorithm {
    /// The items of the instance.
    pub closed spec fn item_list(&self) -> Seq<Item> {
        self.items@
    }

    /// The container of the instance.
    pub closed spec fn container_of(&self) -> Container {
        self.container
    }

    /// The current population.
    pub closed spec fn population(&self) -> Seq<Vec<i64>> {
        self.solutions@
    }

    /// The benefits of the last scored generation.
    pub closed spec fn benefits_of_last(&self) -> Seq<i64> {
        self.last_benefits@
    }

    /// A valid instance, and a non-empty population of permutations of the items.
    pub closed spec fn wf(&self) -> bool {
        &&& self.container.valid()
        &&& valid_items(self.items@)
        &&& self.items@.len() <= i64::MAX
        &&& 2 * self.items@.len() <= usize::MAX
        &&& self.solutions@.len() > 0
        &&& all_permutations(self.solutions@, self.items@.len() as int)
    }

    /// A search over `items` in `container`, starting from 100 random permutations.
    pub fn new(container: Container, items: &Vec<Item>, rng: &mut StdRng) -> (r: GeneticAlgorithm)
        requires
            container.valid(),
            valid_items(items@),
            items@.len() <= i64::MAX,
            2 * items@.len() <= usize::MAX,
        ensures
            r.wf(),
            r.item_list() == items@,
            r.container_of() == container,
            r.population().len() == TARGET_POPULATION,
            r.benefits_of_last() == Seq::<i64>::empty(),
    {
        let n: i64 = items.len() as i64;
        let mut solutions: Vec<Vec<i64>> = Vec::new();
        let mut k: usize = 0;
        while k < TARGET_POPULATION
            invariant
                n == items@.len(),
                n >= 0,
                k <= TARGET_POPULATION,
                solutions@.len() == k,
                all_permutations(solutions@, n as int),
            decreases TARGET_POPULATION - k,
        {
            let sol = random_solution(n, rng);
            solutions.push(sol);
            k += 1;
        }
        let mut copy: Vec<Item> = Vec::new();
        let mut j: usize = 0;
        while j < items.len()
            invariant
                j <= items@.len(),
                copy@ =~= items@.take(j as int),
            decreases items@.len() - j,
        {
            copy.push(items[j]);
            j += 1;
        }
        assert(items@.take(j as int) =~= items@);
        GeneticAlgorithm { items: copy, solutions, container, last_benefits: Vec::new() }
    }

    /// The benefits of the generation scored by the last step.
    pub fn last_generation_benefits(&self) -> (r: &Vec<i64>)
        ensures
            r@ == self.benefits_of_last(),
    {
        &self.last_benefits
    }

    /// One generation. Scores every individual and ranks them. When the best
    /// benefit beats the recorded one, it is recorded in `stats` (with the
    /// solution, its wasted cells, its digest and the generation number), and
    /// when it equals the maximum possible score the step returns `true` at
    /// once. Otherwise the survivors breed the next population, the
    /// generation counter advances, and the step returns `false`.
    pub fn execute_population(&mut self, stats: &mut Stats, rng: &mut StdRng) -> (r: bool)
        requires
            old(self).wf(),
            old(stats).total_generations < i64::MAX,
        ensures
            final(self).wf(),
            final(self).item_list() == old(self).item_list(),
            final(self).container_of() == old(self).container_of(),
            final(self).benefits_of_last() == Seq::new(
                old(self).population().len(),
                |k: int|
                    population_scores(
                        old(self).container_of(),
                        old(self).item_list(),
                        old(self).population(),
                    )[k].0,
            ),
            final(stats).max_possible_score == old(stats).max_possible_score,
            r ==> final(stats).optimal_best_score == final(stats).max_possible_score,
            old(stats).optimal_best_score != old(stats).max_possible_score ==> (r
                <==> final(stats).optimal_best_score == final(stats).max_possible_score),
            ({
                let scores = population_scores(
                    old(self).container_of(),
                    old(self).item_list(),
                    old(self).population(),
                );
                exists|t: int|
                    #![trigger is_top(scores, t)]
                    is_top(scores, t) && if scores[t].0 > old(stats).optimal_best_score {
                        &&& final(stats).optimal_best_score == scores[t].0
                        &&& final(stats).optimal_wasted == scores[t].1
                        &&& final(stats).optimal_solution@ == old(self).population()[t]@
                        &&& final(stats).optimal_hash@ == digest_of(old(self).population()[t]@)
                        &&& final(stats).optimal_found_gens@ == old(stats).optimal_found_gens@.push(
                            old(stats).total_generations,
                        )
                    } else {
                        &&& !r
                        &&& final(stats).optimal_best_score == old(stats).optimal_best_score
                        &&& final(stats).optimal_wasted == old(stats).optimal_wasted
                        &&& final(stats).optimal_solution == old(stats).optimal_solution
                        &&& final(stats).optimal_hash == old(stats).optimal_hash
                        &&& final(stats).optimal_found_gens == old(stats).optimal_found_gens
                    }
            }),
            r ==> final(stats).total_generations == old(stats).total_generations,
            r ==> final(self).population() == old(self).population(),
            !r ==> final(stats).total_generations == old(stats).total_generations + 1,
            !r ==> final(self).population().len() >= TARGET_POPULATION,
    {
        let ghost pop = self.solutions@;
        let ghost items = self.items@;
        let ghost scores_spec = population_scores(self.container, items, pop);
        assert(scores_spec == population_scores(
            old(self).container_of(),
            old(self).item_list(),
            old(self).population(),
        ));
        let n: usize = self.solutions.len();
        let mut scores: Vec<(i64, i64)> = Vec::new();
        let mut benefits: Vec<i64> = Vec::new();
        let mut k: usize = 0;
        while k < n
            invariant
                self.wf(),
                pop == self.solutions@,
                items == self.items@,
                scores_spec == population_scores(self.container, items, pop),
                n == pop.len(),
                k <= n,
                scores@ =~= scores_spec.take(k as int),
                benefits@.len() == k,
                forall|j: int| 0 <= j < k ==> #[trigger] benefits@[j] == scores_spec[j].0,
                forall|j: int| 0 <= j < k ==> #[trigger] benefits@[j] >= 0,
            decreases n - k,
        {
            proof {
                assert(is_permutation(pop[k as int]@, items.len() as int));
                lemma_permutation_listed_benefit(items, pop[k as int]@);
            }
            let sc = score(&self.container, self.items.as_slice(), &self.solutions[k]);
            proof {
                lemma_score_nonneg(self.container, items, pop[k as int]@);
            }
            assert(scores_spec.take(k + 1) =~= scores_spec.take(k as int).push(sc));
            scores.push(sc);
            benefits.push(sc.0);
            k += 1;
        }
        assert(scores_spec.take(n as int) =~= scores_spec);
        let order = rank(&scores);
        let top: usize = order[0];
        let gen_best: i64 = scores[top].0;
        proof {
            assert forall|j: int| 0 <= j < n && j != top implies #[trigger] ranks_before(scores_spec, top as int, j) by {
                assert(order@.contains(j as usize));
                let q = choose|q: int| 0 <= q < order@.len() && order@[q] == j as usize;
                assert(q != 0);
                assert(ranks_before(scores@, order@[0] as int, order@[q] as int));
            }
            assert(is_top(scores_spec, top as int));
        }
        let ghost old_stats_best = stats.optimal_best_score;
        assert(scores_spec[top as int] == scores@[top as int]);
        self.last_benefits = benefits;
        assert(self.last_benefits@ =~= Seq::new(pop.len(), |k: int| scores_spec[k].0));
        if gen_best > stats.optimal_best_score {
            let digest = solution_digest(&self.solutions[top]);
            stats.record_optimum(gen_best, scores[top].1, &self.solutions[top], digest);
            if stats.optimal_best_score == stats.max_possible_score {
                assert(is_top(scores_spec, top as int));
                return true;
            }
        }
        assert(is_top(scores_spec, top as int));
        let keep: usize = survivor_count(&self.last_benefits, &order);
        let mut survivors: Vec<Vec<i64>> = Vec::new();
        let mut p: usize = 0;
        while p < keep
            invariant
                self.wf(),
                pop == self.solutions@,
                items == self.items@,
                n == pop.len(),
                is_ranking(scores@, order@),
                scores@.len() == n,
                keep <= n,
                p <= keep,
                survivors@.len() == p,
                all_permutations(survivors@, items.len() as int),
            decreases keep - p,
        {
            let idx: usize = order[p];
            assert(is_permutation(pop[idx as int]@, items.len() as int));
            let copy = copy_solution(&self.solutions[idx]);
            survivors.push(copy);
            p += 1;
        }
        self.solutions = generate_new_population(&survivors, rng);
        stats.total_generations = stats.total_generations + 1;
        assert(is_top(scores_spec, top as int));
        false
    }
}

} // verus!
