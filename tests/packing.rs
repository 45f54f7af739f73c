use knapsack_ga::controller::{next_action, Action};
use knapsack_ga::engine::GeneticAlgorithm;
use knapsack_ga::operators::{
    apply_forward_swaps, crossover, interleave, make_offspring, mutate, random_solution,
};
use knapsack_ga::placement::{count_zeros, first_empty_space, placements, score};
use knapsack_ga::random::{probability, draw_between};
use knapsack_ga::reproduction::{copy_solution, generate_new_population};
use knapsack_ga::scenario::{ensure_positive, random_scenario, ScenarioError};
use knapsack_ga::selection::{rank, survivor_count};
use knapsack_ga::stats::Stats;
use knapsack_ga::types::{Container, Item};
use rand::rngs::StdRng;
use rand::SeedableRng;

fn is_perm(v: &[i64], n: usize) -> bool {
    let mut sorted = v.to_vec();
    sorted.sort();
    sorted == (0..n as i64).collect::<Vec<i64>>()
}

#[test]
fn score_skips_item_that_never_fits() {
    let container = Container::new(2, 2);
    let items = vec![Item::new(1, 1, 10), Item::new(1, 1, 20), Item::new(3, 3, 1000)];
    assert_eq!(score(&container, &items, &vec![2, 0, 1]), (30, 2));
}

#[test]
fn unreachable_maximum_never_reports_global_optimum() {
    let container = Container::new(2, 2);
    let items = vec![Item::new(1, 1, 10), Item::new(1, 1, 20), Item::new(3, 3, 1000)];
    let mut rng = StdRng::seed_from_u64(11);
    let mut stats = Stats::new();
    stats.initialize(&items);
    assert_eq!(stats.max_possible_score, 1030);
    let mut ga = GeneticAlgorithm::new(container, &items, &mut rng);
    for _ in 0..20 {
        assert!(!ga.execute_population(&mut stats, &mut rng));
    }
    assert_eq!(stats.optimal_best_score, 30);
    assert_eq!(stats.optimal_wasted, 2);
    assert_eq!(stats.total_generations, 20);
    assert_eq!(stats.optimal_found_gens, vec![0]);
}

#[test]
fn single_item_placed_at_origin() {
    let container = Container::new(10, 5);
    let items = vec![Item::new(4, 3, 5)];
    let mut grid = vec![vec![0i64; 10]; 5];
    assert_eq!(first_empty_space(&grid, &items[0]), Some((0, 0)));
    // The 4x3 item covers 12 of the 50 cells.
    assert_eq!(score(&container, &items, &vec![0]), (5, 38));
    for row in grid.iter_mut().take(3) {
        for cell in row.iter_mut().take(4) {
            *cell = 1;
        }
    }
    assert_eq!(count_zeros(&grid), 38);
    assert_eq!(first_empty_space(&grid, &items[0]), Some((0, 4)));
}

#[test]
fn first_empty_space_scans_row_major() {
    let grid = vec![vec![1, 1, 0], vec![0, 0, 0], vec![0, 0, 1]];
    assert_eq!(first_empty_space(&grid, &Item::new(1, 1, 1)), Some((0, 2)));
    assert_eq!(first_empty_space(&grid, &Item::new(2, 1, 1)), Some((1, 0)));
    assert_eq!(first_empty_space(&grid, &Item::new(2, 2, 1)), Some((1, 0)));
    assert_eq!(first_empty_space(&grid, &Item::new(3, 2, 1)), None);
    assert_eq!(count_zeros(&grid), 6);
}

#[test]
fn score_is_deterministic_on_equal_inputs() {
    let container = Container::new(6, 4);
    let items = vec![Item::new(3, 2, 7), Item::new(2, 2, 4), Item::new(4, 1, 3), Item::new(1, 3, 2)];
    let sol = vec![3, 1, 0, 2];
    let first = score(&container, &items, &sol);
    let second = score(&container, &items, &sol.clone());
    assert_eq!(first, second);
    assert_eq!(first, (16, 7));
}

#[test]
fn empty_permutation_scores_nothing() {
    let container = Container::new(7, 3);
    let items = vec![Item::new(1, 1, 5)];
    assert_eq!(score(&container, &items, &vec![]), (0, 21));
}

#[test]
fn oversized_item_contributes_nothing() {
    let container = Container::new(4, 4);
    let items = vec![Item::new(2, 2, 3), Item::new(5, 1, 100), Item::new(1, 5, 100), Item::new(4, 2, 6)];
    for sol in [vec![1, 2, 0, 3], vec![0, 1, 3, 2], vec![3, 0, 2, 1]] {
        let without: Vec<i64> = sol.iter().copied().filter(|&k| k != 1 && k != 2).collect();
        assert_eq!(score(&container, &items, &sol), score(&container, &items, &without));
    }
    assert_eq!(score(&container, &items, &vec![1, 2, 0, 3]), (9, 4));
}

#[test]
fn crossover_always_switching_alternates_parents() {
    let a = vec![0, 1, 2, 3, 4];
    let b = vec![4, 3, 2, 1, 0];
    let mut rng = StdRng::seed_from_u64(3);
    let mut seen_a_first = false;
    let mut seen_b_first = false;
    for _ in 0..50 {
        let child = crossover(&a, &b, 100, &mut rng);
        assert!(is_perm(&child, 5));
        if child == vec![0, 4, 1, 3, 2] {
            seen_a_first = true;
        } else if child == vec![4, 0, 3, 1, 2] {
            seen_b_first = true;
        } else {
            panic!("unexpected child {:?}", child);
        }
    }
    assert!(seen_a_first && seen_b_first);
}

#[test]
fn crossover_never_switching_copies_one_parent() {
    let a = vec![2, 0, 3, 1];
    let b = vec![1, 3, 0, 2];
    let mut rng = StdRng::seed_from_u64(5);
    for _ in 0..20 {
        let child = crossover(&a, &b, 0, &mut rng);
        assert!(child == a || child == b);
    }
}

#[test]
fn crossover_returns_permutations() {
    let mut rng = StdRng::seed_from_u64(17);
    for n in [0i64, 1, 2, 7, 30] {
        for _ in 0..20 {
            let a = random_solution(n, &mut rng);
            let b = random_solution(n, &mut rng);
            let child = crossover(&a, &b, 30, &mut rng);
            assert!(is_perm(&child, n as usize));
            let offspring = make_offspring(&a, &b, &mut rng);
            assert!(is_perm(&offspring, n as usize));
        }
    }
}

#[test]
fn mutate_keeps_the_elements() {
    let mut rng = StdRng::seed_from_u64(2024);
    let original: Vec<i64> = vec![3, 9, 0, 4, 7, 1, 8, 2, 6, 5];
    let mut list = original.clone();
    let mut changed = false;
    for _ in 0..1000 {
        mutate(&mut list, &mut rng);
        assert_eq!(list.len(), 10);
        assert!(is_perm(&list, 10));
        if list != original {
            changed = true;
        }
    }
    assert!(changed);
}

#[test]
fn random_solution_is_shuffled_permutation() {
    let mut rng = StdRng::seed_from_u64(9);
    let identity: Vec<i64> = (0..12).collect();
    let mut differs = false;
    for _ in 0..10 {
        let sol = random_solution(12, &mut rng);
        assert!(is_perm(&sol, 12));
        if sol != identity {
            differs = true;
        }
    }
    assert!(differs);
    assert!(random_solution(0, &mut rng).is_empty());
}

#[test]
fn chance_draws_both_outcomes() {
    let mut rng = StdRng::seed_from_u64(1);
    let mut yes = 0;
    for _ in 0..1000 {
        if probability(&mut rng, 50) {
            yes += 1;
        }
        assert!(probability(&mut rng, 100));
        assert!(!probability(&mut rng, 0));
        let d = draw_between(&mut rng, 3, 5);
        assert!((3..=5).contains(&d));
    }
    assert!(yes > 350 && yes < 650);
}

#[test]
fn rank_orders_by_benefit_then_wasted_then_later() {
    let scores = vec![(5, 1), (5, 3), (5, 3), (7, 0), (2, 9)];
    assert_eq!(rank(&scores), vec![3, 2, 1, 0, 4]);
    assert_eq!(rank(&vec![]), Vec::<usize>::new());
}

#[test]
fn survivors_keep_at_least_ten() {
    let mut benefits = vec![100i64];
    benefits.extend(vec![0i64; 19]);
    let scores: Vec<(i64, i64)> = benefits.iter().map(|&b| (b, 0)).collect();
    let order = rank(&scores);
    assert_eq!(survivor_count(&benefits, &order), 10);
}

#[test]
fn survivors_small_population_all_kept() {
    let benefits = vec![0i64, 0, 0];
    let order = rank(&benefits.iter().map(|&b| (b, 0)).collect());
    assert_eq!(survivor_count(&benefits, &order), 3);
}

#[test]
fn survivors_above_standard_deviation() {
    // Mean 170/18, population standard deviation just under 5: every
    // benefit but the 4 survives.
    let mut benefits = vec![15i64; 8];
    benefits.extend(vec![5i64; 8]);
    benefits.extend(vec![6i64, 4]);
    let order = rank(&benefits.iter().map(|&b| (b, 0)).collect());
    let keep = survivor_count(&benefits, &order);
    let sd = {
        let n = benefits.len() as f64;
        let mean = benefits.iter().sum::<i64>() as f64 / n;
        (benefits.iter().map(|&b| (b as f64 - mean).powi(2)).sum::<f64>() / n).sqrt()
    };
    let expected = order
        .iter()
        .enumerate()
        .take_while(|(p, &i)| *p < 10 || benefits[i] as f64 > sd)
        .count();
    assert_eq!(keep, expected);
    assert_eq!(keep, 17);
}

#[test]
fn survivors_equal_benefits_all_kept() {
    let benefits = vec![4i64; 30];
    let order = rank(&benefits.iter().map(|&b| (b, 0)).collect());
    assert_eq!(survivor_count(&benefits, &order), 30);
}

#[test]
fn new_population_reaches_target_size() {
    let mut rng = StdRng::seed_from_u64(77);
    let survivors = vec![vec![2i64, 0, 1, 3]];
    let next = generate_new_population(&survivors, &mut rng);
    assert!(next.len() >= 100);
    for sol in &next {
        assert!(is_perm(sol, 4));
    }
    let many: Vec<Vec<i64>> = (0..15).map(|_| random_solution(6, &mut rng)).collect();
    let next = generate_new_population(&many, &mut rng);
    assert!(next.len() >= 100);
    assert!(next.iter().all(|s| is_perm(s, 6)));
}

#[test]
fn copy_solution_copies() {
    let v = vec![4i64, 2, 9];
    assert_eq!(copy_solution(&v), v);
}

#[test]
fn reachable_maximum_reports_global_optimum() {
    let container = Container::new(2, 2);
    let items = vec![Item::new(1, 1, 10), Item::new(1, 2, 7)];
    let mut rng = StdRng::seed_from_u64(4);
    let mut stats = Stats::new();
    stats.initialize(&items);
    assert_eq!(stats.max_possible_score, 17);
    let mut ga = GeneticAlgorithm::new(container, &items, &mut rng);
    assert!(ga.execute_population(&mut stats, &mut rng));
    assert_eq!(stats.optimal_best_score, 17);
    assert_eq!(stats.optimal_wasted, 1);
    assert_eq!(stats.total_generations, 0);
    assert_eq!(stats.optimal_found_gens, vec![0]);
    assert!(is_perm(&stats.optimal_solution, 2));
    let expected = format!("{:?}", md5::compute(format!("{:?}", stats.optimal_solution)));
    assert_eq!(stats.optimal_hash, expected);
    assert_eq!(stats.optimal_hash.len(), 32);
    assert_eq!(ga.last_generation_benefits().len(), 100);
    assert!(ga.last_generation_benefits().iter().all(|&b| b == 17));
}

#[test]
fn stats_start_empty_and_store_solution() {
    let mut stats = Stats::new();
    assert_eq!(stats.max_possible_score, 0);
    assert_eq!(stats.total_generations, 0);
    assert_eq!(stats.optimal_best_score, 0);
    assert!(stats.optimal_hash.is_empty());
    stats.store_optimal_solution(&vec![1, 0, 2]);
    assert_eq!(stats.optimal_solution, vec![1, 0, 2]);
    stats.record_optimum(12, 3, &vec![2, 1, 0], "abc".to_string());
    assert_eq!(stats.optimal_best_score, 12);
    assert_eq!(stats.optimal_wasted, 3);
    assert_eq!(stats.optimal_hash, "abc");
    assert_eq!(stats.optimal_solution, vec![2, 1, 0]);
    assert_eq!(stats.optimal_found_gens, vec![0]);
}

#[test]
fn ensure_positive_rejects_zero_and_negative() {
    assert_eq!(ensure_positive(1), Ok(()));
    assert_eq!(ensure_positive(0), Err(ScenarioError::NonPositive));
    assert_eq!(ensure_positive(-4), Err(ScenarioError::NonPositive));
}

#[test]
fn random_scenario_respects_bounds() {
    let mut rng = StdRng::seed_from_u64(8);
    let (container, items) = random_scenario(12, 40, 5, 9, &mut rng).unwrap();
    assert_eq!(container, Container::new(12, 12));
    assert_eq!(items.len(), 40);
    for item in &items {
        assert!(item.width >= 1 && item.width <= 5);
        assert!(item.height >= 1 && item.height <= 5);
        assert!(item.benefit >= 1 && item.benefit <= 9);
    }
    let (_, ones) = random_scenario(3, 5, 1, 1, &mut rng).unwrap();
    assert!(ones.iter().all(|i| *i == Item::new(1, 1, 1)));
}

#[test]
fn random_scenario_rejects_non_positive_values() {
    let mut rng = StdRng::seed_from_u64(8);
    assert!(matches!(random_scenario(0, 4, 3, 3, &mut rng), Err(ScenarioError::NonPositive)));
    assert!(matches!(random_scenario(5, 0, 3, 3, &mut rng), Err(ScenarioError::NonPositive)));
    assert!(matches!(random_scenario(5, 4, -1, 3, &mut rng), Err(ScenarioError::NonPositive)));
    assert!(matches!(random_scenario(5, 4, 3, 0, &mut rng), Err(ScenarioError::NonPositive)));
}

#[test]
fn make_random_item_is_valid() {
    let mut rng = StdRng::seed_from_u64(21);
    for _ in 0..200 {
        let item = Item::make_random(4, 6, 10, &mut rng);
        assert!(item.width >= 1 && item.width <= 4);
        assert!(item.height >= 1 && item.height <= 6);
        assert!(item.benefit >= 1 && item.benefit <= 10);
    }
}

#[test]
fn interleave_switching_after_every_read_alternates() {
    let a = vec![0, 1, 2, 3, 4];
    let b = vec![4, 3, 2, 1, 0];
    let always = vec![true; 10];
    assert_eq!(interleave(&a, &b, true, &always), vec![0, 4, 1, 3, 2]);
    assert_eq!(interleave(&a, &b, false, &always), vec![4, 0, 3, 1, 2]);
}

#[test]
fn interleave_without_switches_copies_active_parent() {
    let a = vec![1, 3, 0, 2];
    let b = vec![2, 0, 3, 1];
    let never = vec![false; 8];
    assert_eq!(interleave(&a, &b, true, &never), a);
    assert_eq!(interleave(&a, &b, false, &never), b);
    let mut some = vec![false; 8];
    some[1] = true;
    // Reads 1 and 3 from the first parent, switches, then reads 2 and 0 from
    // the second; every later read is already held.
    assert_eq!(interleave(&a, &b, true, &some), vec![1, 3, 2, 0]);
}

#[test]
fn placements_report_positions_in_order() {
    let container = Container::new(6, 4);
    let items = vec![Item::new(3, 2, 7), Item::new(2, 2, 4), Item::new(4, 1, 3), Item::new(1, 3, 2)];
    assert_eq!(
        placements(&container, &items, &vec![3, 1, 0, 2]),
        vec![(3, 0, 0), (1, 0, 1), (0, 0, 3), (2, 2, 1)]
    );
    let big = vec![Item::new(7, 1, 1), Item::new(6, 4, 1)];
    assert_eq!(placements(&container, &big, &vec![0, 1]), vec![(1, 0, 0)]);
}

#[test]
fn forward_swaps_apply_left_to_right() {
    let mut list = vec![10, 11, 12, 13];
    apply_forward_swaps(&mut list, &vec![2, 1, 3, 3]);
    assert_eq!(list, vec![12, 11, 13, 10]);
    let mut same = vec![5, 6, 7];
    apply_forward_swaps(&mut same, &vec![0, 1, 2]);
    assert_eq!(same, vec![5, 6, 7]);
}

#[test]
fn controller_finishes_on_stop_optimum_or_exhausted_counter() {
    assert_eq!(next_action(false, false, 0), Action::RunGeneration);
    assert_eq!(next_action(true, false, 0), Action::Finish);
    assert_eq!(next_action(false, true, 7), Action::Finish);
    assert_eq!(next_action(false, false, i64::MAX), Action::Finish);
    assert_eq!(next_action(false, false, i64::MAX - 1), Action::RunGeneration);
}
