use oh_crab_planner::partition::{
    apply_redraws, cut_and_swap, min_position, PartitioningProblem, PROB_SCALE,
};
use rand::rngs::StdRng;
use rand::SeedableRng;

fn problem(weights: Vec<u32>, piles: usize, pop_size: usize, max_gen: u32, repeats: u32) -> PartitioningProblem {
    PartitioningProblem::new(weights, piles, pop_size, max_gen, 800_000, 220_000, 85_000, repeats)
}

fn spread(weights: &[u32], assignment: &[usize], piles: usize) -> u64 {
    let mut totals = vec![0u64; piles];
    for (i, b) in assignment.iter().enumerate() {
        totals[*b] += weights[i] as u64;
    }
    totals.iter().max().unwrap() - totals.iter().min().unwrap()
}

#[test]
fn every_weight_gets_a_bin_below_k() {
    let cases: Vec<(Vec<u32>, usize)> = vec![
        (vec![5, 1, 9, 3, 3, 7, 2], 3),
        (vec![4], 1),
        (vec![1, 2, 3], 5),
        (vec![], 2),
    ];
    for (seed, (weights, k)) in cases.into_iter().enumerate() {
        let p = problem(weights.clone(), k, 10, 20, 2);
        assert!(p.is_well_formed());
        let best = p.solve(seed as u64);
        assert_eq!(best.len(), weights.len());
        assert!(best.iter().all(|b| *b < k));
    }
}

#[test]
fn perfect_partition_is_found_across_runs() {
    let weights = vec![10, 10, 10, 10];
    let mut zero = 0;
    for seed in 0..10u64 {
        let p = problem(weights.clone(), 2, 20, 60, 3);
        let best = p.solve(seed);
        if spread(&weights, &best, 2) == 0 {
            zero += 1;
        }
    }
    assert!(zero >= 8, "only {} of 10 runs reached spread 0", zero);
}

#[test]
fn equal_weights_in_one_bin_have_zero_spread() {
    let weights = vec![7, 7, 7, 7, 7];
    let p = problem(weights.clone(), 1, 6, 10, 2);
    let best = p.solve(3);
    assert_eq!(best, vec![0, 0, 0, 0, 0]);
    assert_eq!(p.objective(&best), 0);
}

#[test]
fn bin_weights_and_objective_values() {
    let p = problem(vec![3, 5, 2, 8], 3, 4, 1, 1);
    assert_eq!(p.bin_weights(&vec![0, 1, 0, 2]), vec![5, 5, 8]);
    assert_eq!(p.objective(&vec![0, 1, 0, 2]), 3);
    assert_eq!(p.bin_weights(&vec![2, 2, 2, 2]), vec![0, 0, 18]);
    assert_eq!(p.objective(&vec![2, 2, 2, 2]), 18);
}

#[test]
fn well_formed_needs_bins_population_and_room() {
    assert!(!problem(vec![1], 0, 4, 1, 1).is_well_formed());
    assert!(!problem(vec![1], 2, 1, 1, 1).is_well_formed());
    assert!(problem(vec![u32::MAX, u32::MAX], 2, 2, 1, 1).is_well_formed());
}

#[test]
fn min_position_first_or_last() {
    let v = vec![4, 1, 7, 1, 9];
    assert_eq!(min_position(&v, false), 1);
    assert_eq!(min_position(&v, true), 3);
    assert_eq!(min_position(&vec![2], true), 0);
}

#[test]
fn random_individuals_use_every_bin_below_k() {
    let p = problem(vec![1; 200], 4, 4, 1, 1);
    let mut rng = StdRng::seed_from_u64(11);
    let ind = p.create_individual(&mut rng, 200);
    assert_eq!(ind.len(), 200);
    assert!(ind.iter().all(|b| *b < 4));
    for b in 0..4 {
        assert!(ind.contains(&b));
    }
    let pop = p.create_population(&mut rng, 7);
    assert_eq!(pop.len(), 4);
    assert!(pop.iter().all(|i| i.len() == 7));
}

#[test]
fn crossover_swaps_tails() {
    let p = problem(vec![1; 6], 2, 2, 1, 1);
    let mut rng = StdRng::seed_from_u64(5);
    let a = vec![0, 0, 0, 0, 0, 0];
    let b = vec![1, 1, 1, 1, 1, 1];
    for _ in 0..20 {
        let (c1, c2) = p.one_point_crossover(&mut rng, &a, &b);
        let cut = c1.iter().position(|x| *x == 1).unwrap();
        assert!(cut < 6);
        assert!(c1[..cut].iter().all(|x| *x == 0) && c1[cut..].iter().all(|x| *x == 1));
        assert!(c2[..cut].iter().all(|x| *x == 1) && c2[cut..].iter().all(|x| *x == 0));
    }
    let (e1, e2) = p.one_point_crossover(&mut rng, &vec![], &vec![]);
    assert!(e1.is_empty() && e2.is_empty());
}

#[test]
fn crossover_with_certain_chance_pairs_neighbours() {
    let mut p = problem(vec![1; 3], 2, 3, 1, 1);
    p.cx_prob = PROB_SCALE as u32;
    let mut rng = StdRng::seed_from_u64(9);
    let pop = vec![vec![0, 0, 0], vec![1, 1, 1], vec![0, 1, 0]];
    let out = p.crossover(&mut rng, &pop);
    assert_eq!(out.len(), 3);
    assert_eq!(out[2], vec![0, 1, 0]);
    for i in 0..3 {
        assert_eq!(out[0][i] + out[1][i], 1);
    }
    p.cx_prob = 0;
    let same = p.crossover(&mut rng, &pop);
    assert_eq!(same, pop);
}

#[test]
fn mutation_with_certain_chance_keeps_bins_below_k() {
    let mut p = problem(vec![1; 50], 3, 2, 1, 1);
    p.mut_prob = PROB_SCALE as u32;
    p.mut_flip_prob = PROB_SCALE as u32;
    let mut rng = StdRng::seed_from_u64(2);
    let mut pop = vec![vec![0; 50], vec![2; 50]];
    p.mutate(&mut rng, &mut pop);
    assert!(pop.iter().all(|i| i.len() == 50 && i.iter().all(|b| *b < 3)));
    assert!(pop[0].iter().any(|b| *b != 0));
    p.mut_prob = 0;
    let before = pop.clone();
    p.mutate(&mut rng, &mut pop);
    assert_eq!(pop, before);
}

#[test]
fn tournament_keeps_smaller_spread() {
    let p = problem(vec![1, 1], 2, 6, 1, 1);
    let mut rng = StdRng::seed_from_u64(4);
    let pop = vec![vec![0, 1], vec![0, 0]];
    let objectives = vec![0, 2];
    let chosen = p.tournament_selection(&mut rng, &pop, &objectives);
    assert_eq!(chosen.len(), 6);
    assert!(chosen.iter().all(|c| *c == vec![0, 1]));
}

#[test]
fn set_weights_replaces_weights() {
    let mut p = problem(vec![1, 2], 2, 2, 1, 1);
    p.set_weights(vec![9, 9, 9]);
    assert_eq!(p.weights, vec![9, 9, 9]);
    assert_eq!(p.piles, 2);
}

#[test]
fn best_individual_first_or_last_of_least_spread() {
    let p = problem(vec![4, 4, 2], 2, 2, 1, 1);
    let pop = vec![vec![0, 0, 0], vec![0, 1, 0], vec![1, 1, 0], vec![0, 1, 1]];
    // Spreads: 10, 2, 6, 2.
    assert_eq!(p.best_individual(&pop, false), vec![0, 1, 0]);
    assert_eq!(p.best_individual(&pop, true), vec![0, 1, 1]);
}

#[test]
fn best_across_runs_takes_least_spread_over_all_runs() {
    let p = problem(vec![4, 4, 2], 2, 2, 1, 1);
    // Spreads: run 0 -> 10, 6; run 1 -> 2, 10, 2; run 2 -> 2.
    let finals = vec![
        vec![vec![0, 0, 0], vec![1, 1, 0]],
        vec![vec![0, 1, 0], vec![1, 1, 1], vec![0, 1, 1]],
        vec![vec![1, 0, 1]],
    ];
    assert_eq!(p.best_across_runs(&finals), vec![0, 1, 1]);
}

#[test]
fn zero_generations_keep_the_population() {
    let p = problem(vec![1, 2, 3], 2, 2, 0, 1);
    let mut rng = StdRng::seed_from_u64(8);
    let pop = vec![vec![0, 1, 1], vec![1, 1, 0]];
    assert_eq!(p.evolutionary_algo_run(&mut rng, pop.clone()), pop);
}

#[test]
fn without_crossover_or_mutation_generations_select_winners() {
    let mut p = problem(vec![5, 5], 2, 4, 3, 1);
    p.cx_prob = 0;
    p.mut_prob = 0;
    let mut rng = StdRng::seed_from_u64(21);
    let pop = vec![vec![0, 1], vec![0, 0], vec![1, 1], vec![0, 0]];
    let out = p.evolutionary_algo_run(&mut rng, pop.clone());
    assert_eq!(out.len(), 4);
    assert!(out.iter().all(|i| pop.contains(i)));
}

#[test]
fn cut_and_swap_exact_children() {
    let (c1, c2) = cut_and_swap(&vec![0, 0, 0, 0], &vec![1, 2, 3, 4], 1);
    assert_eq!(c1, vec![0, 2, 3, 4]);
    assert_eq!(c2, vec![1, 0, 0, 0]);
    let (d1, d2) = cut_and_swap(&vec![5, 6], &vec![7, 8], 2);
    assert_eq!((d1, d2), (vec![5, 6], vec![7, 8]));
}

#[test]
fn apply_redraws_replaces_marked_genes() {
    let mut ind = vec![0, 1, 2, 3];
    apply_redraws(&mut ind, &vec![None, Some(4), None, Some(0)]);
    assert_eq!(ind, vec![0, 4, 2, 0]);
}
