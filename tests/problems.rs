use std::time::Duration;

use mhd_mem::{
    find_best_solution, BestFirstSolver, DepthFirstSolver, MinimalSolution, Problem,
    Problem01Knapsack, ProblemSubsetSum, Solver, ZERO_SCORE,
};

#[test]
fn solution_test_minimal_solution() {
    let sol8 = MinimalSolution::new(8);
    assert_eq!(8, sol8.size());
    assert_eq!("MinimalSolution", sol8.name());
    let sol9 = MinimalSolution::new(9);
    assert_eq!(9, sol9.size());
    let sol23 = MinimalSolution::new(23);
    assert_eq!(23, sol23.size());

    assert_eq!("MinimalSolution", sol23.name());
    assert_eq!(
        "MinimalSolution: score 0, best score 0",
        sol23.short_description()
    );

    let mut sol = MinimalSolution::new(42);
    sol.make_decision(17, true);
    assert_eq!(Some(true), sol.get_decision(17));
    assert_eq!(None, sol.get_decision(41));

    sol.put_score(42);
    sol.put_best_score(4242);
    assert_eq!(42, sol.get_score());
    assert_eq!(4242, sol.get_best_score());

    assert_eq!(0, sol.priority());
    sol.set_priority(4242);
    assert_eq!(4242, sol.priority());
}

#[test]
fn readable_lists_decisions_and_score() {
    let mut sol = MinimalSolution::new(3);
    sol.make_decision(0, true);
    sol.make_decision(2, false);
    sol.put_score(5);
    assert_eq!(sol.readable(), " 1, ?, 0, score 5");
    let r = MinimalSolution::random(10);
    assert!((0..10).all(|i| r.get_decision(i).is_some()));
    assert!(r.get_score() < r.get_best_score());
}

#[test]
fn subset_sum_problem_test_random_weights() {
    const TEST_SIZE: usize = 16;

    let mut rand_sack_a = ProblemSubsetSum::new(TEST_SIZE);
    assert_eq!(rand_sack_a.name(), "ProblemSubsetSum");
    assert!(!rand_sack_a.is_legal());
    assert_eq!(rand_sack_a.problem_size(), TEST_SIZE);
    assert_eq!(rand_sack_a.weights_sum(), 0);
    assert_eq!(rand_sack_a.capacity, 0);

    rand_sack_a.randomize();
    assert!(rand_sack_a.is_legal());
    assert_eq!(rand_sack_a.problem_size(), TEST_SIZE);
    assert_ne!(rand_sack_a.weights_sum(), 0);
    assert_ne!(rand_sack_a.capacity, 0);

    let rand_sack_b = ProblemSubsetSum::random(TEST_SIZE);
    assert!(rand_sack_b.is_legal());
    assert_eq!(rand_sack_b.problem_size(), TEST_SIZE);
    assert_ne!(rand_sack_b.weights_sum(), 0);
    assert_ne!(rand_sack_b.capacity, 0);

    let starter = rand_sack_b.starting_solution();
    assert!(rand_sack_b.is_legal());
    assert!(rand_sack_b.solution_is_legal(&starter));
    assert!(!rand_sack_b.solution_is_complete(&starter));
    assert_eq!(rand_sack_b.solution_score(&starter), ZERO_SCORE);
    assert_eq!(
        rand_sack_b.solution_best_score(&starter),
        rand_sack_b.capacity
    );
    assert_eq!(rand_sack_b.solution_score(&starter), starter.get_score());
    assert_eq!(
        rand_sack_b.solution_best_score(&starter),
        starter.get_best_score()
    );

    let thrown_dart = rand_sack_b.random_solution();
    assert!(rand_sack_b.is_legal());
    assert!(rand_sack_b.solution_is_legal(&thrown_dart));
    assert!(rand_sack_b.solution_is_complete(&thrown_dart));
    assert_ne!(rand_sack_b.solution_score(&thrown_dart), ZERO_SCORE);
    assert_eq!(
        rand_sack_b.solution_score(&thrown_dart),
        thrown_dart.get_score()
    );
    assert_eq!(
        rand_sack_b.solution_best_score(&thrown_dart),
        thrown_dart.get_best_score()
    );
    assert!(thrown_dart.get_score() <= rand_sack_b.capacity);
    assert!(thrown_dart.get_best_score() <= rand_sack_b.capacity);
}

#[test]
fn subset_sum_problem_test_random_knapsacks() {
    for size in [4, 5, 6, 7, 8, 16, 32, 64, 128, 256].iter() {
        let sack = ProblemSubsetSum::random(*size);
        assert!(sack.is_legal(), "illegal random sack with size {}?!?", *size);
    }
}

#[test]
fn test_children_preduction() {
    const NUM_BITS: usize = 32; // big, to make special cases below REALLY improbable

    let problem = ProblemSubsetSum::random(NUM_BITS);
    assert!(problem.is_legal());

    let mut solver = DepthFirstSolver::new(NUM_BITS);

    solver.push(problem.starting_solution());
    assert!(!solver.is_empty());

    let root = solver.pop().expect("Solver should let us pop SOMETHING #1");
    assert!(solver.is_empty());
    assert!(problem.solution_is_legal(&root));
    assert!(!problem.solution_is_complete(&root));

    let children = problem.children_of_solution(&root);
    assert!(!children.is_empty());
    assert!(children.len() <= 2);
    for child in children {
        assert!(problem.solution_is_legal(&child));
        assert!(problem.rules_audit_passed(&child));
        if !problem.solution_is_complete(&child) {
            solver.push(child);
        }
    }
    assert!(!solver.is_empty());
    assert!(solver.number_of_solutions() <= 2);

    let grandchild = solver.pop().expect("Solver should let us pop SOMETHING #2");
    assert!(solver.number_of_solutions() <= 1);
    assert!(problem.solution_is_legal(&grandchild));

    assert!(problem.is_legal());
}

#[test]
fn subset_sum_problem_test_children_regstration() {
    const NUM_BITS: usize = 32;
    let problem = ProblemSubsetSum::random(NUM_BITS);
    assert!(problem.is_legal());
    let mut solver = DepthFirstSolver::new(NUM_BITS);
    solver.push(problem.starting_solution());
    let root = solver.pop().expect("Solver should let us pop SOMETHING #1");
    assert!(solver.is_empty());
    for child in problem.children_of_solution(&root) {
        if !problem.solution_is_complete(&child) {
            solver.push(child);
        }
    }
    assert!(!solver.is_empty());
    assert!(solver.number_of_solutions() <= 2);
    let node_a = solver.pop().expect("Solver should let us pop SOMETHING #2");
    assert!(solver.number_of_solutions() <= 1);
    assert!(problem.solution_is_legal(&node_a));
    if !problem.solution_is_complete(&node_a) {
        for child in problem.children_of_solution(&node_a) {
            if !problem.solution_is_complete(&child) {
                solver.push(child);
            }
        }
    }
    assert!(solver.number_of_solutions() <= 3);
    if let Some(node_b) = solver.pop() {
        assert!(problem.solution_is_legal(&node_b));
    }
    assert!(problem.is_legal());
}

#[test]
fn subset_sum_problem_test_find_depth_first_solution() {
    const NUM_DECISIONS: usize = 4; // for a start

    let little_knapsack = ProblemSubsetSum::random(NUM_DECISIONS);
    let mut first_solver = DepthFirstSolver::new(NUM_DECISIONS);

    let time_limit = Duration::new(1, 0); // 1 second

    assert!(little_knapsack.is_legal());
    assert!(first_solver.is_empty());

    let the_best = find_best_solution(&little_knapsack, &mut first_solver, time_limit);

    assert!(little_knapsack.solution_is_legal(&the_best));
    assert!(little_knapsack.solution_is_complete(&the_best));

    assert_eq!(
        little_knapsack.solution_score(&the_best),
        little_knapsack.capacity
    );
    assert_eq!(the_best.get_score(), little_knapsack.capacity);
    assert_eq!(the_best.get_best_score(), little_knapsack.capacity);
}

#[test]
fn test_find_best_first_solution() {
    const FEW_DECISIONS: usize = 4; // so we can be sure to find THE optimum!
    let knapsack = ProblemSubsetSum::random(FEW_DECISIONS);
    let mut second_solver = BestFirstSolver::new(FEW_DECISIONS);

    let time_limit = Duration::new(1, 0); // 1 second

    assert!(knapsack.is_legal());

    let the_best = find_best_solution(&knapsack, &mut second_solver, time_limit);

    assert!(knapsack.solution_is_legal(&the_best));
    assert!(knapsack.solution_is_complete(&the_best));
    assert_eq!(knapsack.solution_score(&the_best), knapsack.capacity);
    assert_eq!(the_best.get_score(), knapsack.capacity);
}

#[test]
fn depth_first_solver_test_depth_first_solver_solver() {
    const NUM_DECISIONS: usize = 64;
    let mut solver = DepthFirstSolver::new(NUM_DECISIONS);
    assert!(solver.is_empty());
    let solution = MinimalSolution::random(NUM_DECISIONS);
    solver.push(solution);
    assert!(!solver.is_empty());
    assert_eq!(solver.number_of_solutions(), 1);
    let solution = MinimalSolution::random(NUM_DECISIONS);
    solver.push(solution);
    assert_eq!(solver.number_of_solutions(), 2);

    let _ = solver.pop();
    assert_eq!(solver.number_of_solutions(), 1);
    let _ = solver.pop();
    assert!(solver.is_empty());

    // Try again, to test clear
    let solution = MinimalSolution::random(NUM_DECISIONS);
    solver.push(solution);
    let solution = MinimalSolution::random(NUM_DECISIONS);
    solver.push(solution);
    assert_eq!(solver.number_of_solutions(), 2);
    solver.clear();
    assert!(solver.is_empty());
}

#[test]
fn test_best_first_solver_solver() {
    const NUM_DECISIONS: usize = 64;
    let mut solver = BestFirstSolver::new(NUM_DECISIONS);
    assert!(solver.is_empty());
    let solution = MinimalSolution::random(NUM_DECISIONS);
    solver.push(solution);
    assert!(!solver.is_empty());
    assert_eq!(solver.number_of_solutions(), 1);
    let solution = MinimalSolution::random(NUM_DECISIONS);
    solver.push(solution);
    assert_eq!(solver.number_of_solutions(), 2);

    let _ = solver.pop();
    assert_eq!(solver.number_of_solutions(), 1);
    let _ = solver.pop();
    assert!(solver.is_empty());

    // Try again, to test clear
    let solution = MinimalSolution::random(NUM_DECISIONS);
    solver.push(solution);
    let solution = MinimalSolution::random(NUM_DECISIONS);
    solver.push(solution);
    assert_eq!(solver.number_of_solutions(), 2);
    solver.clear();
    assert!(solver.is_empty());
}

#[test]
fn best_first_pops_largest_bound_first() {
    let mut solver = BestFirstSolver::new(4);
    for b in [5u32, 9, 7, 9] {
        let mut s = MinimalSolution::new(4);
        s.put_best_score(b);
        s.put_score(b - 1);
        solver.push(s);
    }
    let order: Vec<(u32, u32)> = (0..4)
        .map(|_| {
            let s = solver.pop().unwrap();
            (s.get_best_score(), s.get_score())
        })
        .collect();
    assert_eq!(order, vec![(9, 8), (9, 8), (7, 6), (5, 4)]);
    assert!(solver.pop().is_none());

    let mut stack = DepthFirstSolver::new(4);
    for b in [1u32, 2, 3] {
        let mut s = MinimalSolution::new(4);
        s.put_score(b);
        stack.push(s);
    }
    assert_eq!(stack.pop().unwrap().get_score(), 3);
    assert_eq!(stack.pop().unwrap().get_score(), 2);
}

fn fixed_subset_sum() -> ProblemSubsetSum {
    let mut p = ProblemSubsetSum::new(4);
    p.weights = vec![7, 5, 4, 3];
    p.capacity = 9;
    p
}

#[test]
fn apply_rules_closes_heavy_items_and_is_idempotent() {
    let p = fixed_subset_sum();
    let mut s = MinimalSolution::new(4);
    s.make_decision(1, true); // weight 5, headroom 4: item 0 (7) no longer fits
    p.apply_rules(&mut s);
    assert_eq!(s.get_decision(0), Some(false));
    assert_eq!(s.get_decision(2), None);
    assert_eq!(s.get_decision(3), None);
    assert_eq!(s.get_score(), 5);
    assert_eq!(s.get_best_score(), 9); // 5 + 4 + 3 capped at 9
    assert!(p.rules_audit_passed(&s));
    let once = (s.mask.clone(), s.decisions.clone(), s.get_score(), s.get_best_score());
    p.apply_rules(&mut s);
    assert_eq!(once, (s.mask.clone(), s.decisions.clone(), s.get_score(), s.get_best_score()));

    let start = p.starting_solution();
    assert_eq!(start.get_score(), 0);
    assert_eq!(start.get_best_score(), 9);
    assert_eq!(p.first_open_decision(&start), Some(0));
    assert_eq!(p.weights_sum(), 19);
    assert!(p.short_description().contains("capacity 9"));
}

#[test]
fn subset_sum_exhaustive_search_reaches_capacity() {
    let p = fixed_subset_sum();
    let mut dfs = DepthFirstSolver::new(4);
    let best = find_best_solution(&p, &mut dfs, Duration::new(1, 0));
    assert_eq!(best.get_score(), 9); // 5 + 4
    assert!(p.rules_audit_passed(&best));
    assert!(best.get_score() <= p.capacity);
    let mut bfs = BestFirstSolver::new(4);
    let best = find_best_solution(&p, &mut bfs, Duration::new(1, 0));
    assert_eq!(best.get_score(), 9);
}

fn knapsack_optimum(k: &Problem01Knapsack) -> u32 {
    let n = k.problem_size();
    let mut best = 0;
    for mask in 0u32..(1 << n) {
        let (mut w, mut v) = (0u32, 0u32);
        for i in 0..n {
            if mask & (1 << i) != 0 {
                w += k.basis.weights[i];
                v += k.values[i];
            }
        }
        if w <= k.capacity() && best < v {
            best = v;
        }
    }
    best
}

#[test]
fn zero_one_knapsack_problem_test_random_weights() {
    const TEST_SIZE: usize = 8;
    let mut rand_sack_a = Problem01Knapsack::new(TEST_SIZE);
    assert_eq!(rand_sack_a.name(), "Problem01Knapsack");
    assert!(!rand_sack_a.is_legal());
    assert_eq!(rand_sack_a.problem_size(), TEST_SIZE);
    assert_eq!(rand_sack_a.weights_sum(), 0);

    rand_sack_a.randomize();
    assert!(rand_sack_a.is_legal());
    assert_eq!(rand_sack_a.problem_size(), TEST_SIZE);
    assert_ne!(rand_sack_a.weights_sum(), 0);
    assert_ne!(rand_sack_a.values_sum(), 0);
    assert_ne!(rand_sack_a.capacity(), 0);

    let rand_sack_b = Problem01Knapsack::random(TEST_SIZE);
    assert!(rand_sack_b.is_legal());
    assert_eq!(rand_sack_b.problem_size(), TEST_SIZE);
    assert_ne!(rand_sack_b.weights_sum(), 0);
    assert_ne!(rand_sack_b.values_sum(), 0);
    assert_ne!(rand_sack_b.capacity(), 0);

    let starter = rand_sack_b.starting_solution();
    assert!(rand_sack_b.is_legal());
    assert!(rand_sack_b.solution_is_legal(&starter));
    assert!(!rand_sack_b.solution_is_complete(&starter));
    assert_eq!(rand_sack_b.solution_score(&starter), ZERO_SCORE);
    assert_eq!(rand_sack_b.solution_score(&starter), starter.get_score());
    assert_eq!(
        rand_sack_b.solution_best_score(&starter),
        starter.get_best_score()
    );

    let thrown_dart = rand_sack_b.random_solution();
    assert!(rand_sack_b.is_legal());
    assert!(rand_sack_b.solution_is_legal(&thrown_dart));
    assert!(rand_sack_b.solution_is_complete(&thrown_dart));
    assert_eq!(
        rand_sack_b.solution_score(&thrown_dart),
        thrown_dart.get_score()
    );
    assert_eq!(
        rand_sack_b.solution_best_score(&thrown_dart),
        thrown_dart.get_best_score()
    );
}

#[test]
fn zero_one_knapsack_problem_test_random_knapsacks() {
    for size in [4, 5, 6, 7, 8, 16, 32, 64, 128, 256].iter() {
        let sack = Problem01Knapsack::random(*size);
        assert!(sack.is_legal(), "illegal random sack with size {}?!?", *size);
    }
}

#[test]
fn zero_one_knapsack_problem_test_children_regstration() {
    const NUM_BITS: usize = 32;
    let problem = Problem01Knapsack::random(NUM_BITS);
    assert!(problem.is_legal());
    let mut solver = DepthFirstSolver::new(NUM_BITS);
    solver.push(problem.starting_solution());
    assert!(!solver.is_empty());
    let root = solver.pop().expect("Solver should let us pop SOMETHING #1");
    assert!(solver.is_empty());
    assert!(problem.solution_is_legal(&root));
    assert!(!problem.solution_is_complete(&root));
    let children = problem.children_of_solution(&root);
    assert!(!children.is_empty());
    assert!(children.len() <= 2);
    for child in children {
        assert!(problem.solution_is_legal(&child));
        if !problem.solution_is_complete(&child) {
            solver.push(child);
        }
    }
    assert!(!solver.is_empty());
    assert!(solver.number_of_solutions() <= 2);
    let grandchild = solver.pop().expect("Solver should let us pop SOMETHING #2");
    assert!(solver.number_of_solutions() <= 1);
    assert!(problem.solution_is_legal(&grandchild));
    assert!(problem.is_legal());
}

#[test]
fn zero_one_knapsack_problem_test_find_depth_first_solution() {
    const NUM_DECISIONS: usize = 4;
    let little_knapsack = Problem01Knapsack::random(NUM_DECISIONS);
    let mut first_solver = DepthFirstSolver::new(NUM_DECISIONS);
    let time_limit = Duration::new(1, 0);
    assert!(little_knapsack.is_legal());
    let the_best = find_best_solution(&little_knapsack, &mut first_solver, time_limit);
    assert!(little_knapsack.solution_is_legal(&the_best));
    assert!(little_knapsack.solution_is_complete(&the_best));
    let best_score = the_best.get_score();
    assert!(ZERO_SCORE < best_score);
    assert_eq!(best_score, little_knapsack.solution_score(&the_best));
    assert_eq!(best_score, little_knapsack.solution_best_score(&the_best));
}

#[test]
fn knapsack_exhaustive_search_finds_optimum() {
    for _ in 0..5 {
        let k = Problem01Knapsack::random(8);
        let optimum = knapsack_optimum(&k);
        let mut dfs = DepthFirstSolver::new(8);
        let best = find_best_solution(&k, &mut dfs, Duration::new(1, 0));
        assert_eq!(best.get_score(), optimum);
        assert!(k.rules_audit_passed(&best));
        let mut bfs = BestFirstSolver::new(8);
        let best = find_best_solution(&k, &mut bfs, Duration::new(1, 0));
        assert_eq!(best.get_score(), optimum);
        assert!(k.rules_audit_passed(&best));
    }
}

#[test]
fn knapsack_scores_values_and_bounds_by_values() {
    let mut k = Problem01Knapsack::new(3);
    k.basis.weights = vec![4, 3, 2];
    k.basis.capacity = 5;
    k.values = vec![10, 7, 6];
    assert_eq!(k.values_sum(), 23);
    let start = k.starting_solution();
    assert_eq!(start.get_score(), 0);
    assert_eq!(start.get_best_score(), 23);
    let mut s = MinimalSolution::new(3);
    s.make_decision(0, true);
    k.apply_rules(&mut s); // headroom 1: items 1 and 2 close
    assert_eq!(s.get_decision(1), Some(false));
    assert_eq!(s.get_decision(2), Some(false));
    assert_eq!(s.get_score(), 10);
    assert_eq!(s.get_best_score(), 10);
    assert!(k.solution_is_complete(&s));
    let mut dfs = DepthFirstSolver::new(3);
    let best = find_best_solution(&k, &mut dfs, Duration::new(1, 0));
    assert_eq!(best.get_score(), 13); // items 1 and 2
}

#[test]
fn random_completion_completes_and_keeps_decisions() {
    let p = fixed_subset_sum();
    let start = p.starting_solution();
    for _ in 0..20 {
        let done = p.random_completion(&start, 1, true);
        assert!(p.solution_is_complete(&done));
        assert!(p.rules_audit_passed(&done));
        assert_eq!(done.get_decision(1), Some(true));
        assert_eq!(done.get_decision(0), Some(false)); // 7 no longer fits beside 5
        assert!(done.get_score() <= 9);
    }
}

#[test]
fn random_weights_are_sorted_largest_first() {
    let p = ProblemSubsetSum::random(64);
    assert!(p.weights.windows(2).all(|w| w[0] >= w[1]));
    assert!(p.weights.iter().all(|w| 1 <= *w && *w <= 4000));
    assert!(p.capacity <= p.weights_sum());
}
