use std::time::Duration;

use mhd_mem::{
    find_best_solution, new_best_solution, MhdMonteCarloSolver, Problem, Problem01Knapsack,
    ProblemSubsetSum, Solver,
};

#[test]
fn mhd_mc_solver_test_mc_mhd_solver() {
    const NUM_DECISIONS: usize = 8;
    let problem = ProblemSubsetSum::random(NUM_DECISIONS);
    assert!(problem.is_legal());

    let mut solver = MhdMonteCarloSolver::builder(problem.clone());
    assert!(!solver.is_empty()); // bootstraping!
    assert_eq!(solver.width(), NUM_DECISIONS);
    assert!(solver.number_of_solutions() <= NUM_DECISIONS);

    let solution1 = solver.pop().expect("pop() should return Some(sol)");
    assert!(!solver.is_empty());
    assert!(problem.rules_audit_passed(&solution1));
    assert!(problem.solution_is_complete(&solution1));
    new_best_solution(&problem, &mut solver, solution1);

    if let Some(solution2) = solver.pop() {
        assert!(!solver.is_empty());
        assert!(solver.problem.rules_audit_passed(&solution2));
        assert!(problem.solution_is_complete(&solution2));
        new_best_solution(&problem, &mut solver, solution2);
    }
}

#[test]
fn mhd_mc_solver_test_mcts_find_solution() {
    const FEW_DECISIONS: usize = 8;
    let knapsack = ProblemSubsetSum::random(FEW_DECISIONS);
    assert!(knapsack.is_legal());
    let mut solver = MhdMonteCarloSolver::builder(knapsack.clone());
    let time_limit = Duration::new(1, 0);
    let the_best = find_best_solution(&knapsack, &mut solver, time_limit);
    assert!(solver.problem.rules_audit_passed(&the_best));
    assert!(solver.problem.solution_is_complete(&the_best));
    assert_eq!(solver.problem.solution_score(&the_best), the_best.get_score());
    assert!(the_best.get_score() <= solver.problem.capacity);
}

#[test]
fn mhd_mc_solver_test_mcts_find_01knapsack_solution() {
    const FEW_DECISIONS: usize = 8;
    let knapsack = Problem01Knapsack::random(FEW_DECISIONS);
    assert!(knapsack.is_legal());
    let mut solver = MhdMonteCarloSolver::builder(knapsack.clone());
    let time_limit = Duration::new(1, 0);
    let the_best = find_best_solution(&knapsack, &mut solver, time_limit);
    assert!(solver.problem.rules_audit_passed(&the_best));
    assert!(solver.problem.solution_is_complete(&the_best));
    assert_eq!(solver.problem.solution_score(&the_best), the_best.get_score());
}

#[test]
fn mhd_mc_solver_test_mcts_solve_mutliple_knapsacks() {
    const FEW_DECISIONS: usize = 8;
    let knapsack = Problem01Knapsack::random(FEW_DECISIONS);
    assert!(knapsack.is_legal());
    let mut solver = MhdMonteCarloSolver::builder(knapsack.clone());
    let time_limit = Duration::new(1, 0);
    let the_best = find_best_solution(&knapsack, &mut solver, time_limit);
    assert!(solver.problem.rules_audit_passed(&the_best));
    assert!(solver.problem.solution_is_complete(&the_best));
    assert_eq!(solver.problem.solution_score(&the_best), the_best.get_score());

    // Now test solver.clear()!!!
    solver.clear();
    assert!(!solver.is_empty()); // Bootstrapping, again!
    solver.full_monte = true;
    let second_best = find_best_solution(&knapsack, &mut solver, time_limit);
    assert!(solver.problem.rules_audit_passed(&second_best));
    assert!(solver.problem.solution_is_complete(&second_best));
    assert_eq!(
        solver.problem.solution_score(&second_best),
        second_best.get_score()
    );
}

#[test]
fn mhd_mc_rollouts_exhaust_a_small_problem() {
    let mut p = ProblemSubsetSum::new(4);
    p.weights = vec![7, 5, 4, 3];
    p.capacity = 9;
    let mut solver = MhdMonteCarloSolver::builder(p.clone());
    let mut seen = Vec::new();
    while let Some(s) = solver.pop() {
        assert!(p.rules_audit_passed(&s));
        assert!(!seen.contains(&s.decisions));
        seen.push(s.decisions.clone());
        assert!(seen.len() <= 16);
    }
    let best = find_best_solution(&p, &mut MhdMonteCarloSolver::builder(p.clone()), Duration::new(1, 0));
    assert_eq!(best.get_score(), 9);
}

#[test]
fn rollouts_store_the_solution_score() {
    let mut p = ProblemSubsetSum::new(4);
    p.weights = vec![7, 5, 4, 3];
    p.capacity = 9;
    let mut solver = MhdMonteCarloSolver::builder(p.clone());
    solver.bootstrapped.clear();
    while let Some(s) = solver.pop() {
        let last = solver.mhd_memory.samples.last().unwrap();
        assert_eq!(last.bytes, s.decisions);
        assert_eq!(last.score, s.get_score());
    }
}
