use std::time::Duration;

use mhd_mem::{
    find_best_solution, BestfirstMhdMonteCarloSolver, MinimalSolution, Problem,
    Problem01Knapsack, ProblemSubsetSum, Solver,
};

#[test]
fn test_bf_mc_mhd_solver() {
    const NUM_DECISIONS: usize = 8;
    let problem = ProblemSubsetSum::random(NUM_DECISIONS);
    assert!(problem.is_legal());
    let mut solver = BestfirstMhdMonteCarloSolver::builder(problem.clone());

    assert!(solver.is_empty());
    let solution = MinimalSolution::random(NUM_DECISIONS);
    solver.push(solution);
    assert!(!solver.is_empty());
    assert_eq!(solver.number_of_solutions(), 1);
    let solution = MinimalSolution::random(NUM_DECISIONS);
    solver.push(solution);
    assert_eq!(solver.number_of_solutions(), 2);

    let _ = solver.pop();
    assert_eq!(solver.number_of_solutions(), 1);
    let _ = solver.pop();
    assert!(solver.is_empty());

    // Try again, to test clear
    let solution = MinimalSolution::random(NUM_DECISIONS);
    solver.push(solution);
    let solution = MinimalSolution::random(NUM_DECISIONS);
    solver.push(solution);
    assert_eq!(solver.number_of_solutions(), 2);
    solver.clear();
    assert!(solver.is_empty());
}

#[test]
fn test_bf_mcts_find_solution() {
    const FEW_DECISIONS: usize = 8;
    let knapsack = ProblemSubsetSum::random(FEW_DECISIONS);
    assert!(knapsack.is_legal());
    let mut solver = BestfirstMhdMonteCarloSolver::builder(knapsack.clone());
    let time_limit = Duration::new(1, 0);
    let the_best = find_best_solution(&knapsack, &mut solver, time_limit);
    assert!(solver.problem.rules_audit_passed(&the_best));
    assert!(solver.problem.solution_is_complete(&the_best));
    assert_eq!(solver.problem.solution_score(&the_best), the_best.get_score());
    assert_eq!(the_best.get_score(), knapsack.capacity);
}

#[test]
fn test_bf_mcts_find_01knapsack_solution() {
    const FEW_DECISIONS: usize = 8;
    let knapsack = Problem01Knapsack::random(FEW_DECISIONS);
    assert!(knapsack.is_legal());
    let mut solver = BestfirstMhdMonteCarloSolver::builder(knapsack.clone());
    let time_limit = Duration::new(1, 0);
    let the_best = find_best_solution(&knapsack, &mut solver, time_limit);
    assert!(solver.problem.rules_audit_passed(&the_best));
    assert!(solver.problem.solution_is_complete(&the_best));
    assert_eq!(solver.problem.solution_score(&the_best), the_best.get_score());
}

#[test]
fn test_bf_mcts_solve_mutliple_knapsacks() {
    const FEW_DECISIONS: usize = 8;
    let knapsack = Problem01Knapsack::random(FEW_DECISIONS);
    assert!(knapsack.is_legal());
    let mut solver = BestfirstMhdMonteCarloSolver::builder(knapsack.clone());
    let time_limit = Duration::new(1, 0);
    let the_best = find_best_solution(&knapsack, &mut solver, time_limit);
    assert!(solver.problem.rules_audit_passed(&the_best));
    assert!(solver.problem.solution_is_complete(&the_best));
    assert_eq!(solver.problem.solution_score(&the_best), the_best.get_score());

    solver.clear();
    assert!(solver.is_empty());
    let second_best = find_best_solution(&knapsack, &mut solver, time_limit);
    assert!(solver.problem.rules_audit_passed(&second_best));
    assert!(solver.problem.solution_is_complete(&second_best));
    assert_eq!(second_best.get_score(), the_best.get_score());
}

#[test]
fn bf_mhd_children_carry_memory_priorities() {
    let mut p = ProblemSubsetSum::new(4);
    p.weights = vec![7, 5, 4, 3];
    p.capacity = 9;
    let mut solver = BestfirstMhdMonteCarloSolver::builder(p.clone());
    let start = p.starting_solution();
    let (p_false, p_true) = solver
        .mhd_memory
        .read_2_priorities(start.mask(), start.query(), 0).unwrap();
    let children = solver.children_of_solution(&start, &p);
    assert_eq!(children.len(), 2);
    assert_eq!(children[0].get_decision(0), Some(true));
    assert_eq!(children[0].priority(), p_true);
    assert_eq!(children[1].get_decision(0), Some(false));
    assert_eq!(children[1].priority(), p_false);
    assert!(children.iter().all(|c| p.rules_audit_passed(c)));
}

#[test]
fn bf_mhd_children_write_only_complete_children() {
    let mut p = ProblemSubsetSum::new(4);
    p.weights = vec![3, 4, 5, 7];
    p.capacity = 9;
    let mut solver = BestfirstMhdMonteCarloSolver::builder(p.clone());
    // an incomplete parent whose children are incomplete: the memory is kept
    let start = p.starting_solution();
    let before = solver.mhd_memory.num_samples();
    let children = solver.children_of_solution(&start, &p);
    assert!(children.iter().all(|c| !p.solution_is_complete(c)));
    assert_eq!(solver.mhd_memory.num_samples(), before);
    // a parent with one open decision: both children are complete and get stored
    let mut parent = start.clone();
    parent.make_decision(0, false);
    parent.make_decision(1, false);
    parent.make_decision(2, false);
    p.apply_rules(&mut parent);
    assert!(!p.solution_is_complete(&parent));
    let children = solver.children_of_solution(&parent, &p);
    for c in children.iter() {
        assert!(p.solution_is_complete(c));
        let found = solver
            .mhd_memory
            .samples
            .iter()
            .find(|s| s.bytes == c.decisions)
            .expect("a complete child is stored");
        assert_eq!(found.score, c.get_score());
    }
}
