use std::time::Duration;

use mhd_mem::fixed::{floor_log2, isqrt};
use mhd_mem::mcts::UCB_MAX;
use mhd_mem::{
    find_best_solution, new_best_solution, MonteCarloTreeSolver, MonteTreeNode, Problem,
    Problem01Knapsack, ProblemSubsetSum, Solver, ZERO_SCORE,
};

#[test]
fn test_monte_tree() {
    const NUM_DECISIONS: usize = 64;
    let problem = ProblemSubsetSum::random(NUM_DECISIONS);
    assert!(problem.is_legal());
    let solver = MonteCarloTreeSolver::builder(problem.clone());
    assert_eq!(solver.mcts_root.max_score, ZERO_SCORE);

    let best_score = solver.best_solution().get_score();
    assert_eq!(solver.mcts_root.ucts_value(0, best_score), UCB_MAX);
    assert_eq!(
        MonteTreeNode::ucts_branch_ucb(&solver.mcts_root.true_branch, 0, best_score),
        UCB_MAX
    );
    assert_eq!(
        MonteTreeNode::ucts_branch_ucb(&solver.mcts_root.false_branch, 0, best_score),
        UCB_MAX
    );
}

#[test]
fn test_mcts_solver() {
    const NUM_DECISIONS: usize = 8;
    let problem = ProblemSubsetSum::random(NUM_DECISIONS);
    assert!(problem.is_legal());
    let mut solver = MonteCarloTreeSolver::builder(problem.clone());
    assert!(solver.is_empty());

    let solution1 = solver.pop().expect("pop() should return Some(sol)");
    assert!(!solver.is_empty());
    assert!(problem.rules_audit_passed(&solution1));
    if problem.solution_is_complete(&solution1) {
        new_best_solution(&problem, &mut solver, solution1);
    }
    if let Some(solution2) = solver.pop() {
        assert!(problem.rules_audit_passed(&solution2));
        if problem.solution_is_complete(&solution2) {
            new_best_solution(&problem, &mut solver, solution2);
        }
    }
}

#[test]
fn mcts_solver_test_mcts_find_solution() {
    const FEW_DECISIONS: usize = 8;
    const MAX_COUNTER: usize = 1 << FEW_DECISIONS;
    let knapsack = ProblemSubsetSum::random(FEW_DECISIONS);
    assert!(knapsack.is_legal());
    let mut solver = MonteCarloTreeSolver::builder(knapsack.clone());
    let time_limit = Duration::new(1, 0);
    let the_best = find_best_solution(&knapsack, &mut solver, time_limit);
    assert!(solver.mcts_root.exhausted);
    assert!(solver.mcts_root.counter <= MAX_COUNTER);
    assert!(solver.problem.solution_is_legal(&the_best));
    assert!(solver.problem.solution_is_complete(&the_best));
    assert_eq!(solver.problem.solution_score(&the_best), the_best.get_score());
    assert_eq!(the_best.get_score(), knapsack.capacity);
}

#[test]
fn mcts_solver_test_mcts_find_01knapsack_solution() {
    const FEW_DECISIONS: usize = 8;
    const MAX_COUNTER: usize = 1 << FEW_DECISIONS;
    let knapsack = Problem01Knapsack::random(FEW_DECISIONS);
    assert!(knapsack.is_legal());
    let mut solver = MonteCarloTreeSolver::builder(knapsack.clone());
    let time_limit = Duration::new(1, 0);
    let the_best = find_best_solution(&knapsack, &mut solver, time_limit);
    assert!(solver.mcts_root.exhausted);
    assert!(solver.mcts_root.counter <= MAX_COUNTER);
    assert!(solver.problem.solution_is_legal(&the_best));
    assert!(solver.problem.solution_is_complete(&the_best));
    assert_eq!(solver.problem.solution_score(&the_best), the_best.get_score());
}

#[test]
fn mcts_solver_test_mcts_solve_mutliple_knapsacks() {
    const FEW_DECISIONS: usize = 8;
    const MAX_COUNTER: usize = 1 << FEW_DECISIONS;
    let knapsack = Problem01Knapsack::random(FEW_DECISIONS);
    assert!(knapsack.is_legal());
    let mut solver = MonteCarloTreeSolver::builder(knapsack.clone());
    let time_limit = Duration::new(1, 0);
    let the_best = find_best_solution(&knapsack, &mut solver, time_limit);
    assert!(solver.problem.solution_is_legal(&the_best));
    assert!(solver.problem.solution_is_complete(&the_best));
    assert_eq!(solver.problem.solution_score(&the_best), the_best.get_score());

    // Now test solver.clear()!!!
    solver.clear();
    assert!(solver.is_empty());
    assert_eq!(solver.mcts_root.counter, 0);
    assert!(!solver.mcts_root.exhausted);
    assert!(solver.mcts_root.true_branch.is_none());
    assert!(solver.mcts_root.false_branch.is_none());

    solver.full_monte = true;
    let second_best = find_best_solution(&knapsack, &mut solver, time_limit);
    assert!(solver.mcts_root.exhausted);
    assert!(solver.mcts_root.counter <= MAX_COUNTER);
    assert!(solver.problem.solution_is_legal(&second_best));
    assert!(solver.problem.solution_is_complete(&second_best));
    assert_eq!(
        solver.problem.solution_score(&second_best),
        second_best.get_score()
    );
}

#[test]
fn fixed_point_helpers() {
    assert_eq!(floor_log2(0), 0);
    assert_eq!(floor_log2(1), 0);
    assert_eq!(floor_log2(2), 1);
    assert_eq!(floor_log2(1023), 9);
    assert_eq!(floor_log2(1024), 10);
    assert_eq!(floor_log2(u64::MAX), 63);
    assert_eq!(isqrt(0), 0);
    assert_eq!(isqrt(15), 3);
    assert_eq!(isqrt(16), 4);
    assert_eq!(isqrt(u64::MAX), 0xFFFF_FFFF);
}

#[test]
fn uct_of_a_visited_node() {
    let mut node = MonteTreeNode::new();
    node.counter = 2;
    node.max_score = 50;
    // exploit 50/100 = 0.5; explore 2.828427 * sqrt(floor(log2 8) ln 2 / 2)
    let r = node.ucts_value(8, 100);
    let radicand = 3 * 726_817u64 * 0x10_0000 / 2;
    let root = isqrt(radicand);
    assert_eq!(r, 0x8_0000 + root * 2_828_427 / 1_000_000);
    node.exhausted = true;
    assert_eq!(node.ucts_value(8, 100), 0);
}

#[test]
fn tree_dump_lists_nodes() {
    let mut root = MonteTreeNode::new();
    assert_eq!(
        root.debug_dump_node(),
        "Root:ex false, max 0, cntr 0\n  True :None\n  False:None"
    );
    let mut child = MonteTreeNode::new();
    child.exhausted = true;
    child.max_score = 7;
    child.counter = 1;
    root.true_branch = Some(Box::new(child));
    let dump = MonteTreeNode::debug_dump_branch(&root.true_branch, 0);
    assert_eq!(dump, "ex true, max 7, cntr 1\n  True :None\n  False:None");
}
