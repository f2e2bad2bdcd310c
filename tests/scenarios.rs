use std::time::Duration;

use mhd_mem::{
    find_best_solution, BestFirstSolver, BestfirstMhdMonteCarloSolver, DepthFirstSolver,
    MhdMemory, MhdMonteCarloSolver, MonteCarloTreeSolver, Problem, Problem01Knapsack,
    ProblemSubsetSum, Sample,
};

fn optimum(k: &Problem01Knapsack) -> u32 {
    let n = k.problem_size();
    (0u32..(1 << n))
        .filter_map(|mask| {
            let chosen = (0..n).filter(|i| mask & (1 << i) != 0);
            let w: u32 = chosen.clone().map(|i| k.basis.weights[i]).sum();
            let v: u32 = chosen.map(|i| k.values[i]).sum();
            if w <= k.capacity() {
                Some(v)
            } else {
                None
            }
        })
        .max()
        .unwrap()
}

#[test]
fn subset_sum_of_four_reaches_capacity_under_every_solver() {
    let limit = Duration::new(1, 0);
    for _ in 0..3 {
        let p = ProblemSubsetSum::random(4);
        let results = [
            find_best_solution(&p, &mut DepthFirstSolver::new(4), limit),
            find_best_solution(&p, &mut BestFirstSolver::new(4), limit),
            find_best_solution(&p, &mut MonteCarloTreeSolver::builder(p.clone()), limit),
            find_best_solution(&p, &mut MhdMonteCarloSolver::builder(p.clone()), limit),
            find_best_solution(&p, &mut BestfirstMhdMonteCarloSolver::builder(p.clone()), limit),
        ];
        for best in results.iter() {
            assert_eq!(best.get_score(), p.capacity);
            assert!(p.rules_audit_passed(best));
            assert_eq!(p.solution_score(best), p.solution_best_score(best));
        }
    }
}

#[test]
fn knapsack_of_eight_finds_optimum_under_every_solver() {
    let limit = Duration::new(1, 0);
    for _ in 0..3 {
        let k = Problem01Knapsack::random(8);
        let best_value = optimum(&k);
        let mut mcts = MonteCarloTreeSolver::builder(k.clone());
        let results = [
            find_best_solution(&k, &mut DepthFirstSolver::new(8), limit),
            find_best_solution(&k, &mut BestFirstSolver::new(8), limit),
            find_best_solution(&k, &mut mcts, limit),
            find_best_solution(&k, &mut MhdMonteCarloSolver::builder(k.clone()), limit),
            find_best_solution(&k, &mut BestfirstMhdMonteCarloSolver::builder(k.clone()), limit),
        ];
        for best in results.iter() {
            assert_eq!(best.get_score(), best_value);
            assert!(k.rules_audit_passed(best));
            assert!(k.solution_is_complete(best));
        }
        assert!(mcts.mcts_root.exhausted);
        assert!(mcts.mcts_root.counter <= 1 << 8);
    }
}

#[test]
fn deterministic_decisions_repeat() {
    let mut memory = MhdMemory::new(16);
    memory.write_n_random_samples(32).unwrap();
    let query = Sample::random(16);
    let mask = Sample::random(16);
    for index in 0..16 {
        let (p_false, p_true) = memory.read_2_priorities(&mask.bytes, &query.bytes, index).unwrap();
        if p_false != p_true {
            let first = memory.read_and_decide(&mask.bytes, &query.bytes, index, false).unwrap();
            let second = memory.read_and_decide(&mask.bytes, &query.bytes, index, false).unwrap();
            assert_eq!(first, second);
            assert_eq!(first, p_true > p_false);
        }
    }
}
