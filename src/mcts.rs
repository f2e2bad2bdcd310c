//! Monte-Carlo tree search over partial assignments: a lazily grown binary tree whose
//! nodes count visits, record the best score found below them, and are marked
//! exhausted once nothing better can be found below them. Branches are chosen by
//! UCT, computed in fixed point.
use vstd::prelude::*;

use crate::chance::{coin_flip, random_below};
use crate::fixed::{floor_log2, isqrt, isqrt_spec, lemma_isqrt_unique, log2_floor, LN2_FIXED};
use crate::memory::{decide, PRIORITY_ONE};
use crate::problem::{lemma_open_count_closes, open_count};
use crate::problem::{fits_size, Problem};
use crate::sample::ScoreType;
use crate::solution::MinimalSolution;
use crate::solver::Solver;
use crate::text::describe_node;
use vstd::string::StringExecFns;

verus! {

/// The value of an unvisited branch: larger than any visited one.
pub const UCB_MAX: u64 = 0xFFFF_FFFF_FFFF_FFFF;

/// The exploration constant `C_p = 2 sqrt 2`, as a fraction.
pub const C_P_NUM: u64 = 2_828_427;

pub const C_P_DEN: u64 = 1_000_000;

pub struct MonteTreeNode {
    pub exhausted: bool,
    pub counter: usize,
    pub max_score: ScoreType,
    pub true_branch: Option<Box<MonteTreeNode>>,
    pub false_branch: Option<Box<MonteTreeNode>>,
}

/// `ln(parent) / visits` in units of `PRIORITY_ONE` squared, with `ln(parent)` taken as
/// `floor(log2(parent)) ln 2`; an unvisited node counts one visit.
pub open spec fn uct_radicand(parent_counter: nat, counter: nat) -> nat {
    let visits = if counter == 0 {
        1
    } else {
        counter
    };
    ((log2_floor(parent_counter) * LN2_FIXED * PRIORITY_ONE) as int / (visits as int)) as nat
}

/// The UCT value of a branch: `UCB_MAX` while it does not exist.
pub open spec fn branch_ucb_spec(branch: Option<Box<MonteTreeNode>>, parent_counter: nat, high_score: nat) -> int {
    match branch {
        None => UCB_MAX as int,
        Some(n) => n.ucts_spec(parent_counter, high_score),
    }
}

/// The branch is absent, or present and not exhausted.
pub open spec fn open_branch(b: Option<Box<MonteTreeNode>>) -> bool {
    b matches Some(n) ==> !n.exhausted
}

impl MonteTreeNode {
    /// A node that is not exhausted keeps a branch open, and so does every node below.
    pub open spec fn inv_node(&self) -> bool
        decreases self,
    {
        &&& (self.true_branch matches Some(t) ==> t.inv_node())
        &&& (self.false_branch matches Some(f) ==> f.inv_node())
        &&& !self.exhausted ==> open_branch(self.true_branch) || open_branch(self.false_branch)
    }

    /// The UCT value of this node as a branch of a parent visited `parent_counter`
    /// times, given the best score `high_score`: zero when exhausted, `UCB_MAX` while
    /// unvisited, else `max_score / high_score + C_p sqrt(ln(parent) / visits)` in units
    /// of `PRIORITY_ONE`, with `ln(parent)` taken as `floor(log2(parent)) ln 2`.
    pub open spec fn ucts_spec(&self, parent_counter: nat, high_score: nat) -> int {
        if self.exhausted {
            0
        } else if self.counter == 0 {
            UCB_MAX as int
        } else {
            let exploit = if high_score == 0 {
                0
            } else {
                (self.max_score * PRIORITY_ONE) as int / (high_score as int)
            };
            exploit + (isqrt_spec(uct_radicand(parent_counter, self.counter as nat)) * C_P_NUM) as int
                / (C_P_DEN as int)
        }
    }

    pub fn default() -> (r: Self)
        ensures
            r.inv_node(),
            !r.exhausted,
            r.counter == 0,
            r.max_score == 0,
            r.true_branch is None,
            r.false_branch is None,
    {
        MonteTreeNode {
            exhausted: false,
            counter: 0,
            max_score: 0,
            true_branch: None,
            false_branch: None,
        }
    }

    pub fn new() -> (r: Self)
        ensures
            r.inv_node(),
            !r.exhausted,
            r.counter == 0,
            r.max_score == 0,
            r.true_branch is None,
            r.false_branch is None,
    {
        Self::default()
    }

    pub fn root() -> (r: Self)
        ensures
            r.inv_node(),
            !r.exhausted,
            r.counter == 0,
    {
        Self::new()
    }

    /// The subtree below `branch` as indented text, one node per line.
    pub fn debug_dump_branch(branch: &Option<Box<MonteTreeNode>>, depth: usize) -> String
        decreases branch,
    {
        let mut indent = String::new();
        let mut k: usize = 0;
        while k < depth
            invariant
                k <= depth,
            decreases depth - k,
        {
            indent.append("  ");
            k = k + 1;
        }
        match branch {
            None => {
                let mut result = String::new();
                result.append("None");
                result
            },
            Some(node) => {
                let mut result = describe_node(node.exhausted, node.max_score, node.counter);
                result.append("\n");
                indent.append("  ");
                let deeper = if depth < usize::MAX {
                    depth + 1
                } else {
                    depth
                };
                result.append(indent.as_str());
                result.append("True :");
                let t = Self::debug_dump_branch(&node.true_branch, deeper);
                result.append(t.as_str());
                result.append("\n");
                result.append(indent.as_str());
                result.append("False:");
                let f = Self::debug_dump_branch(&node.false_branch, deeper);
                result.append(f.as_str());
                result
            },
        }
    }

    /// The whole tree below this node as indented text.
    pub fn debug_dump_node(&self) -> String {
        let mut result = String::new();
        result.append("Root:");
        let mut body = describe_node(self.exhausted, self.max_score, self.counter);
        body.append("\n  True :");
        let t = Self::debug_dump_branch(&self.true_branch, 1);
        body.append(t.as_str());
        body.append("\n  False:");
        let f = Self::debug_dump_branch(&self.false_branch, 1);
        body.append(f.as_str());
        result.append(body.as_str());
        result
    }

    /// Drops both subtrees and resets the counters.
    pub fn clear(&mut self)
        ensures
            final(self).inv_node(),
            !final(self).exhausted,
            final(self).counter == 0,
            final(self).max_score == 0,
            final(self).true_branch is None,
            final(self).false_branch is None,
    {
        *self = Self::new();
    }

    /// The UCT value: see `ucts_spec`.
    pub fn ucts_value(&self, parent_counter: usize, high_score: ScoreType) -> (r: u64)
        ensures
            r == self.ucts_spec(parent_counter as nat, high_score as nat),
            self.exhausted ==> r == 0,
            !self.exhausted && self.counter == 0 ==> r == UCB_MAX,
            !self.exhausted && self.counter > 0 ==> r < 0x40_0000_0000_0000,
    {
        let visits: u64 = if self.counter == 0 {
            1
        } else {
            self.counter as u64
        };
        let lg = floor_log2(parent_counter as u64);
        proof {
            assert(lg * LN2_FIXED * PRIORITY_ONE <= 64 * 726_817 * 0x10_0000) by (nonlinear_arith)
                requires
                    lg < 64,
            ;
        }
        let radicand = lg * LN2_FIXED * PRIORITY_ONE / visits;
        let root = isqrt(radicand);
        proof {
            assert(radicand as nat == uct_radicand(parent_counter as nat, self.counter as nat));
            assert(root * root <= radicand);
            assert(root <= 0x100_0000) by (nonlinear_arith)
                requires
                    root * root <= radicand,
                    radicand <= 64 * 726_817 * 0x10_0000,
            ;
        }
        let result: u64 = if self.exhausted {
            0
        } else if self.counter == 0 {
            UCB_MAX
        } else {
            let exploit: u64 = if high_score == 0 {
                0
            } else {
                proof {
                    let (m, p, h) = (self.max_score as int, PRIORITY_ONE as int, high_score as int);
                    assert(m * p / h <= m * p) by (nonlinear_arith)
                        requires
                            h >= 1,
                            m >= 0,
                            p >= 0,
                    ;
                    assert(m * p <= 0xFFFF_FFFF * 0x10_0000) by (nonlinear_arith)
                        requires
                            0 <= m <= 0xFFFF_FFFF,
                            p == 0x10_0000,
                    ;
                }
                (self.max_score as u64) * PRIORITY_ONE / (high_score as u64)
            };
            exploit + root * C_P_NUM / C_P_DEN
        };
        proof {
            lemma_isqrt_unique(uct_radicand(parent_counter as nat, self.counter as nat), root as nat);
        }
        result
    }

    /// The UCT value of a branch: `UCB_MAX` while it does not exist.
    pub fn ucts_branch_ucb(
        branch: &Option<Box<MonteTreeNode>>,
        parent_counter: usize,
        high_score: ScoreType,
    ) -> (r: u64)
        ensures
            r == branch_ucb_spec(*branch, parent_counter as nat, high_score as nat),
            branch is None ==> r == UCB_MAX,
            branch matches Some(n) ==> (n.exhausted ==> r == 0) && (!n.exhausted && n.counter == 0
                ==> r == UCB_MAX) && (!n.exhausted && n.counter > 0 ==> r < 0x40_0000_0000_0000),
    {
        match branch {
            None => UCB_MAX,
            Some(node) => node.ucts_value(parent_counter, high_score),
        }
    }

    /// The branch to descend into: never an exhausted one; otherwise the larger UCT
    /// value, or, in full-monte mode with both branches visited, a draw in proportion
    /// to the two values; a fair coin decides a tie.
    pub fn best_ucb_branch(&self, full_monte: bool, high_score: ScoreType) -> (r: bool)
        requires
            !self.exhausted,
            self.inv_node(),
        ensures
            r ==> open_branch(self.true_branch),
            !r ==> open_branch(self.false_branch),
            ({
                let tu = branch_ucb_spec(self.true_branch, self.counter as nat, high_score as nat);
                let fu = branch_ucb_spec(self.false_branch, self.counter as nat, high_score as nat);
                &&& tu == 0 && fu > 0 ==> !r
                &&& fu == 0 && tu > 0 ==> r
                &&& !full_monte || tu == UCB_MAX || fu == UCB_MAX ==> (fu < tu ==> r) && (tu < fu
                    ==> !r)
            }),
    {
        let true_ucb = Self::ucts_branch_ucb(&self.true_branch, self.counter, high_score);
        let false_ucb = Self::ucts_branch_ucb(&self.false_branch, self.counter, high_score);
        let true_closed = match &self.true_branch {
            Some(node) => node.exhausted,
            None => false,
        };
        let false_closed = match &self.false_branch {
            Some(node) => node.exhausted,
            None => false,
        };
        if true_closed {
            return false;
        }
        if false_closed {
            return true;
        }
        let sampled = full_monte && true_ucb < UCB_MAX && false_ucb < UCB_MAX;
        let draw: u64 = if sampled && (true_ucb > 0 || false_ucb > 0) {
            random_below(true_ucb + false_ucb)
        } else {
            0
        };
        let coin = coin_flip();
        decide(false_ucb, true_ucb, sampled, draw, coin)
    }

    /// One descent: extends `solution` along the chosen branches, applying the rules
    /// after each decision, until it is complete or its bound no longer beats
    /// `high_score`. Counts the visits, records the best score below each node, and
    /// marks nodes exhausted. Returns the score reached.
    pub fn grow_tree<P: Problem>(
        &mut self,
        problem: &P,
        solution: &mut MinimalSolution,
        full_monte: bool,
        high_score: ScoreType,
    ) -> (r: ScoreType)
        requires
            old(self).inv_node(),
            !old(self).exhausted,
            problem.wf_spec(),
            fits_size(*old(solution), problem.size_spec()),
            problem.audit_spec(*old(solution)),
        ensures
            final(self).inv_node(),
            fits_size(*final(solution), problem.size_spec()),
            problem.audit_spec(*final(solution)),
            final(solution).complete_upto(problem.size_spec()) || final(solution).best_score
                <= high_score,
            r == final(solution).score,
            forall|i: nat|
                i < problem.size_spec() && (#[trigger] old(solution).decision(i)) is Some
                    ==> final(solution).decision(i) == old(solution).decision(i),
            final(self).max_score == if old(self).max_score < r {
                r
            } else {
                old(self).max_score
            },
            old(solution).complete_upto(problem.size_spec()) ==> final(self).exhausted
                && final(self).counter == old(self).counter,
            !old(solution).complete_upto(problem.size_spec()) && old(self).counter < usize::MAX
                ==> final(self).counter == old(self).counter + 1,
        decreases open_count(*old(solution), problem.size_spec()),
    {
        let ghost n = problem.size_spec();
        match problem.first_open_decision(solution) {
            None => {
                proof {
                    assert(self.true_branch matches Some(t) ==> t.inv_node());
                    assert(self.false_branch matches Some(f) ==> f.inv_node());
                }
                self.exhausted = true;
                let new_score = solution.score;
                if self.max_score < new_score {
                    self.max_score = new_score;
                }
                new_score
            },
            Some(index) => {
                if self.counter < usize::MAX {
                    self.counter = self.counter + 1;
                }
                let decision = self.best_ucb_branch(full_monte, high_score);
                let ghost before = *solution;
                let child_solution = problem.produce_child(solution, index, decision);
                *solution = child_solution;
                proof {
                    lemma_open_count_closes(before, *solution, n, index as nat);
                }
                let mut node: Box<MonteTreeNode> = if decision {
                    match self.true_branch.take() {
                        Some(b) => b,
                        None => Box::new(MonteTreeNode::new()),
                    }
                } else {
                    match self.false_branch.take() {
                        Some(b) => b,
                        None => Box::new(MonteTreeNode::new()),
                    }
                };
                proof {
                    assert(node.inv_node());
                    assert(decision ==> self.false_branch == old(self).false_branch);
                    assert(!decision ==> self.true_branch == old(self).true_branch);
                }
                let new_score: ScoreType;
                if solution.best_score <= high_score || problem.solution_is_complete(solution) {
                    proof {
                        assert(node.true_branch matches Some(t) ==> t.inv_node());
                        assert(node.false_branch matches Some(f) ==> f.inv_node());
                    }
                    node.exhausted = true;
                    new_score = solution.score;
                    proof {
                        assert(node.inv_node());
                    }
                } else {
                    new_score = node.grow_tree(problem, solution, full_monte, high_score);
                }
                if self.max_score < new_score {
                    self.max_score = new_score;
                }
                if decision {
                    self.true_branch = Some(node);
                } else {
                    self.false_branch = Some(node);
                }
                let both_closed = match (&self.true_branch, &self.false_branch) {
                    (Some(t), Some(f)) => t.exhausted && f.exhausted,
                    _ => false,
                };
                self.exhausted = both_closed;
                new_score
            },
        }
    }
}

/// MCTS as a solver: each pop is one descent from the problem's starting solution.
pub struct MonteCarloTreeSolver<P: Problem> {
    pub full_monte: bool,
    pub mcts_root: MonteTreeNode,
    pub best_solution: MinimalSolution,
    pub problem: P,
}

impl<P: Problem> MonteCarloTreeSolver<P> {
    /// A solver for `problem` with an empty tree and a random feasible best solution.
    pub fn builder(problem: P) -> (r: Self)
        requires
            problem.wf_spec(),
        ensures
            r.problem == problem,
            r.mcts_root.inv_node(),
            !r.mcts_root.exhausted,
            !r.full_monte,
    {
        let best = problem.random_solution();
        MonteCarloTreeSolver {
            full_monte: false,
            mcts_root: MonteTreeNode::root(),
            best_solution: best,
            problem,
        }
    }
}

impl<P: Problem> Solver for MonteCarloTreeSolver<P> {
    open spec fn inv(&self) -> bool {
        self.problem.wf_spec() && self.mcts_root.inv_node()
    }

    /// No queue: pushed solutions are dropped.
    open spec fn pending(&self) -> Seq<MinimalSolution> {
        Seq::empty()
    }

    open spec fn keeps_queue() -> bool {
        false
    }

    /// The problem's children, the solver unchanged.
    open spec fn children_spec(before: Self, parent: MinimalSolution, r: Seq<MinimalSolution>, after: Self) -> bool {
        after == before
    }

    /// The visits of the root.
    open spec fn count_spec(&self) -> nat {
        self.mcts_root.counter as nat
    }

    /// Finished once the root is exhausted.
    open spec fn finished_spec(&self) -> bool {
        self.mcts_root.exhausted
    }

    fn children_of_solution<Q: Problem>(&mut self, parent: &MinimalSolution, problem: &Q) -> (r:
        Vec<MinimalSolution>) {
        problem.children_of_solution(parent)
    }

    open spec fn best_spec(&self) -> MinimalSolution {
        self.best_solution
    }

    /// The tree is its own queue: a pushed partial solution is dropped.
    open spec fn push_spec(before: Self, s: MinimalSolution, after: Self) -> bool {
        after == before
    }

    /// A popped solution is an audited solution of the solver's problem, complete or
    /// bounded by the best score; nothing is popped once the root is exhausted.
    open spec fn pop_spec(before: Self, r: Option<MinimalSolution>, after: Self) -> bool {
        &&& after.problem == before.problem
        &&& before.mcts_root.exhausted <==> r is None
        &&& r matches Some(t) ==> fits_size(t, after.problem.size_spec()) && after.problem.audit_spec(t)
            && (t.complete_upto(after.problem.size_spec()) || t.best_score
            <= before.best_solution.score)
    }

    fn name(&self) -> &'static str {
        "MonteCarloSolver"
    }

    fn number_of_solutions(&self) -> (r: usize) {
        self.mcts_root.counter
    }

    fn is_empty(&self) -> (r: bool) {
        0 == self.mcts_root.counter
    }

    fn is_finished(&self) -> (r: bool) {
        self.mcts_root.exhausted
    }

    fn clear(&mut self) {
        self.mcts_root.clear();
        let size = self.best_solution.size;
        self.best_solution = MinimalSolution::new(size);
    }

    fn push(&mut self, solution: MinimalSolution) {
    }

    fn pop(&mut self) -> (r: Option<MinimalSolution>) {
        if self.mcts_root.exhausted {
            return None;
        }
        let mut result = self.problem.starting_solution();
        let high_score = self.best_solution.score;
        let _score = self.mcts_root.grow_tree(&self.problem, &mut result, self.full_monte, high_score);
        Some(result)
    }

    fn best_solution(&self) -> (r: &MinimalSolution) {
        &self.best_solution
    }

    fn store_best_solution(&mut self, sol: MinimalSolution) {
        self.best_solution = sol;
    }
}

} // verus!
