//! The solver contract (a container of partial solutions plus the best complete
//! solution found so far) and its stack and best-first instances.
use vstd::prelude::*;

use crate::problem::{are_children_of, fits_size, Problem};
use crate::solution::MinimalSolution;

verus! {

/// What the search engine asks of a solver.
pub trait Solver: Sized {
    /// The solver's own invariant, kept by every operation.
    spec fn inv(&self) -> bool;

    /// The best complete solution stored so far.
    spec fn best_spec(&self) -> MinimalSolution;

    /// How `push` of `s` turns `before` into `after`.
    spec fn push_spec(before: Self, s: MinimalSolution, after: Self) -> bool;

    /// How `pop` turns `before` into `after` while returning `r`.
    spec fn pop_spec(before: Self, r: Option<MinimalSolution>, after: Self) -> bool;

    /// What `children_of_solution` does beyond generating the problem's children.
    spec fn children_spec(before: Self, parent: MinimalSolution, r: Seq<MinimalSolution>, after: Self) -> bool;

    /// The partial solutions waiting in the solver's queue.
    spec fn pending(&self) -> Seq<MinimalSolution>;

    /// The solver is a queue: `push` adds to `pending`, `pop` takes from it.
    spec fn keeps_queue() -> bool;

    /// The number of solutions the solver reports.
    spec fn count_spec(&self) -> nat;

    /// The solver has nothing left to offer.
    spec fn finished_spec(&self) -> bool;

    fn name(&self) -> &'static str;

    fn number_of_solutions(&self) -> (r: usize)
        ensures
            r == self.count_spec(),
    ;

    fn is_empty(&self) -> (r: bool)
        ensures
            r == (self.count_spec() == 0),
    {
        0 == self.number_of_solutions()
    }

    fn is_finished(&self) -> (r: bool)
        ensures
            r == self.finished_spec(),
    ;

    fn clear(&mut self)
        requires
            old(self).inv(),
        ensures
            final(self).inv(),
    ;

    fn push(&mut self, solution: MinimalSolution)
        requires
            old(self).inv(),
        ensures
            final(self).inv(),
            final(self).best_spec() == old(self).best_spec(),
            Self::push_spec(*old(self), solution, *final(self)),
            Self::keeps_queue() ==> final(self).pending() == old(self).pending().push(solution),
    ;

    fn pop(&mut self) -> (r: Option<MinimalSolution>)
        requires
            old(self).inv(),
        ensures
            final(self).inv(),
            final(self).best_spec() == old(self).best_spec(),
            Self::pop_spec(*old(self), r, *final(self)),
            Self::keeps_queue() ==> match r {
                None => old(self).pending().len() == 0 && final(self).pending() == old(self).pending(),
                Some(q) => exists|k: int|
                    0 <= k < old(self).pending().len() && q == old(self).pending()[k]
                        && final(self).pending() == old(self).pending().remove(k),
            },
    ;

    fn best_solution(&self) -> (r: &MinimalSolution)
        ensures
            *r == self.best_spec(),
    ;

    /// The children of an incomplete audited solution, as the search engine branches
    /// on them: the problem's two children, with whatever `children_spec` adds.
    fn children_of_solution<Q: Problem>(&mut self, parent: &MinimalSolution, problem: &Q) -> (r:
        Vec<MinimalSolution>)
        requires
            old(self).inv(),
            problem.wf_spec(),
            fits_size(*parent, problem.size_spec()),
            problem.audit_spec(*parent),
            !parent.complete_upto(problem.size_spec()),
        ensures
            final(self).inv(),
            final(self).best_spec() == old(self).best_spec(),
            are_children_of(problem, *parent, r@),
            Self::children_spec(*old(self), *parent, r@, *final(self)),
            Self::keeps_queue() ==> final(self).pending() == old(self).pending(),
    ;

    fn store_best_solution(&mut self, sol: MinimalSolution)
        requires
            old(self).inv(),
        ensures
            final(self).inv(),
            final(self).best_spec() == sol,
            Self::keeps_queue() ==> final(self).pending() == old(self).pending(),
    ;
}

/// A LIFO stack of partial solutions.
pub struct DepthFirstSolver {
    pub solutions: Vec<MinimalSolution>,
    pub best_solution: MinimalSolution,
}

impl DepthFirstSolver {
    pub fn new(size: usize) -> (r: Self)
        ensures
            r.solutions@.len() == 0,
            r.best_solution.size == size,
    {
        DepthFirstSolver { solutions: Vec::new(), best_solution: MinimalSolution::new(size) }
    }
}

impl Solver for DepthFirstSolver {
    open spec fn inv(&self) -> bool {
        true
    }

    open spec fn pending(&self) -> Seq<MinimalSolution> {
        self.solutions@
    }

    open spec fn keeps_queue() -> bool {
        true
    }

    /// The problem's children, the solver unchanged.
    open spec fn children_spec(before: Self, parent: MinimalSolution, r: Seq<MinimalSolution>, after: Self) -> bool {
        after == before
    }

    open spec fn count_spec(&self) -> nat {
        self.solutions@.len()
    }

    /// Finished once the queue is empty.
    open spec fn finished_spec(&self) -> bool {
        self.solutions@.len() == 0
    }

    fn is_finished(&self) -> (r: bool) {
        self.solutions.len() == 0
    }

    fn children_of_solution<Q: Problem>(&mut self, parent: &MinimalSolution, problem: &Q) -> (r:
        Vec<MinimalSolution>) {
        problem.children_of_solution(parent)
    }

    open spec fn best_spec(&self) -> MinimalSolution {
        self.best_solution
    }

    open spec fn push_spec(before: Self, s: MinimalSolution, after: Self) -> bool {
        after.solutions@ == before.solutions@.push(s)
    }

    /// The last pushed solution leaves first.
    open spec fn pop_spec(before: Self, r: Option<MinimalSolution>, after: Self) -> bool {
        if before.solutions@.len() == 0 {
            r is None && after.solutions@ == before.solutions@
        } else {
            r == Some(before.solutions@.last()) && after.solutions@ == before.solutions@.drop_last()
        }
    }

    fn name(&self) -> &'static str {
        "DepthFirstSolver"
    }

    fn number_of_solutions(&self) -> (r: usize)
        ensures
            r == self.solutions@.len(),
    {
        self.solutions.len()
    }

    fn clear(&mut self)
        ensures
            final(self).solutions@.len() == 0,
    {
        self.solutions = Vec::new();
    }

    fn push(&mut self, solution: MinimalSolution) {
        self.solutions.push(solution);
    }

    fn pop(&mut self) -> (r: Option<MinimalSolution>) {
        let ghost before = self.solutions@;
        let r = self.solutions.pop();
        proof {
            if before.len() > 0 {
                let k = before.len() - 1;
                assert(before.drop_last() =~= before.remove(k));
                assert(old(self).pending() == before);
                assert(self.pending() == self.solutions@);
                assert(0 <= k < before.len() && r->Some_0 == before[k] && self.solutions@
                    == before.remove(k));
            }
        }
        r
    }

    fn best_solution(&self) -> (r: &MinimalSolution) {
        &self.best_solution
    }

    fn store_best_solution(&mut self, sol: MinimalSolution) {
        self.best_solution = sol;
    }
}

/// The index of the first solution with the largest upper bound.
pub open spec fn is_first_max(ss: Seq<MinimalSolution>, k: int) -> bool {
    &&& 0 <= k < ss.len()
    &&& forall|j: int| 0 <= j < ss.len() ==> (#[trigger] ss[j]).best_score <= ss[k].best_score
    &&& forall|j: int| 0 <= j < k ==> (#[trigger] ss[j]).best_score < ss[k].best_score
}

/// A priority queue of partial solutions, the largest upper bound first (the
/// earliest pushed among equals).
pub struct BestFirstSolver {
    pub solutions: Vec<MinimalSolution>,
    pub best_solution: MinimalSolution,
}

impl BestFirstSolver {
    pub fn new(size: usize) -> (r: Self)
        ensures
            r.solutions@.len() == 0,
            r.best_solution.size == size,
    {
        BestFirstSolver { solutions: Vec::new(), best_solution: MinimalSolution::new(size) }
    }

    fn index_of_best(&self) -> (r: usize)
        requires
            self.solutions@.len() > 0,
        ensures
            is_first_max(self.solutions@, r as int),
    {
        let ss = &self.solutions;
        let mut k: usize = 0;
        let mut i: usize = 1;
        while i < ss.len()
            invariant
                1 <= i <= ss@.len(),
                k < i,
                forall|j: int| 0 <= j < i ==> (#[trigger] ss@[j]).best_score <= ss@[k as int].best_score,
                forall|j: int| 0 <= j < k ==> (#[trigger] ss@[j]).best_score < ss@[k as int].best_score,
            decreases ss@.len() - i,
        {
            if ss[k].best_score < ss[i].best_score {
                k = i;
            }
            i = i + 1;
        }
        k
    }
}

impl Solver for BestFirstSolver {
    open spec fn inv(&self) -> bool {
        true
    }

    open spec fn pending(&self) -> Seq<MinimalSolution> {
        self.solutions@
    }

    open spec fn keeps_queue() -> bool {
        true
    }

    /// The problem's children, the solver unchanged.
    open spec fn children_spec(before: Self, parent: MinimalSolution, r: Seq<MinimalSolution>, after: Self) -> bool {
        after == before
    }

    open spec fn count_spec(&self) -> nat {
        self.solutions@.len()
    }

    /// Finished once the queue is empty.
    open spec fn finished_spec(&self) -> bool {
        self.solutions@.len() == 0
    }

    fn is_finished(&self) -> (r: bool) {
        self.solutions.len() == 0
    }

    fn children_of_solution<Q: Problem>(&mut self, parent: &MinimalSolution, problem: &Q) -> (r:
        Vec<MinimalSolution>) {
        problem.children_of_solution(parent)
    }

    open spec fn best_spec(&self) -> MinimalSolution {
        self.best_solution
    }

    open spec fn push_spec(before: Self, s: MinimalSolution, after: Self) -> bool {
        after.solutions@ == before.solutions@.push(s)
    }

    /// The first solution with the largest upper bound leaves.
    open spec fn pop_spec(before: Self, r: Option<MinimalSolution>, after: Self) -> bool {
        if before.solutions@.len() == 0 {
            r is None && after.solutions@ == before.solutions@
        } else {
            exists|k: int|
                is_first_max(before.solutions@, k) && r == Some(before.solutions@[k])
                    && after.solutions@ == before.solutions@.remove(k)
        }
    }

    fn name(&self) -> &'static str {
        "BestFirstSolver"
    }

    fn number_of_solutions(&self) -> (r: usize)
        ensures
            r == self.solutions@.len(),
    {
        self.solutions.len()
    }

    fn clear(&mut self)
        ensures
            final(self).solutions@.len() == 0,
    {
        self.solutions = Vec::new();
    }

    fn push(&mut self, solution: MinimalSolution) {
        self.solutions.push(solution);
    }

    fn pop(&mut self) -> (r: Option<MinimalSolution>) {
        if self.solutions.len() == 0 {
            return None;
        }
        let k = self.index_of_best();
        let ghost before = self.solutions@;
        let r = self.solutions.remove(k);
        proof {
            assert(old(self).pending() == before);
            assert(self.pending() == self.solutions@);
            assert(0 <= k < before.len() && r == before[k as int] && self.solutions@ == before.remove(
                k as int,
            ));
        }
        Some(r)
    }

    fn best_solution(&self) -> (r: &MinimalSolution) {
        &self.best_solution
    }

    fn store_best_solution(&mut self, sol: MinimalSolution) {
        self.best_solution = sol;
    }
}

} // verus!
