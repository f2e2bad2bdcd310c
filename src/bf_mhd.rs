//! The best-first MHD solver: a best-first queue ordered by priorities that an MHD
//! memory gives each child when it is generated; complete solutions met on the way are
//! written into the memory.
use vstd::prelude::*;

use crate::memory::{find_in, MhdMemory, MAX_SAMPLES, MAX_WIDTH};
use crate::mhd_mc::learned_one;
use crate::problem::{child_shape, first_open, fits_size, keeps_decisions, Problem};
use crate::solution::MinimalSolution;
use crate::solver::Solver;

verus! {

/// Writing `s` into `before` gives `after`: a complete solution of the memory's width,
/// while the memory has room, adds its sample (its decisions and its score) when the
/// memory does not hold those octets yet; anything else leaves the memory as it was.
pub open spec fn learn_step(before: MhdMemory, after: MhdMemory, s: MinimalSolution) -> bool {
    if s.complete_upto(s.size as nat) && s.size == before.width && before.samples@.len()
        < MAX_SAMPLES && find_in(before.samples@, s.decisions@) is None {
        learned_one(before, after, s.decisions@, s.score)
    } else {
        after == before
    }
}

/// The index of the first solution with the largest priority.
pub open spec fn is_first_max_priority(ss: Seq<MinimalSolution>, k: int) -> bool {
    &&& 0 <= k < ss.len()
    &&& forall|j: int| 0 <= j < ss.len() ==> (#[trigger] ss[j]).priority <= ss[k].priority
    &&& forall|j: int| 0 <= j < k ==> (#[trigger] ss[j]).priority < ss[k].priority
}

pub struct BestfirstMhdMonteCarloSolver<P: Problem> {
    pub mhd_memory: MhdMemory,
    pub solutions: Vec<MinimalSolution>,
    pub best_solution: MinimalSolution,
    pub problem: P,
}

impl<P: Problem> BestfirstMhdMonteCarloSolver<P> {
    /// The problem is well formed and the memory holds samples of its width.
    pub open spec fn solver_inv(&self) -> bool {
        &&& self.problem.wf_spec()
        &&& self.mhd_memory.wf()
        &&& self.mhd_memory.width == self.problem.size_spec()
    }

    /// A solver for `problem`: an empty queue, a random feasible best solution, and a
    /// memory seeded with one random complete solution per decision.
    pub fn builder(problem: P) -> (r: Self)
        requires
            problem.wf_spec(),
            problem.size_spec() <= MAX_WIDTH,
        ensures
            r.solver_inv(),
            r.problem == problem,
            r.solutions@.len() == 0,
    {
        let n = problem.problem_size();
        let best = problem.random_solution();
        let mut product = BestfirstMhdMonteCarloSolver {
            mhd_memory: MhdMemory::new(n),
            solutions: Vec::new(),
            best_solution: best,
            problem,
        };
        product.bootstrap_memory();
        product
    }

    fn bootstrap_memory(&mut self)
        requires
            old(self).solver_inv(),
            old(self).mhd_memory.samples@.len() == 0,
        ensures
            final(self).solver_inv(),
            final(self).problem == old(self).problem,
            final(self).solutions == old(self).solutions,
            final(self).best_solution == old(self).best_solution,
    {
        let n = self.problem.problem_size();
        let mut k: usize = 0;
        while k < n
            invariant
                self.solver_inv(),
                self.problem == old(self).problem,
                self.solutions == old(self).solutions,
                self.best_solution == old(self).best_solution,
                n == self.problem.size_spec(),
                n <= MAX_WIDTH,
                k <= n,
                self.mhd_memory.samples@.len() <= k,
            decreases n - k,
        {
            let solution = self.problem.random_solution();
            let sample = self.problem.sample_from_solution(&solution);
            let _ = self.mhd_memory.write_sample(&sample);
            k = k + 1;
        }
    }

    /// Writes a complete solution of `problem` into the memory: see `learn_step`.
    fn learn<Q: Problem>(&mut self, problem: &Q, s: &MinimalSolution)
        requires
            old(self).solver_inv(),
            problem.wf_spec(),
            fits_size(*s, problem.size_spec()),
            problem.audit_spec(*s),
        ensures
            final(self).solver_inv(),
            final(self).problem == old(self).problem,
            final(self).solutions == old(self).solutions,
            final(self).best_solution == old(self).best_solution,
            learn_step(old(self).mhd_memory, final(self).mhd_memory, *s),
    {
        if problem.solution_is_complete(s) && s.size == self.mhd_memory.width()
            && self.mhd_memory.num_samples() < MAX_SAMPLES {
            let sample = problem.sample_from_solution(s);
            proof {
                problem.lemma_audit_scores(*s);
            }
            let _ = self.mhd_memory.write_sample(&sample);
        }
    }

    fn index_of_best(&self) -> (r: usize)
        requires
            self.solutions@.len() > 0,
        ensures
            is_first_max_priority(self.solutions@, r as int),
    {
        let ss = &self.solutions;
        let mut k: usize = 0;
        let mut i: usize = 1;
        while i < ss.len()
            invariant
                1 <= i <= ss@.len(),
                k < i,
                forall|j: int| 0 <= j < i ==> (#[trigger] ss@[j]).priority <= ss@[k as int].priority,
                forall|j: int| 0 <= j < k ==> (#[trigger] ss@[j]).priority < ss@[k as int].priority,
            decreases ss@.len() - i,
        {
            if ss[k].priority < ss[i].priority {
                k = i;
            }
            i = i + 1;
        }
        k
    }
}

impl<P: Problem> Solver for BestfirstMhdMonteCarloSolver<P> {
    open spec fn inv(&self) -> bool {
        self.solver_inv()
    }

    open spec fn pending(&self) -> Seq<MinimalSolution> {
        self.solutions@
    }

    open spec fn keeps_queue() -> bool {
        true
    }

    /// The complete children are written into the memory, the true child first (see
    /// `learn_step`), so the memory is unchanged when neither child is complete. The
    /// children carry the memory's priorities for their value of the parent's lowest open
    /// decision, as read before the call (when the parent has the memory's width). The
    /// queue and the problem are kept.
    open spec fn children_spec(before: Self, parent: MinimalSolution, r: Seq<MinimalSolution>, after: Self) -> bool {
        &&& after.problem == before.problem
        &&& after.solutions == before.solutions
        &&& exists|mid: MhdMemory|
            learn_step(before.mhd_memory, mid, r[0]) && #[trigger] learn_step(
                mid,
                after.mhd_memory,
                r[1],
            )
        &&& parent.size == before.mhd_memory.width ==> forall|i: nat|
            #[trigger] first_open(parent, i) ==> r[0].priority == before.mhd_memory.priorities_spec(
                parent.mask@,
                parent.decisions@,
                i,
            ).1 && r[1].priority == before.mhd_memory.priorities_spec(
                parent.mask@,
                parent.decisions@,
                i,
            ).0
    }

    open spec fn count_spec(&self) -> nat {
        self.solutions@.len()
    }

    /// Finished once the queue is empty.
    open spec fn finished_spec(&self) -> bool {
        self.solutions@.len() == 0
    }

    fn is_finished(&self) -> (r: bool) {
        self.solutions.len() == 0
    }

    open spec fn best_spec(&self) -> MinimalSolution {
        self.best_solution
    }

    open spec fn push_spec(before: Self, s: MinimalSolution, after: Self) -> bool {
        after.solutions@ == before.solutions@.push(s)
    }

    /// The first solution with the largest priority leaves.
    open spec fn pop_spec(before: Self, r: Option<MinimalSolution>, after: Self) -> bool {
        if before.solutions@.len() == 0 {
            r is None && after.solutions@ == before.solutions@
        } else {
            exists|k: int|
                is_first_max_priority(before.solutions@, k) && r == Some(before.solutions@[k])
                    && after.solutions@ == before.solutions@.remove(k)
        }
    }

    fn name(&self) -> &'static str {
        "BestfirstMhdMonteCarloSolver"
    }

    fn number_of_solutions(&self) -> (r: usize) {
        self.solutions.len()
    }

    fn clear(&mut self) {
        self.solutions = Vec::new();
        let width = self.mhd_memory.width();
        self.mhd_memory.clear();
        self.bootstrap_memory();
        self.best_solution = MinimalSolution::new(width);
    }

    fn push(&mut self, solution: MinimalSolution) {
        self.solutions.push(solution);
    }

    fn pop(&mut self) -> (r: Option<MinimalSolution>) {
        if self.solutions.len() == 0 {
            return None;
        }
        let k = self.index_of_best();
        let ghost before = self.solutions@;
        let r = self.solutions.remove(k);
        proof {
            assert(old(self).pending() == before);
            assert(self.pending() == self.solutions@);
            assert(0 <= k < before.len() && r == before[k as int] && self.solutions@ == before.remove(
                k as int,
            ));
        }
        Some(r)
    }

    /// The problem's two children, each given the memory's priority for its value of
    /// the decision; complete children are written into the memory.
    fn children_of_solution<Q: Problem>(&mut self, parent: &MinimalSolution, problem: &Q) -> (r:
        Vec<MinimalSolution>) {
        let ghost n = problem.size_spec();
        let mut children = problem.children_of_solution(parent);
        let ghost orig = children@;
        let i = match problem.first_open_decision(parent) {
            Some(i) => i,
            None => 0,
        };
        let (p_false, p_true) = if parent.size == self.mhd_memory.width() {
            self.mhd_memory.probe_priorities(parent.mask(), parent.query(), i)
        } else {
            (0, 0)
        };
        let ghost before_memory = self.mhd_memory;
        let mut t = children.remove(0);
        let mut f = children.remove(0);
        let ghost (t0, f0) = (t, f);
        t.set_priority(p_true);
        f.set_priority(p_false);
        proof {
            assert(t0 == orig[0] && f0 == orig[1]);
            assert(t.same_view(&t0) && f.same_view(&f0));
            problem.lemma_same_view(t0, t);
            problem.lemma_same_view(f0, f);
            t0.lemma_same_view_decisions(&t, n);
            f0.lemma_same_view_decisions(&f, n);
            let j = choose|j: nat|
                #[trigger] first_open(*parent, j) && child_shape(*parent, orig[0], j, true, n)
                    && child_shape(*parent, orig[1], j, false, n) && forall|u: MinimalSolution|
                    fits_size(u, n) && u.complete_upto(n) && problem.legal_spec(u)
                        && #[trigger] keeps_decisions(u, *parent, n) ==> (u.decision(j) == Some(true)
                        ==> keeps_decisions(u, orig[0], n)) && (u.decision(j) == Some(false)
                        ==> keeps_decisions(u, orig[1], n));
            assert(j == i);
            assert(child_shape(*parent, t, j, true, n));
            assert(child_shape(*parent, f, j, false, n));
            assert forall|u: MinimalSolution|
                fits_size(u, n) && u.complete_upto(n) && problem.legal_spec(u)
                    && #[trigger] keeps_decisions(u, *parent, n) implies (u.decision(j) == Some(true)
                ==> keeps_decisions(u, t, n)) && (u.decision(j) == Some(false) ==> keeps_decisions(u, f, n)) by {
                if u.decision(j) == Some(true) {
                    assert(keeps_decisions(u, t0, n));
                }
                if u.decision(j) == Some(false) {
                    assert(keeps_decisions(u, f0, n));
                }
            }
        }
        self.learn(problem, &t);
        let ghost mid = self.mhd_memory;
        self.learn(problem, &f);
        let mut result: Vec<MinimalSolution> = Vec::new();
        result.push(t);
        result.push(f);
        proof {
            assert(result@[0] == t && result@[1] == f);
            assert(learn_step(old(self).mhd_memory, mid, result@[0]) && learn_step(
                mid,
                self.mhd_memory,
                result@[1],
            ));
        }
        result
    }

    fn best_solution(&self) -> (r: &MinimalSolution) {
        &self.best_solution
    }

    fn store_best_solution(&mut self, sol: MinimalSolution) {
        self.best_solution = sol;
    }
}

} // verus!
