//! The MHD Monte-Carlo solver: no tree, but rollouts from the starting solution in
//! which the MHD memory chooses each open decision, and which learn every new
//! complete solution.
use vstd::prelude::*;

use crate::memory::{MhdMemory, MAX_SAMPLES, MAX_WIDTH};
use crate::bits::{bit_at, bytes_for};
use crate::memory::find_in;
use crate::problem::{fits_size, keeps_decisions, lemma_open_count_closes, open_count, Problem};
use crate::sample::Sample;
use vstd::arithmetic::power2::pow2;
use crate::solution::MinimalSolution;
use crate::solver::Solver;

verus! {

/// A complete, audited solution of `problem`.
pub open spec fn finished_solution<P: Problem>(problem: &P, s: MinimalSolution) -> bool {
    fits_size(s, problem.size_spec()) && problem.audit_spec(s) && s.complete_upto(
        problem.size_spec(),
    )
}

/// The memory holds a sample that agrees with `t` on its first `n` bits.
pub open spec fn stored_bits(m: MhdMemory, t: MinimalSolution, n: nat) -> bool {
    exists|k: int| 0 <= k < m.samples@.len() && #[trigger] agrees(m.samples@[k].bytes@, t, n)
}

/// `bytes` holds the decisions of `t` in its first `n` bits.
pub open spec fn agrees(bytes: Seq<u8>, t: MinimalSolution, n: nat) -> bool {
    forall|i: nat| i < n ==> #[trigger] bit_at(bytes, i) == bit_at(t.decisions@, i)
}

/// Every complete, feasible solution of `p` that keeps the decisions of `s` is stored
/// in `m`.
pub open spec fn all_completions_stored<P: Problem>(p: &P, m: MhdMemory, s: MinimalSolution) -> bool {
    forall|t: MinimalSolution|
        fits_size(t, p.size_spec()) && t.complete_upto(p.size_spec()) && p.legal_spec(t)
            && #[trigger] keeps_decisions(t, s, p.size_spec()) ==> stored_bits(m, t, p.size_spec())
}

/// `after` is `before` with one more sample, whose octets are `bytes` and whose score
/// is `score`, octets which `before` did not hold.
pub open spec fn learned_one(before: MhdMemory, after: MhdMemory, bytes: Seq<u8>, score: u32) -> bool {
    &&& find_in(before.samples@, bytes) is None
    &&& after.samples@.len() == before.samples@.len() + 1
    &&& after.samples@.drop_last() == before.samples@
    &&& after.samples@.last().bytes@ == bytes
    &&& after.samples@.last().score == score
    &&& after.width == before.width
}

/// How many samples the memory may hold before the solver counts as finished:
/// `2^width` up to width 28, else `2^30` octets' worth of samples.
pub open spec fn saturation_bound(width: nat) -> nat {
    if width <= 28 {
        pow2(width)
    } else {
        0x4000_0000nat / bytes_for(width)
    }
}

/// See `saturation_bound`.
pub fn saturation(width: usize) -> (r: usize)
    ensures
        r == saturation_bound(width as nat),
{
    if width <= 28 {
        let mut b: usize = 1;
        let mut k: usize = 0;
        proof {
            vstd::arithmetic::power2::lemma2_to64();
        }
        while k < width
            invariant
                k <= width <= 28,
                b == pow2(k as nat),
                pow2(28) == 0x1000_0000,
            decreases width - k,
        {
            proof {
                vstd::arithmetic::power2::lemma_pow2_unfold((k + 1) as nat);
                if k + 1 < 28 {
                    vstd::arithmetic::power2::lemma_pow2_strictly_increases((k + 1) as nat, 28);
                }
            }
            b = b * 2;
            k = k + 1;
        }
        b
    } else {
        0x4000_0000usize / Sample::bits_to_bytes(width)
    }
}

/// Samples written when the solver starts or is cleared.
pub open spec fn bootstrap_target(size: nat) -> nat {
    if size < 16 {
        4
    } else {
        16
    }
}

/// Random solutions drawn at most while bootstrapping.
pub const BOOTSTRAP_ATTEMPTS: usize = 256;

pub struct MhdMonteCarloSolver<P: Problem> {
    pub mhd_memory: MhdMemory,
    pub best_solution: MinimalSolution,
    pub problem: P,
    pub full_monte: bool,
    /// The bootstrap solutions the memory learned, handed out before any rollout.
    pub bootstrapped: Vec<MinimalSolution>,
}

impl<P: Problem> MhdMonteCarloSolver<P> {
    /// The problem is well formed and the memory holds samples of its width.
    pub open spec fn solver_inv(&self) -> bool {
        &&& self.problem.wf_spec()
        &&& self.mhd_memory.wf()
        &&& self.mhd_memory.width == self.problem.size_spec()
        &&& forall|k: int|
            0 <= k < self.bootstrapped@.len() ==> finished_solution(
                &self.problem,
                #[trigger] self.bootstrapped@[k],
            )
    }

    /// A solver for `problem`, with a random feasible best solution and a memory
    /// seeded with random complete solutions.
    pub fn builder(problem: P) -> (r: Self)
        requires
            problem.wf_spec(),
            problem.size_spec() <= MAX_WIDTH,
        ensures
            r.solver_inv(),
            r.problem == problem,
            !r.full_monte,
            r.mhd_memory.samples@.len() > 0,
    {
        let n = problem.problem_size();
        let best = problem.random_solution();
        let mut product = MhdMonteCarloSolver {
            mhd_memory: MhdMemory::new(n),
            best_solution: best,
            problem,
            full_monte: false,
            bootstrapped: Vec::new(),
        };
        product.bootstrap_memory();
        product
    }

    pub fn width(&self) -> (r: usize)
        ensures
            r == self.mhd_memory.width,
    {
        self.mhd_memory.width()
    }

    /// Writes random complete solutions into the memory until it holds the bootstrap
    /// target, or until the attempts run out; the first write into an empty memory
    /// always lands.
    fn bootstrap_memory(&mut self)
        requires
            old(self).solver_inv(),
            old(self).mhd_memory.samples@.len() == 0,
        ensures
            final(self).solver_inv(),
            final(self).problem == old(self).problem,
            final(self).best_solution == old(self).best_solution,
            final(self).full_monte == old(self).full_monte,
            final(self).mhd_memory.samples@.len() > 0,
    {
        let target: usize = if self.problem.problem_size() < 16 {
            4
        } else {
            16
        };
        let mut attempt: usize = 0;
        while (self.mhd_memory.num_samples() < target || self.mhd_memory.num_samples() == 0)
            && attempt < BOOTSTRAP_ATTEMPTS
            invariant
                self.solver_inv(),
                self.problem == old(self).problem,
                self.best_solution == old(self).best_solution,
                self.full_monte == old(self).full_monte,
                attempt > 0 ==> self.mhd_memory.samples@.len() > 0,
                self.mhd_memory.samples@.len() <= attempt,
                target <= 16,
            decreases BOOTSTRAP_ATTEMPTS - attempt,
        {
            let solution = self.problem.random_solution();
            let sample = self.problem.sample_from_solution(&solution);
            let was_empty = self.mhd_memory.is_empty();
            let written = self.mhd_memory.write_sample(&sample);
            proof {
                if was_empty {
                    assert(written == Ok::<bool, crate::memory::MemoryError>(true));
                }
            }
            if let Ok(true) = written {
                self.bootstrapped.push(solution);
            }
            attempt = attempt + 1;
        }
    }

    /// A rollout from `solution`: the memory chooses each open decision, the rules are
    /// applied after each, and a complete solution is returned once the memory takes
    /// it as new. When the memory already holds the completion, the rollout backs up
    /// and tries the other value of the decision. `None` when both values lead only
    /// to known solutions (or the memory is full).
    pub fn find_new_solution(&mut self, solution: &MinimalSolution) -> (r: Option<MinimalSolution>)
        requires
            old(self).solver_inv(),
            fits_size(*solution, old(self).problem.size_spec()),
            old(self).problem.audit_spec(*solution),
        ensures
            final(self).solver_inv(),
            final(self).problem == old(self).problem,
            final(self).best_solution == old(self).best_solution,
            final(self).full_monte == old(self).full_monte,
            final(self).bootstrapped == old(self).bootstrapped,
            r matches Some(t) ==> fits_size(t, final(self).problem.size_spec())
                && final(self).problem.audit_spec(t) && t.complete_upto(final(self).problem.size_spec())
                && keeps_decisions(t, *solution, final(self).problem.size_spec()) && learned_one(
                old(self).mhd_memory,
                final(self).mhd_memory,
                t.decisions@,
                t.score,
            ),
            r is None ==> final(self).mhd_memory == old(self).mhd_memory,
            r is None && old(self).mhd_memory.samples@.len() < MAX_SAMPLES ==> all_completions_stored(
                &old(self).problem,
                old(self).mhd_memory,
                *solution,
            ),
        decreases open_count(*solution, old(self).problem.size_spec()),
    {
        let ghost n = self.problem.size_spec();
        match self.problem.first_open_decision(solution) {
            None => {
                if self.mhd_memory.num_samples() >= MAX_SAMPLES {
                    return None;
                }
                let sample = self.problem.sample_from_solution(solution);
                let ghost m0 = self.mhd_memory;
                match self.mhd_memory.write_sample(&sample) {
                    Ok(true) => {
                        let t = solution.duplicate();
                        proof {
                            self.problem.lemma_same_view(*solution, t);
                            self.problem.lemma_audit_scores(*solution);
                            solution.lemma_same_view_decisions(&t, n);
                        }
                        Some(t)
                    },
                    _ => {
                        proof {
                            crate::memory::lemma_find_some(m0.samples@, sample.bytes@);
                            let k = find_in(m0.samples@, sample.bytes@)->Some_0;
                            assert forall|t: MinimalSolution|
                                fits_size(t, n) && t.complete_upto(n) && self.problem.legal_spec(t)
                                    && #[trigger] keeps_decisions(t, *solution, n) implies stored_bits(m0, t, n) by {
                                assert forall|i: nat| i < n implies #[trigger] bit_at(m0.samples@[k].bytes@, i)
                                    == bit_at(t.decisions@, i) by {
                                    assert(solution.decision(i) is Some);
                                    assert(t.decision(i) == solution.decision(i));
                                }
                                assert(agrees(m0.samples@[k].bytes@, t, n));
                            }
                        }
                        None
                    },
                }
            },
            Some(open_decision) => {
                let decision = self.mhd_memory.probe_decide(
                    solution.mask(),
                    solution.query(),
                    open_decision,
                    self.full_monte,
                );
                let child = self.problem.produce_child(solution, open_decision, decision);
                proof {
                    lemma_open_count_closes(*solution, child, n, open_decision as nat);
                }
                let ghost m0 = self.mhd_memory;
                let first_try = self.find_new_solution(&child);
                if first_try.is_some() {
                    proof {
                        let t = first_try->Some_0;
                        assert forall|i: nat| i < n && (#[trigger] solution.decision(i)) is Some implies t.decision(i)
                            == solution.decision(i) by {
                            assert(child.decision(i) == solution.decision(i));
                        }
                    }
                    first_try
                } else {
                    let other = self.problem.produce_child(solution, open_decision, !decision);
                    proof {
                        lemma_open_count_closes(*solution, other, n, open_decision as nat);
                    }
                    let second_try = self.find_new_solution(&other);
                    proof {
                        if second_try is Some {
                            let t = second_try->Some_0;
                            assert forall|i: nat| i < n && (#[trigger] solution.decision(i)) is Some implies t.decision(i)
                                == solution.decision(i) by {
                                assert(other.decision(i) == solution.decision(i));
                            }
                        } else if m0.samples@.len() < MAX_SAMPLES {
                            assert forall|t: MinimalSolution|
                                fits_size(t, n) && t.complete_upto(n) && self.problem.legal_spec(t)
                                    && #[trigger] keeps_decisions(t, *solution, n) implies stored_bits(m0, t, n) by {
                                assert(t.decision(open_decision as nat) is Some);
                                if t.decision(open_decision as nat) == Some(decision) {
                                    assert(keeps_decisions(t, child, n));
                                } else {
                                    assert(keeps_decisions(t, other, n));
                                }
                            }
                        }
                    }
                    second_try
                }
            },
        }
    }
}

impl<P: Problem> Solver for MhdMonteCarloSolver<P> {
    open spec fn inv(&self) -> bool {
        self.solver_inv()
    }

    /// No queue: pushed solutions are dropped.
    open spec fn pending(&self) -> Seq<MinimalSolution> {
        Seq::empty()
    }

    open spec fn keeps_queue() -> bool {
        false
    }

    open spec fn best_spec(&self) -> MinimalSolution {
        self.best_solution
    }

    /// A rollout solver keeps no queue: a pushed solution is dropped. The search engine
    /// pushes only incomplete children, and the best solution is always complete, so no
    /// solution that could improve the best reaches `push`: complete solutions go through
    /// `new_best_solution` and `store_best_solution`.
    open spec fn push_spec(before: Self, s: MinimalSolution, after: Self) -> bool {
        after == before
    }

    /// The bootstrap solutions leave first, last written first. Then each pop is a
    /// rollout from the starting solution: a complete, audited solution the memory did
    /// not hold and now does, or `None` once the memory holds every complete feasible
    /// solution (when it has room).
    open spec fn pop_spec(before: Self, r: Option<MinimalSolution>, after: Self) -> bool {
        let n = before.problem.size_spec();
        &&& after.problem == before.problem
        &&& before.bootstrapped@.len() > 0 ==> r == Some(before.bootstrapped@.last())
            && after.bootstrapped@ == before.bootstrapped@.drop_last() && after.mhd_memory
            == before.mhd_memory
        &&& before.bootstrapped@.len() == 0 ==> {
            &&& r matches Some(t) ==> fits_size(t, n) && after.problem.audit_spec(t)
                && t.complete_upto(n) && learned_one(before.mhd_memory, after.mhd_memory, t.decisions@, t.score)
            &&& r is None ==> after.mhd_memory == before.mhd_memory
            &&& r is None && before.mhd_memory.samples@.len() < MAX_SAMPLES ==> forall|t: MinimalSolution|
                fits_size(t, n) && t.complete_upto(n) && before.problem.legal_spec(t)
                    ==> #[trigger] stored_bits(before.mhd_memory, t, n)
        }
    }

    /// The problem's children, the solver unchanged.
    open spec fn children_spec(before: Self, parent: MinimalSolution, r: Seq<MinimalSolution>, after: Self) -> bool {
        after == before
    }

    /// The samples in the memory.
    open spec fn count_spec(&self) -> nat {
        self.mhd_memory.samples@.len()
    }

    /// Finished once the memory holds `saturation_bound` samples.
    open spec fn finished_spec(&self) -> bool {
        saturation_bound(self.mhd_memory.width as nat) <= self.mhd_memory.samples@.len()
    }

    fn children_of_solution<Q: Problem>(&mut self, parent: &MinimalSolution, problem: &Q) -> (r:
        Vec<MinimalSolution>) {
        problem.children_of_solution(parent)
    }

    fn name(&self) -> &'static str {
        "MhdMonteCarloSolver"
    }

    fn number_of_solutions(&self) -> (r: usize) {
        self.mhd_memory.num_samples()
    }

    fn is_empty(&self) -> (r: bool) {
        self.mhd_memory.is_empty()
    }

    fn is_finished(&self) -> (r: bool) {
        saturation(self.mhd_memory.width()) <= self.mhd_memory.num_samples()
    }

    fn clear(&mut self) {
        let width = self.mhd_memory.width();
        self.bootstrapped = Vec::new();
        self.mhd_memory.clear();
        self.bootstrap_memory();
        self.best_solution = MinimalSolution::new(width);
    }

    fn push(&mut self, solution: MinimalSolution) {
    }

    /// The bootstrap solutions first, then one rollout per pop.
    fn pop(&mut self) -> (r: Option<MinimalSolution>) {
        if self.bootstrapped.len() > 0 {
            let s = self.bootstrapped.pop();
            return s;
        }
        let start = self.problem.starting_solution();
        let r = self.find_new_solution(&start);
        proof {
            let n = self.problem.size_spec();
            if r is None && old(self).mhd_memory.samples@.len() < MAX_SAMPLES {
                assert forall|t: MinimalSolution|
                    fits_size(t, n) && t.complete_upto(n) && self.problem.legal_spec(t) implies #[trigger] stored_bits(
                    old(self).mhd_memory,
                    t,
                    n,
                ) by {
                    assert(keeps_decisions(t, start, n));
                }
            }
        }
        r
    }

    fn best_solution(&self) -> (r: &MinimalSolution) {
        &self.best_solution
    }

    fn store_best_solution(&mut self, sol: MinimalSolution) {
        self.best_solution = sol;
    }
}

} // verus!
