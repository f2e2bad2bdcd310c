//! The branch-and-bound driver shared by every problem and solver.
use vstd::prelude::*;

use crate::problem::{child_shape, first_open, fits_size, keeps_decisions, Problem};
use crate::solution::MinimalSolution;
use crate::solver::Solver;
use crate::subset_sum::ProblemSubsetSum;

verus! {

#[verifier::external_type_specification]
#[verifier::external_body]
pub struct ExInstant(std::time::Instant);

/// Relies on `Instant::now`: a reading of the monotonic clock.
#[verifier::external_body]
fn clock_now() -> (r: std::time::Instant) {
    std::time::Instant::now()
}

/// Relies on `Instant::elapsed`: the time since `start`.
#[verifier::external_body]
fn elapsed_since(start: &std::time::Instant) -> (r: core::time::Duration) {
    start.elapsed()
}

/// The nanoseconds since `start`.
fn nanos_since(start: &std::time::Instant) -> u128 {
    let d = elapsed_since(start);
    duration_nanos(&d)
}

/// Relies on `Duration::as_nanos`: the whole duration in nanoseconds.
#[verifier::external_body]
fn duration_nanos(d: &core::time::Duration) -> (r: u128) {
    d.as_nanos()
}

/// The search gives up this long after it started, whatever it found.
pub const GLOBAL_TIME_LIMIT_NANOS: u128 = 60_000_000_000;

/// The search stops after this many pops at the latest.
pub const MAX_VISITS: u64 = 0xFFFF_FFFF_FFFF_FFFF;

/// A complete, audited solution whose stored score is its score and its bound.
pub open spec fn finished<P: Problem>(problem: &P, s: MinimalSolution) -> bool {
    &&& fits_size(s, problem.size_spec())
    &&& s.complete_upto(problem.size_spec())
    &&& problem.audit_spec(s)
    &&& s.score == problem.score_spec(s)
    &&& problem.score_spec(s) == problem.best_spec(s)
}

/// Offers a complete solution to the solver: stored as the new best when its bound
/// reaches the best's (`Problem::better_than`). Returns whether it was stored.
pub fn new_best_solution<P: Problem, S: Solver>(
    problem: &P,
    solver: &mut S,
    solution: MinimalSolution,
) -> (r: bool)
    requires
        old(solver).inv(),
    ensures
        final(solver).inv(),
        r == (old(solver).best_spec().best_score <= solution.best_score),
        r ==> final(solver).best_spec() == solution,
        !r ==> final(solver).best_spec() == old(solver).best_spec(),
        S::keeps_queue() ==> final(solver).pending() == old(solver).pending(),
{
    let result = problem.better_than(&solution, solver.best_solution());
    if result {
        solver.store_best_solution(solution);
    }
    result
}

/// Branch and bound: starts from a random feasible solution as the best and the
/// problem's starting solution in the solver; pops partial solutions, offers complete
/// ones as the new best, and pushes the children of those whose bound reaches the
/// best's. Popped solutions that fail the problem's audit are dropped. Stops when the
/// solver is finished, when `time_limit` passed without improvement, or when the
/// global time limit passed. Returns the best solution. With a queue solver (depth-first,
/// best-first, best-first MHD) that starts empty and ends empty, the search was
/// exhaustive and the result is optimal.
pub fn find_best_solution<P: Problem, S: Solver>(
    problem: &P,
    solver: &mut S,
    time_limit: core::time::Duration,
) -> (r: MinimalSolution)
    requires
        problem.wf_spec(),
        old(solver).inv(),
    ensures
        finished(problem, r),
        final(solver).inv(),
        S::keeps_queue() && old(solver).pending().len() == 0 && final(solver).pending().len() == 0
            ==> forall|t: MinimalSolution|
            fits_size(t, problem.size_spec()) && t.complete_upto(problem.size_spec())
                && problem.legal_spec(t) ==> #[trigger] problem.score_spec(t) <= r.score,
{
    let first = problem.random_solution();
    proof {
        problem.lemma_complete_scores(first);
    }
    search_from(problem, solver, first, time_limit)
}

/// Some solution of `seq` has decisions that `t` keeps.
pub open spec fn covers(seq: Seq<MinimalSolution>, t: MinimalSolution, n: nat) -> bool {
    exists|j: int| 0 <= j < seq.len() && #[trigger] keeps_decisions(t, seq[j], n)
}

/// `t` is a complete, feasible solution of `p` that scores more than `score`.
pub open spec fn beats<P: Problem>(p: &P, t: MinimalSolution, score: int) -> bool {
    &&& fits_size(t, p.size_spec())
    &&& t.complete_upto(p.size_spec())
    &&& p.legal_spec(t)
    &&& p.score_spec(t) > score
}

/// Every solution of `seq` is an audited solution of `p`.
pub open spec fn all_audited<P: Problem>(p: &P, seq: Seq<MinimalSolution>) -> bool {
    forall|j: int| 0 <= j < seq.len() ==> fits_size(#[trigger] seq[j], p.size_spec()) && p.audit_spec(seq[j])
}

/// The branch-and-bound invariant: every solution that beats `score` keeps the decisions
/// of some solution still to explore, in `pending` or in `extra`.
pub open spec fn search_covers<P: Problem>(p: &P, pending: Seq<MinimalSolution>, extra: Seq<MinimalSolution>, score: int) -> bool {
    &&& all_audited(p, pending)
    &&& forall|t: MinimalSolution|
        #[trigger] beats(p, t, score) ==> covers(pending, t, p.size_spec()) || covers(extra, t, p.size_spec())
}

proof fn lemma_cover_remove(seq: Seq<MinimalSolution>, k: int, t: MinimalSolution, n: nat)
    requires
        0 <= k < seq.len(),
        covers(seq, t, n),
    ensures
        keeps_decisions(t, seq[k], n) || covers(seq.remove(k), t, n),
{
    let j = choose|j: int| 0 <= j < seq.len() && #[trigger] keeps_decisions(t, seq[j], n);
    if j < k {
        assert(seq.remove(k)[j] == seq[j]);
    } else if j > k {
        assert(seq.remove(k)[j - 1] == seq[j]);
    }
}

proof fn lemma_cover_push(seq: Seq<MinimalSolution>, c: MinimalSolution, t: MinimalSolution, n: nat)
    requires
        covers(seq, t, n) || keeps_decisions(t, c, n),
    ensures
        covers(seq.push(c), t, n),
{
    if covers(seq, t, n) {
        let j = choose|j: int| 0 <= j < seq.len() && #[trigger] keeps_decisions(t, seq[j], n);
        assert(seq.push(c)[j] == seq[j]);
    } else {
        assert(seq.push(c)[seq.len() as int] == c);
    }
}

/// A solution that beats the best and keeps the decisions of a complete audited `q` is
/// no better than `q`; one that keeps the decisions of an audited `q` is within its
/// bound.
proof fn lemma_bounded_by<P: Problem>(p: &P, q: MinimalSolution, t: MinimalSolution)
    requires
        p.wf_spec(),
        fits_size(q, p.size_spec()),
        p.audit_spec(q),
        beats(p, t, 0 - 1),
        keeps_decisions(t, q, p.size_spec()),
    ensures
        p.score_spec(t) <= q.best_score,
        p.score_spec(t) <= p.best_spec(q),
        q.complete_upto(p.size_spec()) ==> p.score_spec(t) <= q.score,
{
    p.lemma_bound(q, t);
    p.lemma_audit_scores(q);
    if q.complete_upto(p.size_spec()) {
        p.lemma_complete_scores(q);
    }
}

/// The search of `find_best_solution` from a given first best solution: the best only
/// ever moves to a solution whose bound reaches it, so the result scores at least as
/// much as `first`. With a queue solver that starts empty, when the queue ends empty no
/// complete feasible solution scores more than the result.
pub fn search_from<P: Problem, S: Solver>(
    problem: &P,
    solver: &mut S,
    first: MinimalSolution,
    time_limit: core::time::Duration,
) -> (r: MinimalSolution)
    requires
        problem.wf_spec(),
        old(solver).inv(),
        finished(problem, first),
    ensures
        finished(problem, r),
        final(solver).inv(),
        first.score <= r.score,
        S::keeps_queue() && old(solver).pending().len() == 0 && final(solver).pending().len() == 0
            ==> forall|t: MinimalSolution|
            fits_size(t, problem.size_spec()) && t.complete_upto(problem.size_spec())
                && problem.legal_spec(t) ==> #[trigger] problem.score_spec(t) <= r.score,
{
    let ghost fresh = S::keeps_queue() && old(solver).pending().len() == 0;
    let global_start = clock_now();
    let mut start = clock_now();
    let limit = duration_nanos(&time_limit);
    let ghost first_score = first.score;
    proof {
        problem.lemma_complete_scores(first);
    }
    solver.store_best_solution(first);
    let root = problem.starting_solution();
    let ghost root_copy = root;
    solver.push(root);
    let n = problem.problem_size();
    proof {
        if fresh {
            assert(solver.pending() =~= seq![root_copy]);
            assert forall|t: MinimalSolution|
                #[trigger] beats(problem, t, solver.best_spec().score as int) implies covers(
                solver.pending(),
                t,
                n as nat,
            ) || covers(Seq::<MinimalSolution>::empty(), t, n as nat) by {
                assert(keeps_decisions(t, root_copy, n as nat));
                assert(solver.pending()[0] == root_copy);
            }
        }
    }
    let mut visits: u64 = 0;
    while visits < MAX_VISITS
        invariant
            problem.wf_spec(),
            n == problem.size_spec(),
            solver.inv(),
            finished(problem, solver.best_spec()),
            first_score <= solver.best_spec().score,
            solver.best_spec().score == solver.best_spec().best_score,
            fresh ==> S::keeps_queue(),
            fresh ==> search_covers(
                problem,
                solver.pending(),
                Seq::<MinimalSolution>::empty(),
                solver.best_spec().score as int,
            ),
        decreases MAX_VISITS - visits,
    {
        visits = visits + 1;
        let ghost pending0 = solver.pending();
        let ghost best0 = solver.best_spec();
        match solver.pop() {
            None => {
                proof {
                    if fresh {
                        assert(solver.pending() == pending0);
                    }
                }
                break ;
            },
            Some(next) => {
                let ghost k = if fresh {
                    choose|k: int|
                        0 <= k < pending0.len() && next == pending0[k] && solver.pending()
                            == pending0.remove(k)
                } else {
                    0
                };
                proof {
                    if fresh {
                        assert(fits_size(pending0[k], n as nat) && problem.audit_spec(pending0[k]));
                        assert forall|j: int| 0 <= j < solver.pending().len() implies fits_size(
                            #[trigger] solver.pending()[j],
                            n as nat,
                        ) && problem.audit_spec(solver.pending()[j]) by {
                            if j < k {
                                assert(solver.pending()[j] == pending0[j]);
                            } else {
                                assert(solver.pending()[j] == pending0[j + 1]);
                            }
                        }
                    }
                }
                if next.is_well_formed() && next.size == n && problem.rules_audit_passed(&next) {
                    if problem.solution_is_complete(&next) {
                        proof {
                            problem.lemma_complete_scores(next);
                        }
                        let ghost pending1 = solver.pending();
                        if new_best_solution(problem, solver, next) {
                            start = clock_now();
                        }
                        proof {
                            if fresh {
                                assert forall|t: MinimalSolution|
                                    #[trigger] beats(problem, t, solver.best_spec().score as int) implies covers(
                                    solver.pending(),
                                    t,
                                    n as nat,
                                ) || covers(Seq::<MinimalSolution>::empty(), t, n as nat) by {
                                    assert(beats(problem, t, best0.score as int));
                                    lemma_cover_remove(pending0, k, t, n as nat);
                                    if keeps_decisions(t, pending0[k], n as nat) {
                                        lemma_bounded_by(problem, next, t);
                                        assert(false);
                                    }
                                    assert(solver.pending() == pending0.remove(k));
                                }
                            }
                        }
                    } else if problem.can_be_better_than(&next, solver.best_solution()) {
                        let mut children = solver.children_of_solution(&next, problem);
                        proof {
                            if fresh {
                                assert forall|t: MinimalSolution|
                                    #[trigger] beats(problem, t, solver.best_spec().score as int) implies covers(
                                    solver.pending(),
                                    t,
                                    n as nat,
                                ) || covers(children@, t, n as nat) by {
                                    lemma_cover_remove(pending0, k, t, n as nat);
                                    if keeps_decisions(t, pending0[k], n as nat) {
                                        let i = choose|i: nat|
                                            #[trigger] first_open(next, i) && child_shape(
                                                next,
                                                children@[0],
                                                i,
                                                true,
                                                n as nat,
                                            ) && child_shape(next, children@[1], i, false, n as nat)
                                                && forall|u: MinimalSolution|
                                                fits_size(u, n as nat) && u.complete_upto(n as nat)
                                                    && problem.legal_spec(u)
                                                    && #[trigger] keeps_decisions(u, next, n as nat)
                                                    ==> (u.decision(i) == Some(true) ==> keeps_decisions(
                                                    u,
                                                    children@[0],
                                                    n as nat,
                                                )) && (u.decision(i) == Some(false) ==> keeps_decisions(
                                                    u,
                                                    children@[1],
                                                    n as nat,
                                                ));
                                        assert(t.decision(i) is Some);
                                        if t.decision(i) == Some(true) {
                                            assert(keeps_decisions(t, children@[0], n as nat));
                                        } else {
                                            assert(keeps_decisions(t, children@[1], n as nat));
                                        }
                                    }
                                }
                            }
                        }
                        while children.len() > 0
                            invariant
                                problem.wf_spec(),
                                n == problem.size_spec(),
                                solver.inv(),
                                finished(problem, solver.best_spec()),
                                first_score <= solver.best_spec().score,
                                solver.best_spec().score == solver.best_spec().best_score,
                                forall|j: int|
                                    0 <= j < children@.len() ==> fits_size(
                                        #[trigger] children@[j],
                                        n as nat,
                                    ) && problem.audit_spec(children@[j]),
                                fresh ==> S::keeps_queue(),
                                fresh ==> search_covers(
                                    problem,
                                    solver.pending(),
                                    children@,
                                    solver.best_spec().score as int,
                                ),
                            decreases children@.len(),
                        {
                            let ghost children0 = children@;
                            let ghost pending2 = solver.pending();
                            let ghost best2 = solver.best_spec();
                            let child = children.remove(0);
                            proof {
                                assert(fits_size(child, n as nat) && problem.audit_spec(child));
                                assert(children@ == children0.remove(0));
                            }
                            if !problem.solution_is_complete(&child) {
                                if problem.can_be_better_than(&child, solver.best_solution()) {
                                    let ghost pushed = child;
                                    solver.push(child);
                                    proof {
                                        if fresh {
                                            assert forall|j: int| 0 <= j < solver.pending().len() implies fits_size(
                                                #[trigger] solver.pending()[j],
                                                n as nat,
                                            ) && problem.audit_spec(solver.pending()[j]) by {
                                                if j < pending2.len() {
                                                    assert(solver.pending()[j] == pending2[j]);
                                                }
                                            }
                                            assert forall|t: MinimalSolution|
                                                #[trigger] beats(problem, t, solver.best_spec().score as int) implies covers(
                                                solver.pending(),
                                                t,
                                                n as nat,
                                            ) || covers(children@, t, n as nat) by {
                                                if !covers(children@, t, n as nat) {
                                                    if covers(children0, t, n as nat) {
                                                        lemma_cover_remove(children0, 0, t, n as nat);
                                                    }
                                                    lemma_cover_push(pending2, pushed, t, n as nat);
                                                }
                                            }
                                        }
                                    }
                                } else {
                                    proof {
                                        if fresh {
                                            assert forall|t: MinimalSolution|
                                                #[trigger] beats(problem, t, solver.best_spec().score as int) implies covers(
                                                solver.pending(),
                                                t,
                                                n as nat,
                                            ) || covers(children@, t, n as nat) by {
                                                if covers(children0, t, n as nat) {
                                                    lemma_cover_remove(children0, 0, t, n as nat);
                                                    if keeps_decisions(t, children0[0], n as nat) {
                                                        lemma_bounded_by(problem, children0[0], t);
                                                        problem.lemma_audit_scores(solver.best_spec());
                                                        assert(false);
                                                    }
                                                }
                                            }
                                        }
                                    }
                                }
                            } else {
                                proof {
                                    problem.lemma_complete_scores(child);
                                }
                                let ghost done = child;
                                if new_best_solution(problem, solver, child) {
                                    start = clock_now();
                                }
                                proof {
                                    if fresh {
                                        assert forall|t: MinimalSolution|
                                            #[trigger] beats(problem, t, solver.best_spec().score as int) implies covers(
                                            solver.pending(),
                                            t,
                                            n as nat,
                                        ) || covers(children@, t, n as nat) by {
                                            assert(beats(problem, t, best2.score as int));
                                            if covers(children0, t, n as nat) {
                                                lemma_cover_remove(children0, 0, t, n as nat);
                                                if keeps_decisions(t, children0[0], n as nat) {
                                                    lemma_bounded_by(problem, children0[0], t);
                                                    assert(false);
                                                }
                                            }
                                        }
                                    }
                                }
                            }
                        }
                    } else {
                        proof {
                            if fresh {
                                assert forall|t: MinimalSolution|
                                    #[trigger] beats(problem, t, solver.best_spec().score as int) implies covers(
                                    solver.pending(),
                                    t,
                                    n as nat,
                                ) || covers(Seq::<MinimalSolution>::empty(), t, n as nat) by {
                                    lemma_cover_remove(pending0, k, t, n as nat);
                                    if keeps_decisions(t, pending0[k], n as nat) {
                                        lemma_bounded_by(problem, next, t);
                                        problem.lemma_audit_scores(best0);
                                        assert(false);
                                    }
                                }
                            }
                        }
                    }
                } else {
                    proof {
                        if fresh {
                            assert(false);
                        }
                    }
                }
            },
        }
        if solver.is_finished() || limit < nanos_since(&start) || GLOBAL_TIME_LIMIT_NANOS
            < nanos_since(&global_start) {
            break ;
        }
    }
    let r = solver.best_solution().duplicate();
    proof {
        problem.lemma_same_view(solver.best_spec(), r);
        if fresh && solver.pending().len() == 0 {
            assert forall|t: MinimalSolution|
                fits_size(t, problem.size_spec()) && t.complete_upto(problem.size_spec())
                    && problem.legal_spec(t) implies #[trigger] problem.score_spec(t) <= r.score by {
                if problem.score_spec(t) > r.score {
                    assert(beats(problem, t, solver.best_spec().score as int));
                }
            }
        }
    }
    r
}

/// The subset-sum solution the driver returns never passes the capacity.
pub proof fn lemma_subset_sum_within_capacity(problem: ProblemSubsetSum, s: MinimalSolution)
    requires
        problem.wf_spec(),
        finished(&problem, s),
    ensures
        s.score <= problem.capacity,
{
    problem.lemma_problem_defs();
}

} // verus!
