//! The 0/1 knapsack: subset-sum's weights and capacity decide feasibility, and the
//! score is the value of the chosen items.
use vstd::prelude::*;

use crate::memory::MAX_WIDTH;
use crate::problem::{
    chosen_sum, chosen_total, fits_size, keeps_decisions, lemma_chosen_within_reach, lemma_complete_open_sum, lemma_sums_change,
    lemma_sums_frame, open_sum, prefix_sum, reachable_total, Problem,
};
use crate::sample::{ScoreType, ZERO_SCORE};
use crate::solution::MinimalSolution;
use crate::text::describe_knapsack;
use crate::subset_sum::{random_items, ProblemSubsetSum, MAX_RANDOM_ITEMS, RANDOM_ITEM_MAX};

verus! {

#[derive(Debug, Clone)]
pub struct Problem01Knapsack {
    pub basis: ProblemSubsetSum,
    pub values: Vec<ScoreType>,
}

proof fn lemma_zero_values(v: Seq<ScoreType>, n: nat)
    requires
        n <= v.len(),
        forall|k: int| 0 <= k < v.len() ==> v[k] == 0,
    ensures
        prefix_sum(v, n) == 0,
    decreases n,
{
    if n > 0 {
        lemma_zero_values(v, (n - 1) as nat);
    }
}

impl Problem01Knapsack {
    /// Weights and values agree in number and each add up within a score.
    pub open spec fn instance_wf(&self) -> bool {
        &&& self.basis.instance_wf()
        &&& self.values@.len() == self.basis.weights@.len()
        &&& prefix_sum(self.values@, self.values@.len()) <= ScoreType::MAX
    }

    /// Value of the items closed as true.
    pub open spec fn chosen_value(&self, s: MinimalSolution) -> int {
        chosen_sum(self.values@, s, self.values@.len())
    }

    /// Value of the items still open.
    pub open spec fn open_value(&self, s: MinimalSolution) -> int {
        open_sum(self.values@, s, self.values@.len())
    }

    /// An instance of `size` items, all weights and values zero, capacity zero.
    pub fn new(size: usize) -> (r: Self)
        requires
            size <= MAX_WIDTH,
        ensures
            r.instance_wf(),
            r.values@.len() == size,
            r.basis.capacity == 0,
    {
        let r = Problem01Knapsack { basis: ProblemSubsetSum::new(size), values: vec![ZERO_SCORE; size] };
        proof {
            lemma_zero_values(r.values@, size as nat);
        }
        r
    }

    /// A random instance of `size` items.
    pub fn random(size: usize) -> (r: Self)
        requires
            size <= MAX_RANDOM_ITEMS,
        ensures
            r.instance_wf(),
            r.values@.len() == size,
            size > 0 ==> 0 < r.basis.capacity,
    {
        let mut result = Self::new(size);
        result.randomize();
        result
    }

    /// Random weights and capacity (see `ProblemSubsetSum::randomize`), then random values.
    pub fn randomize(&mut self)
        requires
            old(self).instance_wf(),
            old(self).values@.len() <= MAX_RANDOM_ITEMS,
        ensures
            final(self).instance_wf(),
            final(self).values@.len() == old(self).values@.len(),
            final(self).values@.len() > 0 ==> 0 < final(self).basis.capacity,
    {
        let n = self.values.len();
        self.basis.randomize();
        self.values = random_items(n);
        proof {
            assert(n * RANDOM_ITEM_MAX <= ScoreType::MAX) by (nonlinear_arith)
                requires
                    n <= MAX_RANDOM_ITEMS,
            ;
        }
    }

    pub fn weights_sum(&self) -> (r: ScoreType)
        requires
            self.instance_wf(),
        ensures
            r == prefix_sum(self.basis.weights@, self.basis.weights@.len()),
    {
        self.basis.weights_sum()
    }

    pub fn values_sum(&self) -> (r: ScoreType)
        requires
            self.instance_wf(),
        ensures
            r == prefix_sum(self.values@, self.values@.len()),
    {
        let ghost v = self.values@;
        let s = MinimalSolution::new(self.values.len());
        let r = reachable_total(&self.values, &s);
        proof {
            lemma_all_open_total(v, s, v.len());
        }
        r
    }

    pub fn capacity(&self) -> (r: ScoreType)
        ensures
            r == self.basis.capacity,
    {
        self.basis.capacity
    }

    /// The instance is worth solving: the subset-sum part is, and sizes agree.
    pub fn is_legal(&self) -> (r: bool)
        ensures
            r == (0 < self.basis.weights@.len() && 0 < self.basis.capacity
                && self.values@.len() == self.basis.weights@.len()),
    {
        self.basis.is_legal() && self.values.len() == self.basis.weights.len()
    }

    pub fn short_description(&self) -> String
        requires
            self.instance_wf(),
    {
        let basis = self.basis.short_description();
        describe_knapsack(self.name(), basis.as_str(), self.values_sum())
    }

    /// A feasible starter solution turned into one of this problem: same decisions,
    /// with the rules applied.
    pub fn solution_from_basis(&self, starter_basis: &MinimalSolution) -> (r: MinimalSolution)
        requires
            self.instance_wf(),
            fits_size(*starter_basis, self.values@.len()),
            self.legal_spec(*starter_basis),
        ensures
            fits_size(r, self.values@.len()),
            self.audit_spec(r),
            forall|i: nat|
                i < self.values@.len() && (#[trigger] starter_basis.decision(i)) is Some
                    ==> r.decision(i) == starter_basis.decision(i),
            forall|i: nat|
                i < self.values@.len() && (#[trigger] r.decision(i)) != starter_basis.decision(i)
                    ==> r.decision(i) == Some(false),
            forall|t: MinimalSolution|
                fits_size(t, self.values@.len()) && t.complete_upto(self.values@.len())
                    && self.legal_spec(t) && #[trigger] keeps_decisions(
                    t,
                    *starter_basis,
                    self.values@.len(),
                ) ==> keeps_decisions(t, r, self.values@.len()),
    {
        let mut result = starter_basis.duplicate();
        proof {
            assert(result.same_decisions(starter_basis, self.values@.len()));
            lemma_sums_frame(self.basis.weights@, result, *starter_basis, self.values@.len());
        }
        let ghost before = result;
        self.apply_rules(&mut result);
        proof {
            assert forall|i: nat|
                i < self.values@.len() && (#[trigger] starter_basis.decision(i)) is Some implies result.decision(i)
                == starter_basis.decision(i) by {
                assert(before.decision(i) == starter_basis.decision(i));
            }
            assert forall|i: nat|
                i < self.values@.len() && (#[trigger] result.decision(i)) != starter_basis.decision(i) implies result.decision(i)
                == Some(false) by {
                assert(before.decision(i) == starter_basis.decision(i));
            }
            assert forall|t: MinimalSolution|
                fits_size(t, self.values@.len()) && t.complete_upto(self.values@.len())
                    && self.legal_spec(t) && #[trigger] keeps_decisions(
                    t,
                    *starter_basis,
                    self.values@.len(),
                ) implies keeps_decisions(t, result, self.values@.len()) by {
                assert forall|i: nat| i < self.values@.len() && (#[trigger] before.decision(i)) is Some implies t.decision(i)
                    == before.decision(i) by {
                    assert(before.decision(i) == starter_basis.decision(i));
                }
                assert(keeps_decisions(t, before, self.values@.len()));
            }
        }
        result
    }
}

/// With every decision open, the reachable total is the whole sum.
proof fn lemma_all_open_total(v: Seq<ScoreType>, s: MinimalSolution, n: nat)
    requires
        n <= v.len(),
        forall|i: nat| i < n ==> #[trigger] s.decision(i) is None,
    ensures
        chosen_sum(v, s, n) + open_sum(v, s, n) == prefix_sum(v, n),
    decreases n,
{
    if n > 0 {
        assert(s.decision((n - 1) as nat) is None);
        lemma_all_open_total(v, s, (n - 1) as nat);
    }
}

impl Problem01Knapsack {
    /// What the problem contract's spec functions are for this problem.
    pub proof fn lemma_problem_defs(&self)
        ensures
            self.wf_spec() == self.instance_wf(),
            self.size_spec() == self.values@.len(),
            forall|s: MinimalSolution| #[trigger] self.score_spec(s) == self.chosen_value(s),
            forall|s: MinimalSolution|
                #[trigger] self.legal_spec(s) == (self.basis.chosen_weight(s) <= self.basis.capacity),
            forall|s: MinimalSolution|
                #[trigger] self.best_spec(s) == self.chosen_value(s) + self.open_value(s),
            forall|s: MinimalSolution|
                #[trigger] self.audit_spec(s) == (self.legal_spec(s) && s.score == self.chosen_value(s)
                    && s.best_score == self.best_spec(s) && self.basis.open_items_fit(s)),
    {
    }
}

impl Problem for Problem01Knapsack {
    open spec fn wf_spec(&self) -> bool {
        self.instance_wf()
    }

    open spec fn size_spec(&self) -> nat {
        self.values@.len()
    }

    open spec fn score_spec(&self, s: MinimalSolution) -> int {
        self.chosen_value(s)
    }

    /// The chosen value plus the value of every open item.
    open spec fn best_spec(&self, s: MinimalSolution) -> int {
        self.chosen_value(s) + self.open_value(s)
    }

    open spec fn legal_spec(&self, s: MinimalSolution) -> bool {
        self.basis.chosen_weight(s) <= self.basis.capacity
    }

    open spec fn audit_spec(&self, s: MinimalSolution) -> bool {
        &&& self.legal_spec(s)
        &&& s.score == self.chosen_value(s)
        &&& s.best_score == self.best_spec(s)
        &&& self.basis.open_items_fit(s)
    }

    fn name(&self) -> &'static str {
        proof {
            self.lemma_problem_defs();
        }
        "Problem01Knapsack"
    }

    fn problem_size(&self) -> (r: usize) {
        proof {
            self.lemma_problem_defs();
        }
        self.values.len()
    }

    fn solution_score(&self, s: &MinimalSolution) -> (r: ScoreType) {
        proof {
            self.lemma_problem_defs();
        }
        chosen_total(&self.values, s)
    }

    fn solution_best_score(&self, s: &MinimalSolution) -> (r: ScoreType) {
        proof {
            self.lemma_problem_defs();
        }
        reachable_total(&self.values, s)
    }

    fn solution_is_legal(&self, s: &MinimalSolution) -> (r: bool) {
        proof {
            self.lemma_problem_defs();
        }
        self.basis.solution_is_legal(s)
    }

    fn solution_is_complete(&self, s: &MinimalSolution) -> (r: bool) {
        proof {
            self.lemma_problem_defs();
        }
        self.basis.solution_is_complete(s)
    }

    fn first_open_decision(&self, s: &MinimalSolution) -> (r: Option<usize>) {
        proof {
            self.lemma_problem_defs();
        }
        self.basis.first_open_decision(s)
    }

    fn random_solution(&self) -> (r: MinimalSolution) {
        proof {
            self.lemma_problem_defs();
        }
        let starter = self.basis.random_solution();
        let r = self.solution_from_basis(&starter);
        proof {
            assert forall|i: nat| i < self.values@.len() implies (#[trigger] r.decision(i)) is Some by {
                assert(starter.decision(i) is Some);
            }
        }
        r
    }

    fn starting_solution(&self) -> (r: MinimalSolution) {
        proof {
            self.lemma_problem_defs();
        }
        let starter = self.basis.starting_solution();
        let r = self.solution_from_basis(&starter);
        proof {
            assert forall|i: nat| i < self.values@.len() implies #[trigger] r.decision(i) != Some(
                true,
            ) by {
                assert(starter.decision(i) != Some(true));
            }
            assert forall|t: MinimalSolution|
                fits_size(t, self.values@.len()) && t.complete_upto(self.values@.len())
                    && self.legal_spec(t) implies #[trigger] keeps_decisions(t, r, self.values@.len()) by {
                assert(self.basis.chosen_weight(t) <= self.basis.capacity);
                assert(keeps_decisions(t, starter, self.values@.len()));
            }
        }
        r
    }

    /// The subset-sum rules on the weights, then the chosen value as the score and the
    /// chosen plus open value as the bound.
    fn apply_rules(&self, s: &mut MinimalSolution)
        ensures
            forall|i: nat|
                i < self.values@.len() && (#[trigger] old(s).decision(i)) is None
                    ==> (final(s).decision(i) is None <==> self.basis.weights@[i as int]
                    + self.basis.chosen_weight(*old(s)) <= self.basis.capacity),
    {
        proof {
            self.lemma_problem_defs();
        }
        self.basis.close_heavy_items(s);
        let value = chosen_total(&self.values, s);
        let reachable = reachable_total(&self.values, s);
        let ghost closed = *s;
        s.put_score(value);
        s.put_best_score(reachable);
        proof {
            let n = self.values@.len();
            assert(s.same_decisions(&closed, n));
            lemma_sums_frame(self.values@, *s, closed, n);
            lemma_sums_frame(self.basis.weights@, *s, closed, n);
            assert forall|i: nat|
                i < n && (#[trigger] s.decision(i)) is None implies self.basis.weights@[i as int]
                + self.basis.chosen_weight(*s) <= self.basis.capacity by {
                assert(closed.decision(i) is None);
            }
            if self.audit_spec(*old(s)) {
                assert(s.same_decisions(old(s), n));
                lemma_sums_frame(self.values@, *s, *old(s), n);
            }
        }
    }

    fn rules_audit_passed(&self, s: &MinimalSolution) -> (r: bool) {
        proof {
            self.lemma_problem_defs();
        }
        if !self.basis.solution_is_legal(s) {
            return false;
        }
        if s.score != self.solution_score(s) || s.best_score != self.solution_best_score(s) {
            return false;
        }
        self.basis.open_items_fit_check(s)
    }

    proof fn lemma_same_view(&self, a: MinimalSolution, b: MinimalSolution) {
        self.lemma_problem_defs();
        assert(a.same_decisions(&b, self.values@.len()));
        lemma_sums_frame(self.values@, a, b, self.values@.len());
        lemma_sums_frame(self.basis.weights@, a, b, self.values@.len());
        self.basis.lemma_fit_same_view(a, b);
        a.lemma_same_view_decisions(&b, self.values@.len());
    }

    proof fn lemma_child_legal(&self, parent: MinimalSolution, child: MinimalSolution, i: nat) {
        self.lemma_problem_defs();
        lemma_sums_change(self.basis.weights@, parent, child, i, self.values@.len());
        assert(parent.decision(i) is None);
    }

    proof fn lemma_bound(&self, s: MinimalSolution, t: MinimalSolution) {
        self.lemma_problem_defs();
        lemma_chosen_within_reach(self.values@, s, t, self.values@.len());
    }

    proof fn lemma_audit_scores(&self, s: MinimalSolution) {
        self.lemma_problem_defs();
    }

    proof fn lemma_complete_scores(&self, s: MinimalSolution) {
        self.lemma_problem_defs();
        lemma_complete_open_sum(self.values@, s, self.values@.len());
    }
}

} // verus!
