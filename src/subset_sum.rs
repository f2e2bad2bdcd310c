//! Subset-sum: choose items whose weights add up as close to the capacity as
//! possible without passing it.
use vstd::prelude::*;

use crate::chance::{coin_flip, random_up_to};
use crate::memory::MAX_WIDTH;
use crate::problem::{
    chosen_sum, chosen_total, fits_size, keeps_decisions, lemma_chosen_within_reach, lemma_chosen_extension, reachable_total, lemma_complete_open_sum, lemma_prefix_sum_monotone, lemma_sums_bounds,
    lemma_sums_change, lemma_sums_frame, open_sum, prefix_sum, Problem,
};
use crate::sample::{ScoreType, ZERO_SCORE};
use crate::solution::MinimalSolution;
use crate::text::describe_subset_sum;

verus! {

/// Largest weight (and value) drawn for a random instance.
pub const RANDOM_ITEM_MAX: ScoreType = 4000;

/// Most items of a random instance; keeps every sum within a score.
pub const MAX_RANDOM_ITEMS: usize = 1_000_000;

/// Draws of a random capacity before falling back to half the weight sum.
pub const CAPACITY_ATTEMPTS: usize = 64;

#[derive(Debug, Clone)]
pub struct ProblemSubsetSum {
    pub weights: Vec<ScoreType>,
    pub capacity: ScoreType,
}

/// No decision below `n` is closed as true.
pub proof fn lemma_nothing_chosen(v: Seq<ScoreType>, s: MinimalSolution, n: nat)
    requires
        forall|i: nat| i < n ==> #[trigger] s.decision(i) != Some(true),
    ensures
        chosen_sum(v, s, n) == 0,
    decreases n,
{
    if n > 0 {
        assert(s.decision((n - 1) as nat) != Some(true));
        lemma_nothing_chosen(v, s, (n - 1) as nat);
    }
}

/// Items drawn at random, each in `1..=RANDOM_ITEM_MAX`.
pub fn random_items(n: usize) -> (r: Vec<ScoreType>)
    requires
        n <= MAX_RANDOM_ITEMS,
    ensures
        r@.len() == n,
        prefix_sum(r@, n as nat) <= n * RANDOM_ITEM_MAX,
        forall|i: int| 0 <= i < n ==> 1 <= #[trigger] r@[i] <= RANDOM_ITEM_MAX,
{
    let mut items: Vec<ScoreType> = Vec::new();
    let mut i: usize = 0;
    while i < n
        invariant
            i <= n,
            items@.len() == i,
            prefix_sum(items@, i as nat) <= i * RANDOM_ITEM_MAX,
            forall|k: int| 0 <= k < i ==> 1 <= #[trigger] items@[k] <= RANDOM_ITEM_MAX,
        decreases n - i,
    {
        let ghost before = items@;
        items.push(random_up_to(RANDOM_ITEM_MAX - 1) + 1);
        proof {
            lemma_prefix_sum_same(before, items@, i as nat);
        }
        i = i + 1;
    }
    items
}

/// The entries of `v`, largest first.
pub fn sort_descending(v: Vec<ScoreType>) -> (r: Vec<ScoreType>)
    ensures
        r@.to_multiset() == v@.to_multiset(),
        r@.len() == v@.len(),
        forall|i: int, j: int| 0 <= i < j < r@.len() ==> r@[i] >= r@[j],
{
    let mut work = v;
    let mut result: Vec<ScoreType> = Vec::new();
    let ghost unsorted_input = work@;
    proof {
        broadcast use vstd::seq_lib::group_to_multiset_ensures;
    }
    while work.len() > 0
        invariant
            result@.to_multiset().add(work@.to_multiset()) == unsorted_input.to_multiset(),
            result@.len() + work@.len() == unsorted_input.len(),
            forall|i: int, j: int| 0 <= i < j < result@.len() ==> result@[i] >= result@[j],
            forall|i: int, j: int|
                0 <= i < result@.len() && 0 <= j < work@.len() ==> result@[i] >= work@[j],
        decreases work@.len(),
    {
        let mut k: usize = 0;
        let mut i: usize = 1;
        while i < work.len()
            invariant
                0 < work@.len(),
                1 <= i <= work@.len(),
                k < i,
                forall|j: int| 0 <= j < i ==> work@[j] <= work@[k as int],
            decreases work@.len() - i,
        {
            if work[k] < work[i] {
                k = i;
            }
            i = i + 1;
        }
        let ghost before_work = work@;
        let ghost before_result = result@;
        let x = work.remove(k);
        result.push(x);
        proof {
            broadcast use vstd::seq_lib::group_to_multiset_ensures;
            vstd::seq_lib::to_multiset_remove(before_work, k as int);
            vstd::seq_lib::to_multiset_build(before_result, x);
            assert(result@.to_multiset().add(work@.to_multiset()) =~= unsorted_input.to_multiset());
            assert forall|a: int, b: int|
                0 <= a < result@.len() && 0 <= b < work@.len() implies result@[a] >= work@[b] by {
                if b < k {
                    assert(work@[b] == before_work[b]);
                } else {
                    assert(work@[b] == before_work[b + 1]);
                }
            }
        }
    }
    proof {
        assert(work@.to_multiset() =~= vstd::multiset::Multiset::empty());
        assert(result@.to_multiset().add(vstd::multiset::Multiset::empty()) =~= result@.to_multiset());
    }
    result
}

/// With every entry at most `RANDOM_ITEM_MAX`, a prefix sum is at most that many times
/// its length.
pub proof fn lemma_bounded_prefix_sum(v: Seq<ScoreType>, n: nat)
    requires
        n <= v.len(),
        forall|i: int| 0 <= i < n ==> #[trigger] v[i] <= RANDOM_ITEM_MAX,
    ensures
        prefix_sum(v, n) <= n * RANDOM_ITEM_MAX,
    decreases n,
{
    if n > 0 {
        lemma_bounded_prefix_sum(v, (n - 1) as nat);
    }
}

/// Prefix sums only look at their prefix.
pub proof fn lemma_prefix_sum_same(a: Seq<ScoreType>, b: Seq<ScoreType>, n: nat)
    requires
        n <= a.len(),
        n <= b.len(),
        forall|k: int| 0 <= k < n ==> a[k] == b[k],
    ensures
        prefix_sum(a, n) == prefix_sum(b, n),
    decreases n,
{
    if n > 0 {
        lemma_prefix_sum_same(a, b, (n - 1) as nat);
    }
}

impl ProblemSubsetSum {
    /// The instance fits a memory's width and its weights add up within a score.
    pub open spec fn instance_wf(&self) -> bool {
        &&& self.weights@.len() <= MAX_WIDTH
        &&& prefix_sum(self.weights@, self.weights@.len()) <= ScoreType::MAX
    }

    /// Weight of the items closed as true.
    pub open spec fn chosen_weight(&self, s: MinimalSolution) -> int {
        chosen_sum(self.weights@, s, self.weights@.len())
    }

    /// Weight of the items still open.
    pub open spec fn open_weight(&self, s: MinimalSolution) -> int {
        open_sum(self.weights@, s, self.weights@.len())
    }

    /// Every open item still fits beside the chosen ones.
    pub open spec fn open_items_fit(&self, s: MinimalSolution) -> bool {
        forall|i: nat|
            i < self.weights@.len() && (#[trigger] s.decision(i)) is None ==> self.weights@[i as int]
                + self.chosen_weight(s) <= self.capacity
    }

    /// An instance of `size` items of weight zero and capacity zero.
    pub fn new(size: usize) -> (r: Self)
        requires
            size <= MAX_WIDTH,
        ensures
            r.instance_wf(),
            r.weights@.len() == size,
            r.capacity == 0,
    {
        let r = ProblemSubsetSum { weights: vec![ZERO_SCORE; size], capacity: 0 };
        proof {
            lemma_zero_prefix(r.weights@, size as nat);
        }
        r
    }

    /// A random instance of `size` items.
    pub fn random(size: usize) -> (r: Self)
        requires
            size <= MAX_RANDOM_ITEMS,
        ensures
            r.instance_wf(),
            r.weights@.len() == size,
            size > 0 ==> 0 < r.capacity,
    {
        let mut result = Self::new(size);
        result.randomize();
        result
    }

    /// Draws random weights, then a capacity: the weight of a random subset, drawn
    /// again while it is zero, half the weight sum (at least one) after too many draws.
    pub fn randomize(&mut self)
        requires
            old(self).weights@.len() <= MAX_RANDOM_ITEMS,
        ensures
            final(self).instance_wf(),
            final(self).weights@.len() == old(self).weights@.len(),
            final(self).weights@.len() > 0 ==> 0 < final(self).capacity,
            final(self).capacity as int <= prefix_sum(final(self).weights@, final(self).weights@.len()),
            forall|i: int, j: int|
                0 <= i < j < final(self).weights@.len() ==> final(self).weights@[i]
                    >= final(self).weights@[j],
    {
        let n = self.weights.len();
        let drawn = random_items(n);
        let ghost unsorted = drawn@;
        self.weights = sort_descending(drawn);
        proof {
            assert forall|i: int| 0 <= i < n implies #[trigger] self.weights@[i] <= RANDOM_ITEM_MAX
                && 1 <= self.weights@[i] by {
                vstd::seq_lib::to_multiset_contains(self.weights@, self.weights@[i]);
                assert(self.weights@.to_multiset().contains(self.weights@[i]));
                assert(unsorted.to_multiset().contains(self.weights@[i]));
                vstd::seq_lib::to_multiset_contains(unsorted, self.weights@[i]);
            }
            lemma_bounded_prefix_sum(self.weights@, n as nat);
        }
        proof {
            assert(n * RANDOM_ITEM_MAX <= ScoreType::MAX) by (nonlinear_arith)
                requires
                    n <= MAX_RANDOM_ITEMS,
            ;
        }
        let total = self.weights_sum();
        let mut capacity: ScoreType = 0;
        let mut attempt: usize = 0;
        while capacity == 0 && attempt < CAPACITY_ATTEMPTS
            invariant
                self.instance_wf(),
                self.weights@.len() == n,
                total == prefix_sum(self.weights@, n as nat),
                capacity <= total,
            decreases CAPACITY_ATTEMPTS - attempt,
        {
            capacity = self.random_subset_weight();
            attempt = attempt + 1;
        }
        if capacity == 0 {
            capacity = if total / 2 == 0 {
                total
            } else {
                total / 2
            };
        }
        proof {
            if n > 0 {
                lemma_prefix_sum_monotone(self.weights@, (n - 1) as nat, n as nat);
                assert(self.weights@[n - 1] >= 1);
            }
        }
        self.capacity = capacity;
    }

    /// The weight of a random subset of the items.
    fn random_subset_weight(&self) -> (r: ScoreType)
        requires
            self.instance_wf(),
        ensures
            r <= prefix_sum(self.weights@, self.weights@.len()),
    {
        let n = self.weights.len();
        let mut sum: ScoreType = 0;
        let mut i: usize = 0;
        while i < n
            invariant
                self.instance_wf(),
                n == self.weights@.len(),
                i <= n,
                sum <= prefix_sum(self.weights@, i as nat),
            decreases n - i,
        {
            proof {
                lemma_prefix_sum_monotone(self.weights@, (i + 1) as nat, n as nat);
            }
            if coin_flip() {
                sum = sum + self.weights[i];
            }
            i = i + 1;
        }
        sum
    }

    /// Sum of all weights.
    pub fn weights_sum(&self) -> (r: ScoreType)
        requires
            self.instance_wf(),
        ensures
            r == prefix_sum(self.weights@, self.weights@.len()),
    {
        let n = self.weights.len();
        let mut sum: ScoreType = 0;
        let mut i: usize = 0;
        while i < n
            invariant
                self.instance_wf(),
                n == self.weights@.len(),
                i <= n,
                sum == prefix_sum(self.weights@, i as nat),
            decreases n - i,
        {
            proof {
                lemma_prefix_sum_monotone(self.weights@, (i + 1) as nat, n as nat);
            }
            sum = sum + self.weights[i];
            i = i + 1;
        }
        sum
    }

    /// The instance is worth solving: some items and a positive capacity.
    pub fn is_legal(&self) -> (r: bool)
        ensures
            r == (0 < self.weights@.len() && 0 < self.capacity),
    {
        0 < self.weights.len() && 0 < self.capacity
    }

    pub fn short_description(&self) -> String
        requires
            self.instance_wf(),
    {
        describe_subset_sum(self.name(), self.capacity, self.weights_sum())
    }

    /// Whether every open item still fits beside the chosen ones.
    pub fn open_items_fit_check(&self, s: &MinimalSolution) -> (r: bool)
        requires
            self.instance_wf(),
            fits_size(*s, self.weights@.len()),
            self.chosen_weight(*s) <= self.capacity,
        ensures
            r == self.open_items_fit(*s),
    {
        let ghost w = self.weights@;
        let n = self.weights.len();
        let headroom = self.capacity - chosen_total(&self.weights, s);
        let mut bit: usize = 0;
        while bit < n
            invariant
                w == self.weights@,
                n == w.len(),
                bit <= n,
                fits_size(*s, n as nat),
                headroom == self.capacity - self.chosen_weight(*s),
                forall|j: nat|
                    j < bit && (#[trigger] s.decision(j)) is None ==> w[j as int] <= headroom,
            decreases n - bit,
        {
            if s.get_decision(bit).is_none() && headroom < self.weights[bit] {
                return false;
            }
            bit = bit + 1;
        }
        true
    }

    /// Whether the open items fit depends on the field values alone.
    pub proof fn lemma_fit_same_view(&self, a: MinimalSolution, b: MinimalSolution)
        requires
            a.same_view(&b),
        ensures
            self.open_items_fit(a) == self.open_items_fit(b),
            self.chosen_weight(a) == self.chosen_weight(b),
    {
        let n = self.weights@.len();
        a.lemma_same_view_decisions(&b, n);
        assert(a.same_decisions(&b, n));
        lemma_sums_frame(self.weights@, a, b, n);
        if self.open_items_fit(a) {
            assert forall|i: nat| i < n && (#[trigger] b.decision(i)) is None implies self.weights@[i as int]
                + self.chosen_weight(b) <= self.capacity by {
                assert(a.decision(i) is None);
            }
        }
        if self.open_items_fit(b) {
            assert forall|i: nat| i < n && (#[trigger] a.decision(i)) is None implies self.weights@[i as int]
                + self.chosen_weight(a) <= self.capacity by {
                assert(b.decision(i) is None);
            }
        }
    }

    /// Closes as false each open item heavier than what is left of the capacity, then
    /// stores the chosen weight as the score and, as the bound, the chosen weight plus
    /// all open items, capped at the capacity. When no item is closed, mask and
    /// decisions are kept as they were.
    pub fn close_heavy_items(&self, sol: &mut MinimalSolution)
        requires
            self.instance_wf(),
            fits_size(*old(sol), self.weights@.len()),
            self.chosen_weight(*old(sol)) <= self.capacity,
        ensures
            fits_size(*final(sol), self.weights@.len()),
            final(sol).priority == old(sol).priority,
            self.chosen_weight(*final(sol)) == self.chosen_weight(*old(sol)),
            final(sol).score == self.chosen_weight(*final(sol)),
            final(sol).best_score == self.best_spec(*final(sol)),
            self.open_items_fit(*final(sol)),
            forall|i: nat|
                i < self.weights@.len() && (#[trigger] old(sol).decision(i)) is Some
                    ==> final(sol).decision(i) == old(sol).decision(i),
            forall|i: nat|
                i < self.weights@.len() && (#[trigger] final(sol).decision(i)) != old(sol).decision(i)
                    ==> final(sol).decision(i) == Some(false),
            self.open_items_fit(*old(sol)) ==> final(sol).mask == old(sol).mask
                && final(sol).decisions == old(sol).decisions,
            forall|i: nat|
                i < self.weights@.len() && (#[trigger] old(sol).decision(i)) is None
                    ==> (final(sol).decision(i) is None <==> self.weights@[i as int]
                    + self.chosen_weight(*old(sol)) <= self.capacity),
            forall|t: MinimalSolution|
                fits_size(t, self.weights@.len()) && t.complete_upto(self.weights@.len())
                    && self.chosen_weight(t) <= self.capacity && #[trigger] keeps_decisions(
                    t,
                    *old(sol),
                    self.weights@.len(),
                ) ==> keeps_decisions(t, *final(sol), self.weights@.len()),
    {
        let ghost w = self.weights@;
        let n = self.weights.len();
        let chosen = chosen_total(&self.weights, sol);
        sol.put_score(chosen);
        let ghost s0 = *sol;
        let headroom = self.capacity - chosen;
        let mut weight: ScoreType = chosen;
        let mut bit: usize = 0;
        proof {
            assert(s0.same_decisions(old(sol), n as nat));
            lemma_sums_frame(w, *old(sol), s0, n as nat);
            if self.open_items_fit(*old(sol)) {
                assert forall|i: nat|
                    i < n && (#[trigger] s0.decision(i)) is None implies w[i as int]
                    + self.chosen_weight(s0) <= self.capacity by {
                    assert(old(sol).decision(i) is None);
                }
            }
        }
        while bit < n
            invariant
                self.instance_wf(),
                w == self.weights@,
                n == w.len(),
                bit <= n,
                fits_size(*sol, n as nat),
                fits_size(s0, n as nat),
                sol.score == chosen,
                sol.priority == s0.priority,
                chosen == chosen_sum(w, s0, n as nat),
                chosen <= self.capacity,
                headroom == self.capacity - chosen,
                chosen_sum(w, *sol, n as nat) == chosen,
                forall|j: nat| bit <= j < n ==> #[trigger] sol.decision(j) == s0.decision(j),
                forall|j: nat|
                    j < n && (#[trigger] s0.decision(j)) is Some ==> sol.decision(j)
                        == s0.decision(j),
                forall|j: nat|
                    j < n && (#[trigger] sol.decision(j)) != s0.decision(j) ==> sol.decision(j)
                        == Some(false),
                forall|j: nat|
                    j < bit && (#[trigger] sol.decision(j)) is None ==> w[j as int] <= headroom,
                forall|j: nat|
                    j < n && (#[trigger] sol.decision(j)) != s0.decision(j) ==> w[j as int] > headroom,
                weight == chosen + open_sum(w, *sol, bit as nat),
                self.open_items_fit(s0) ==> sol.mask == s0.mask && sol.decisions == s0.decisions,
            decreases n - bit,
        {
            let ghost before = *sol;
            proof {
                lemma_sums_bounds(w, *sol, (bit + 1) as nat);
                lemma_prefix_sum_monotone(w, (bit + 1) as nat, n as nat);
                lemma_sums_frame(w, s0, *sol, 0);
            }
            if sol.get_decision(bit).is_none() {
                if headroom < self.weights[bit] {
                    sol.make_decision(bit, false);
                    proof {
                        lemma_sums_change(w, before, *sol, bit as nat, n as nat);
                        assert(sol.same_decisions(&before, bit as nat));
                        lemma_sums_frame(w, *sol, before, bit as nat);
                        assert(s0.decision(bit as nat) is None);
                    }
                } else {
                    proof {
                        assert(chosen_sum(w, before, (bit + 1) as nat) == chosen_sum(
                            w,
                            before,
                            bit as nat,
                        ));
                        lemma_sums_bounds(w, before, (bit + 1) as nat);
                        lemma_sums_change(w, before, before, bit as nat, (bit + 1) as nat);
                        lemma_chosen_prefix_bound(w, before, (bit + 1) as nat, n as nat);
                        lemma_sums_bounds(w, before, n as nat);
                    }
                    weight = weight + self.weights[bit];
                }
            }
            bit = bit + 1;
        }
        let best = if self.capacity < weight {
            self.capacity
        } else {
            weight
        };
        let ghost end = *sol;
        sol.put_best_score(best);
        proof {
            assert(sol.mask == end.mask && sol.decisions == end.decisions);
            assert(sol.same_decisions(&end, n as nat));
            lemma_sums_frame(w, *sol, end, n as nat);
            assert forall|i: nat|
                i < n && (#[trigger] sol.decision(i)) is None implies w[i as int] + chosen
                <= self.capacity by {
                assert(end.decision(i) is None);
            }
            assert forall|i: nat|
                i < n && (#[trigger] old(sol).decision(i)) is None implies (sol.decision(i) is None
                <==> w[i as int] + chosen <= self.capacity) by {
                assert(s0.decision(i) == old(sol).decision(i));
                assert(sol.decision(i) == end.decision(i));
            }
            assert forall|t: MinimalSolution|
                fits_size(t, n as nat) && t.complete_upto(n as nat) && self.chosen_weight(t)
                    <= self.capacity && #[trigger] keeps_decisions(t, *old(sol), n as nat) implies keeps_decisions(
                t,
                *sol,
                n as nat,
            ) by {
                assert forall|i: nat| i < n && (#[trigger] sol.decision(i)) is Some implies t.decision(i)
                    == sol.decision(i) by {
                    assert(s0.decision(i) == old(sol).decision(i));
                    assert(sol.decision(i) == end.decision(i));
                    if old(sol).decision(i) is None {
                        assert(sol.decision(i) == Some(false));
                        assert(t.decision(i) is Some);
                        if t.decision(i) == Some(true) {
                            lemma_chosen_extension(w, *old(sol), t, n as nat, i);
                        }
                    }
                }
            }
        }
    }
}

/// The chosen sum of a prefix never passes the chosen sum of a longer prefix.
pub proof fn lemma_chosen_prefix_bound(v: Seq<ScoreType>, s: MinimalSolution, i: nat, n: nat)
    requires
        i <= n <= v.len(),
    ensures
        chosen_sum(v, s, i) <= chosen_sum(v, s, n),
        chosen_sum(v, s, i) + open_sum(v, s, i) <= chosen_sum(v, s, n) + open_sum(v, s, n),
        open_sum(v, s, i) <= open_sum(v, s, n),
    decreases n,
{
    if n > i {
        lemma_chosen_prefix_bound(v, s, i, (n - 1) as nat);
    }
}

proof fn lemma_zero_prefix(v: Seq<ScoreType>, n: nat)
    requires
        n <= v.len(),
        forall|k: int| 0 <= k < v.len() ==> v[k] == 0,
    ensures
        prefix_sum(v, n) == 0,
    decreases n,
{
    if n > 0 {
        lemma_zero_prefix(v, (n - 1) as nat);
    }
}

impl ProblemSubsetSum {
    /// What the problem contract's spec functions are for this problem.
    pub proof fn lemma_problem_defs(&self)
        ensures
            self.wf_spec() == self.instance_wf(),
            self.size_spec() == self.weights@.len(),
            forall|s: MinimalSolution| #[trigger] self.score_spec(s) == self.chosen_weight(s),
            forall|s: MinimalSolution| #[trigger] self.legal_spec(s) == (self.chosen_weight(s) <= self.capacity),
            forall|s: MinimalSolution|
                #[trigger] self.best_spec(s) == if self.capacity < self.chosen_weight(s) + self.open_weight(s) {
                    self.capacity as int
                } else {
                    self.chosen_weight(s) + self.open_weight(s)
                },
            forall|s: MinimalSolution|
                #[trigger] self.audit_spec(s) == (self.legal_spec(s) && s.score == self.chosen_weight(s)
                    && s.best_score == self.best_spec(s) && self.open_items_fit(s)),
    {
    }
}

impl Problem for ProblemSubsetSum {
    open spec fn wf_spec(&self) -> bool {
        self.instance_wf()
    }

    open spec fn size_spec(&self) -> nat {
        self.weights@.len()
    }

    open spec fn score_spec(&self, s: MinimalSolution) -> int {
        self.chosen_weight(s)
    }

    /// The chosen weight plus every open item, capped at the capacity.
    open spec fn best_spec(&self, s: MinimalSolution) -> int {
        let total = self.chosen_weight(s) + self.open_weight(s);
        if self.capacity < total {
            self.capacity as int
        } else {
            total
        }
    }

    open spec fn legal_spec(&self, s: MinimalSolution) -> bool {
        self.chosen_weight(s) <= self.capacity
    }

    open spec fn audit_spec(&self, s: MinimalSolution) -> bool {
        &&& self.legal_spec(s)
        &&& s.score == self.chosen_weight(s)
        &&& s.best_score == self.best_spec(s)
        &&& self.open_items_fit(s)
    }

    fn name(&self) -> &'static str {
        proof {
            self.lemma_problem_defs();
        }
        "ProblemSubsetSum"
    }

    fn problem_size(&self) -> (r: usize) {
        proof {
            self.lemma_problem_defs();
        }
        self.weights.len()
    }

    fn solution_score(&self, s: &MinimalSolution) -> (r: ScoreType) {
        proof {
            self.lemma_problem_defs();
        }
        chosen_total(&self.weights, s)
    }

    fn solution_best_score(&self, s: &MinimalSolution) -> (r: ScoreType) {
        proof {
            self.lemma_problem_defs();
        }
        let total = reachable_total(&self.weights, s);
        if self.capacity < total {
            self.capacity
        } else {
            total
        }
    }

    fn solution_is_legal(&self, s: &MinimalSolution) -> (r: bool) {
        proof {
            self.lemma_problem_defs();
        }
        self.solution_score(s) <= self.capacity
    }

    fn solution_is_complete(&self, s: &MinimalSolution) -> (r: bool) {
        proof {
            self.lemma_problem_defs();
        }
        self.first_open_decision(s).is_none()
    }

    fn first_open_decision(&self, s: &MinimalSolution) -> (r: Option<usize>) {
        proof {
            self.lemma_problem_defs();
        }
        let n = self.weights.len();
        let mut index: usize = 0;
        while index < n
            invariant
                n == self.weights@.len(),
                index <= n,
                fits_size(*s, n as nat),
                s.complete_upto(index as nat),
            decreases n - index,
        {
            if s.get_decision(index).is_none() {
                return Some(index);
            }
            index = index + 1;
        }
        None
    }

    /// A random complete solution; when too heavy, chosen items are dropped from the
    /// front until the weight is below the capacity.
    fn random_solution(&self) -> (r: MinimalSolution) {
        proof {
            self.lemma_problem_defs();
        }
        let ghost w = self.weights@;
        let n = self.weights.len();
        let mut result = MinimalSolution::random(n);
        let mut weight = self.solution_score(&result);
        let mut index: usize = 0;
        while index < n && self.capacity < weight
            invariant
                self.instance_wf(),
                w == self.weights@,
                n == w.len(),
                index <= n,
                fits_size(result, n as nat),
                result.complete_upto(n as nat),
                weight == chosen_sum(w, result, n as nat),
                forall|j: nat| j < index ==> #[trigger] result.decision(j) != Some(true),
            decreases n - index,
        {
            if result.get_decision(index) == Some(true) {
                let ghost before = result;
                result.make_decision(index, false);
                proof {
                    lemma_sums_change(w, before, result, index as nat, n as nat);
                    lemma_sums_bounds(w, result, n as nat);
                }
                weight = weight - self.weights[index];
            }
            index = index + 1;
        }
        proof {
            if index == n {
                lemma_nothing_chosen(w, result, n as nat);
            }
        }
        let ghost before = result;
        self.apply_rules(&mut result);
        proof {
            assert forall|i: nat| i < n implies (#[trigger] result.decision(i)) is Some by {
                assert(before.decision(i) is Some);
            }
        }
        result
    }

    /// Every decision open, then exactly the items heavier than the capacity closed.
    fn starting_solution(&self) -> (r: MinimalSolution)
        ensures
            forall|i: nat|
                i < self.weights@.len() ==> (#[trigger] r.decision(i) is None <==> self.weights@[i as int]
                    <= self.capacity),
            r.score == 0,
    {
        proof {
            self.lemma_problem_defs();
        }
        let n = self.weights.len();
        let mut result = MinimalSolution::new(n);
        proof {
            lemma_nothing_chosen(self.weights@, result, n as nat);
        }
        let ghost before = result;
        self.close_heavy_items(&mut result);
        proof {
            assert forall|i: nat| i < n implies #[trigger] result.decision(i) != Some(true) by {
                assert(before.decision(i) is None);
            }
            assert forall|i: nat| i < n implies (#[trigger] result.decision(i) is None
                <==> self.weights@[i as int] <= self.capacity) by {
                assert(before.decision(i) is None);
            }
            assert forall|t: MinimalSolution|
                fits_size(t, n as nat) && t.complete_upto(n as nat) && self.legal_spec(t) implies #[trigger] keeps_decisions(
                t,
                result,
                n as nat,
            ) by {
                assert(keeps_decisions(t, before, n as nat));
            }
        }
        result
    }

    /// An open item closes (as false) exactly when it no longer fits beside the chosen ones.
    fn apply_rules(&self, s: &mut MinimalSolution)
        ensures
            forall|i: nat|
                i < self.weights@.len() && (#[trigger] old(s).decision(i)) is None
                    ==> (final(s).decision(i) is None <==> self.weights@[i as int]
                    + self.chosen_weight(*old(s)) <= self.capacity),
    {
        proof {
            self.lemma_problem_defs();
        }
        self.close_heavy_items(s);
        proof {
            if self.audit_spec(*old(s)) {
                assert(s.same_decisions(old(s), self.weights@.len()));
                lemma_sums_frame(self.weights@, *s, *old(s), self.weights@.len());
            }
        }
    }

    fn rules_audit_passed(&self, s: &MinimalSolution) -> (r: bool) {
        proof {
            self.lemma_problem_defs();
        }
        let chosen = self.solution_score(s);
        if self.capacity < chosen || s.score != chosen {
            return false;
        }
        if s.best_score != self.solution_best_score(s) {
            return false;
        }
        self.open_items_fit_check(s)
    }

    proof fn lemma_same_view(&self, a: MinimalSolution, b: MinimalSolution) {
        self.lemma_problem_defs();
        let n = self.weights@.len();
        assert(a.same_decisions(&b, n));
        lemma_sums_frame(self.weights@, a, b, n);
        a.lemma_same_view_decisions(&b, n);
        self.lemma_fit_same_view(a, b);
    }

    proof fn lemma_child_legal(&self, parent: MinimalSolution, child: MinimalSolution, i: nat) {
        self.lemma_problem_defs();
        lemma_sums_change(self.weights@, parent, child, i, self.weights@.len());
        assert(parent.decision(i) is None);
    }

    proof fn lemma_bound(&self, s: MinimalSolution, t: MinimalSolution) {
        self.lemma_problem_defs();
        lemma_chosen_within_reach(self.weights@, s, t, self.weights@.len());
    }

    proof fn lemma_audit_scores(&self, s: MinimalSolution) {
        self.lemma_problem_defs();
    }

    proof fn lemma_complete_scores(&self, s: MinimalSolution) {
        self.lemma_problem_defs();
        lemma_complete_open_sum(self.weights@, s, self.weights@.len());
    }
}

} // verus!
