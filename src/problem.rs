//! The contract a binary decision problem offers the search engine, and the sums
//! over decided and open items that the concrete problems are stated with.
use vstd::prelude::*;

use crate::chance::coin_flip;
use crate::sample::{Sample, ScoreType};
use crate::solution::MinimalSolution;

verus! {

/// The solution has the octets its size asks for, and `n` decisions.
pub open spec fn fits_size(s: MinimalSolution, n: nat) -> bool {
    s.wf() && s.size == n
}

/// Sum of `v[i]` over the decisions `i < n` closed as true.
pub open spec fn chosen_sum(v: Seq<ScoreType>, s: MinimalSolution, n: nat) -> int
    decreases n,
{
    if n == 0 {
        0
    } else {
        chosen_sum(v, s, (n - 1) as nat) + if s.decision((n - 1) as nat) == Some(true) {
            v[n - 1] as int
        } else {
            0
        }
    }
}

/// Sum of `v[i]` over the decisions `i < n` still open.
pub open spec fn open_sum(v: Seq<ScoreType>, s: MinimalSolution, n: nat) -> int
    decreases n,
{
    if n == 0 {
        0
    } else {
        open_sum(v, s, (n - 1) as nat) + if s.decision((n - 1) as nat) is None {
            v[n - 1] as int
        } else {
            0
        }
    }
}

/// Sum of the first `n` entries of `v`.
pub open spec fn prefix_sum(v: Seq<ScoreType>, n: nat) -> int
    decreases n,
{
    if n == 0 {
        0
    } else {
        prefix_sum(v, (n - 1) as nat) + v[n - 1] as int
    }
}

/// Sums over decisions agree for solutions that agree on those decisions.
pub proof fn lemma_sums_frame(v: Seq<ScoreType>, s: MinimalSolution, t: MinimalSolution, n: nat)
    requires
        s.same_decisions(&t, n),
    ensures
        chosen_sum(v, s, n) == chosen_sum(v, t, n),
        open_sum(v, s, n) == open_sum(v, t, n),
    decreases n,
{
    if n > 0 {
        lemma_sums_frame(v, s, t, (n - 1) as nat);
        assert(s.decision((n - 1) as nat) == t.decision((n - 1) as nat));
    }
}

/// How the sums move when one decision `i < n` changes and all others stay.
pub proof fn lemma_sums_change(
    v: Seq<ScoreType>,
    s: MinimalSolution,
    t: MinimalSolution,
    i: nat,
    n: nat,
)
    requires
        i < n <= v.len(),
        forall|j: nat| j < n && j != i ==> #[trigger] s.decision(j) == t.decision(j),
    ensures
        chosen_sum(v, t, n) == chosen_sum(v, s, n) - (if s.decision(i) == Some(true) {
            v[i as int] as int
        } else {
            0
        }) + (if t.decision(i) == Some(true) {
            v[i as int] as int
        } else {
            0
        }),
        open_sum(v, t, n) == open_sum(v, s, n) - (if s.decision(i) is None {
            v[i as int] as int
        } else {
            0
        }) + (if t.decision(i) is None {
            v[i as int] as int
        } else {
            0
        }),
    decreases n,
{
    if n - 1 == i {
        lemma_sums_frame(v, s, t, i);
    } else {
        lemma_sums_change(v, s, t, i, (n - 1) as nat);
        assert(s.decision((n - 1) as nat) == t.decision((n - 1) as nat));
    }
}

/// Decided and open items together weigh at most all items.
pub proof fn lemma_sums_bounds(v: Seq<ScoreType>, s: MinimalSolution, n: nat)
    requires
        n <= v.len(),
    ensures
        0 <= chosen_sum(v, s, n),
        0 <= open_sum(v, s, n),
        chosen_sum(v, s, n) + open_sum(v, s, n) <= prefix_sum(v, n),
    decreases n,
{
    if n > 0 {
        lemma_sums_bounds(v, s, (n - 1) as nat);
    }
}

/// Nothing is open in a complete solution.
pub proof fn lemma_complete_open_sum(v: Seq<ScoreType>, s: MinimalSolution, n: nat)
    requires
        s.complete_upto(n),
    ensures
        open_sum(v, s, n) == 0,
    decreases n,
{
    if n > 0 {
        assert(s.decision((n - 1) as nat) is Some);
        lemma_complete_open_sum(v, s, (n - 1) as nat);
    }
}

/// The prefix sums grow with the prefix.
pub proof fn lemma_prefix_sum_monotone(v: Seq<ScoreType>, i: nat, n: nat)
    requires
        i <= n <= v.len(),
    ensures
        0 <= prefix_sum(v, i) <= prefix_sum(v, n),
    decreases n,
{
    if n > i {
        lemma_prefix_sum_monotone(v, i, (n - 1) as nat);
    } else if n > 0 {
        lemma_prefix_sum_monotone(v, (n - 1) as nat, (n - 1) as nat);
    }
}

/// Sum of the entries of `v` whose decision is closed as true.
pub fn chosen_total(v: &Vec<ScoreType>, s: &MinimalSolution) -> (r: ScoreType)
    requires
        fits_size(*s, v@.len()),
        prefix_sum(v@, v@.len()) <= ScoreType::MAX,
    ensures
        r == chosen_sum(v@, *s, v@.len()),
{
    let n = v.len();
    let mut result: ScoreType = 0;
    let mut index: usize = 0;
    while index < n
        invariant
            n == v@.len(),
            index <= n,
            fits_size(*s, n as nat),
            prefix_sum(v@, v@.len()) <= ScoreType::MAX,
            result == chosen_sum(v@, *s, index as nat),
        decreases n - index,
    {
        proof {
            lemma_sums_bounds(v@, *s, (index + 1) as nat);
            lemma_prefix_sum_monotone(v@, (index + 1) as nat, n as nat);
        }
        if s.get_decision(index) == Some(true) {
            result = result + v[index];
        }
        index = index + 1;
    }
    result
}

/// Sum of the entries of `v` whose decision is true or still open.
pub fn reachable_total(v: &Vec<ScoreType>, s: &MinimalSolution) -> (r: ScoreType)
    requires
        fits_size(*s, v@.len()),
        prefix_sum(v@, v@.len()) <= ScoreType::MAX,
    ensures
        r == chosen_sum(v@, *s, v@.len()) + open_sum(v@, *s, v@.len()),
{
    let n = v.len();
    let mut result: ScoreType = 0;
    let mut index: usize = 0;
    while index < n
        invariant
            n == v@.len(),
            index <= n,
            fits_size(*s, n as nat),
            prefix_sum(v@, v@.len()) <= ScoreType::MAX,
            result == chosen_sum(v@, *s, index as nat) + open_sum(v@, *s, index as nat),
        decreases n - index,
    {
        proof {
            lemma_sums_bounds(v@, *s, (index + 1) as nat);
            lemma_prefix_sum_monotone(v@, (index + 1) as nat, n as nat);
        }
        if s.get_decision(index) != Some(false) {
            result = result + v[index];
        }
        index = index + 1;
    }
    result
}

/// Number of decisions below `n` still open.
pub open spec fn open_count(s: MinimalSolution, n: nat) -> nat
    decreases n,
{
    if n == 0 {
        0
    } else {
        open_count(s, (n - 1) as nat) + if s.decision((n - 1) as nat) is None {
            1nat
        } else {
            0nat
        }
    }
}

/// Closing decisions, and changing none that was closed, never opens more; closing
/// the open decision `k` opens strictly fewer.
pub proof fn lemma_open_count_closes(s: MinimalSolution, t: MinimalSolution, n: nat, k: nat)
    requires
        forall|i: nat| i < n && (#[trigger] s.decision(i)) is Some ==> t.decision(i) == s.decision(i),
    ensures
        open_count(t, n) <= open_count(s, n),
        k < n && s.decision(k) is None && t.decision(k) is Some ==> open_count(t, n) < open_count(s, n),
    decreases n,
{
    if n > 0 {
        lemma_open_count_closes(s, t, (n - 1) as nat, k);
        if s.decision((n - 1) as nat) is Some {
            assert(t.decision((n - 1) as nat) == s.decision((n - 1) as nat));
        }
    }
}

/// Every decision closed in `s` below `n` has the same value in `t`.
pub open spec fn keeps_decisions(t: MinimalSolution, s: MinimalSolution, n: nat) -> bool {
    forall|i: nat| i < n && (#[trigger] s.decision(i)) is Some ==> t.decision(i) == s.decision(i)
}

/// Decision `i` is the lowest open decision of `s`.
pub open spec fn first_open(s: MinimalSolution, i: nat) -> bool {
    i < s.size && s.decision(i) is None && s.complete_upto(i)
}

/// A solution that keeps the decisions of `s` chooses at least what `s` chooses, and
/// more by `v[i]` when it sets to true a decision `i` that `s` leaves open.
pub proof fn lemma_chosen_extension(v: Seq<ScoreType>, s: MinimalSolution, t: MinimalSolution, m: nat, i: nat)
    requires
        m <= v.len(),
        forall|j: nat| j < m && (#[trigger] s.decision(j)) is Some ==> t.decision(j) == s.decision(j),
    ensures
        chosen_sum(v, t, m) >= chosen_sum(v, s, m),
        i < m && s.decision(i) is None && t.decision(i) == Some(true) ==> chosen_sum(v, t, m)
            >= chosen_sum(v, s, m) + v[i as int],
    decreases m,
{
    if m > 0 {
        lemma_chosen_extension(v, s, t, (m - 1) as nat, i);
        if s.decision((m - 1) as nat) is Some {
            assert(t.decision((m - 1) as nat) == s.decision((m - 1) as nat));
        }
    }
}

/// What a solution that keeps the decisions of `s` chooses is within what `s` chooses
/// plus what it leaves open.
pub proof fn lemma_chosen_within_reach(v: Seq<ScoreType>, s: MinimalSolution, t: MinimalSolution, m: nat)
    requires
        m <= v.len(),
        forall|j: nat| j < m && (#[trigger] s.decision(j)) is Some ==> t.decision(j) == s.decision(j),
    ensures
        chosen_sum(v, t, m) <= chosen_sum(v, s, m) + open_sum(v, s, m),
    decreases m,
{
    if m > 0 {
        lemma_chosen_within_reach(v, s, t, (m - 1) as nat);
        if s.decision((m - 1) as nat) is Some {
            assert(t.decision((m - 1) as nat) == s.decision((m - 1) as nat));
        }
    }
}

/// `child` has decision `i` set to `v`, keeps the decisions of `parent`, and differs
/// from it elsewhere only by decisions closed as false.
pub open spec fn child_shape(parent: MinimalSolution, child: MinimalSolution, i: nat, v: bool, n: nat) -> bool {
    &&& child.decision(i) == Some(v)
    &&& keeps_decisions(child, parent, n)
    &&& forall|j: nat|
        j < n && j != i && (#[trigger] child.decision(j)) != parent.decision(j) ==> child.decision(j)
            == Some(false)
}

/// A binary decision problem: its instance data, how a (partial) solution scores,
/// how far it can still climb, when it is feasible, and how implicit decisions follow
/// from explicit ones.
pub trait Problem: Sized {
    /// The instance is well formed (sizes agree, sums fit in a score).
    spec fn wf_spec(&self) -> bool;

    /// Number of decisions.
    spec fn size_spec(&self) -> nat;

    /// Score of the decisions made so far.
    spec fn score_spec(&self, s: MinimalSolution) -> int;

    /// Upper bound on the score of any completion.
    spec fn best_spec(&self, s: MinimalSolution) -> int;

    /// The decisions made so far are feasible.
    spec fn legal_spec(&self, s: MinimalSolution) -> bool;

    /// The solution is feasible, its stored score and bound are the computed ones, and
    /// no open decision could still be set to true.
    spec fn audit_spec(&self, s: MinimalSolution) -> bool;

    fn name(&self) -> &'static str;

    fn problem_size(&self) -> (r: usize)
        ensures
            r == self.size_spec(),
    ;

    fn solution_score(&self, s: &MinimalSolution) -> (r: ScoreType)
        requires
            self.wf_spec(),
            fits_size(*s, self.size_spec()),
        ensures
            r == self.score_spec(*s),
    ;

    fn solution_best_score(&self, s: &MinimalSolution) -> (r: ScoreType)
        requires
            self.wf_spec(),
            fits_size(*s, self.size_spec()),
        ensures
            r == self.best_spec(*s),
    ;

    fn solution_is_legal(&self, s: &MinimalSolution) -> (r: bool)
        requires
            self.wf_spec(),
            fits_size(*s, self.size_spec()),
        ensures
            r == self.legal_spec(*s),
    ;

    fn solution_is_complete(&self, s: &MinimalSolution) -> (r: bool)
        requires
            self.wf_spec(),
            fits_size(*s, self.size_spec()),
        ensures
            r == s.complete_upto(self.size_spec()),
    ;

    /// The lowest open decision, if any.
    fn first_open_decision(&self, s: &MinimalSolution) -> (r: Option<usize>)
        requires
            self.wf_spec(),
            fits_size(*s, self.size_spec()),
        ensures
            match r {
                Some(i) => i < self.size_spec() && s.decision(i as nat) is None && s.complete_upto(
                    i as nat,
                ),
                None => s.complete_upto(self.size_spec()),
            },
    ;

    /// A feasible complete solution drawn at random.
    fn random_solution(&self) -> (r: MinimalSolution)
        requires
            self.wf_spec(),
        ensures
            fits_size(r, self.size_spec()),
            r.complete_upto(self.size_spec()),
            self.audit_spec(r),
    ;

    /// Every decision open but those the rules close.
    fn starting_solution(&self) -> (r: MinimalSolution)
        requires
            self.wf_spec(),
        ensures
            fits_size(r, self.size_spec()),
            self.audit_spec(r),
            forall|i: nat| i < self.size_spec() ==> #[trigger] r.decision(i) != Some(true),
            forall|t: MinimalSolution|
                fits_size(t, self.size_spec()) && t.complete_upto(self.size_spec())
                    && self.legal_spec(t) ==> #[trigger] keeps_decisions(t, r, self.size_spec()),
    ;

    /// Closes as false each open decision that can no longer be true, and stores the
    /// score and the bound. Explicit decisions stay; an audited solution is left as
    /// it is, so a second call changes nothing.
    fn apply_rules(&self, s: &mut MinimalSolution)
        requires
            self.wf_spec(),
            fits_size(*old(s), self.size_spec()),
            self.legal_spec(*old(s)),
        ensures
            fits_size(*final(s), self.size_spec()),
            self.audit_spec(*final(s)),
            final(s).priority == old(s).priority,
            forall|i: nat|
                i < self.size_spec() && (#[trigger] old(s).decision(i)) is Some
                    ==> final(s).decision(i) == old(s).decision(i),
            forall|i: nat|
                i < self.size_spec() && (#[trigger] final(s).decision(i)) != old(s).decision(i)
                    ==> final(s).decision(i) == Some(false),
            self.audit_spec(*old(s)) ==> *final(s) == *old(s),
            forall|t: MinimalSolution|
                fits_size(t, self.size_spec()) && t.complete_upto(self.size_spec())
                    && self.legal_spec(t) && #[trigger] keeps_decisions(t, *old(s), self.size_spec())
                    ==> keeps_decisions(t, *final(s), self.size_spec()),
    ;

    fn rules_audit_passed(&self, s: &MinimalSolution) -> (r: bool)
        requires
            self.wf_spec(),
            fits_size(*s, self.size_spec()),
        ensures
            r == self.audit_spec(*s),
    ;

    /// The new solution's bound reaches the old one's.
    fn better_than(&self, new_solution: &MinimalSolution, old_solution: &MinimalSolution) -> (r:
        bool)
        ensures
            r == (old_solution.best_score <= new_solution.best_score),
    {
        old_solution.best_score <= new_solution.best_score
    }

    /// The branch-and-bound test: the new solution's bound reaches the old one's.
    fn can_be_better_than(
        &self,
        new_solution: &MinimalSolution,
        old_solution: &MinimalSolution,
    ) -> (r: bool)
        requires
            self.wf_spec(),
            fits_size(*new_solution, self.size_spec()),
            fits_size(*old_solution, self.size_spec()),
        ensures
            r == (self.best_spec(*old_solution) <= self.best_spec(*new_solution)),
    {
        self.solution_best_score(old_solution) <= self.solution_best_score(new_solution)
    }

    /// Setting an open decision of an audited solution keeps it feasible.
    proof fn lemma_child_legal(&self, parent: MinimalSolution, child: MinimalSolution, i: nat)
        requires
            self.wf_spec(),
            fits_size(parent, self.size_spec()),
            fits_size(child, self.size_spec()),
            self.audit_spec(parent),
            i < self.size_spec(),
            parent.decision(i) is None,
            child.decision(i) is Some,
            forall|j: nat|
                j < self.size_spec() && j != i ==> #[trigger] child.decision(j) == parent.decision(
                    j,
                ),
        ensures
            self.legal_spec(child),
    ;

    /// The bound of an audited solution holds for every complete, feasible solution that
    /// keeps its decisions.
    proof fn lemma_bound(&self, s: MinimalSolution, t: MinimalSolution)
        requires
            self.wf_spec(),
            fits_size(s, self.size_spec()),
            fits_size(t, self.size_spec()),
            self.audit_spec(s),
            t.complete_upto(self.size_spec()),
            self.legal_spec(t),
            keeps_decisions(t, s, self.size_spec()),
        ensures
            self.score_spec(t) <= s.best_score,
    ;

    /// An audited solution stores its score and its bound.
    proof fn lemma_audit_scores(&self, s: MinimalSolution)
        requires
            self.wf_spec(),
            fits_size(s, self.size_spec()),
            self.audit_spec(s),
        ensures
            s.score == self.score_spec(s),
            s.best_score == self.best_spec(s),
    ;

    /// In a complete audited solution score and bound coincide with the stored score.
    proof fn lemma_complete_scores(&self, s: MinimalSolution)
        requires
            self.wf_spec(),
            fits_size(s, self.size_spec()),
            self.audit_spec(s),
            s.complete_upto(self.size_spec()),
        ensures
            s.score == self.score_spec(s),
            self.score_spec(s) == self.best_spec(s),
            s.best_score == s.score,
    ;

    /// Everything stated of a solution depends on its fields' values alone.
    proof fn lemma_same_view(&self, a: MinimalSolution, b: MinimalSolution)
        requires
            self.wf_spec(),
            a.same_view(&b),
        ensures
            fits_size(a, self.size_spec()) == fits_size(b, self.size_spec()),
            a.complete_upto(self.size_spec()) == b.complete_upto(self.size_spec()),
            self.audit_spec(a) == self.audit_spec(b),
            self.score_spec(a) == self.score_spec(b),
            self.best_spec(a) == self.best_spec(b),
    ;

    /// The sample a complete solution writes into an MHD memory: its decision octets
    /// and its score.
    fn sample_from_solution(&self, solution: &MinimalSolution) -> (r: Sample)
        requires
            self.wf_spec(),
            fits_size(*solution, self.size_spec()),
        ensures
            r.wf(),
            r.width == self.size_spec(),
            r.bytes@ == solution.decisions@,
            r.score == self.score_spec(*solution),
    {
        Sample {
            width: self.problem_size(),
            score: self.solution_score(solution),
            bytes: solution.decisions.clone(),
        }
    }

    /// `solution` with decision `index` set to `decision` and every other open decision
    /// drawn by a fair coin, lowest first, the rules applied after each.
    fn random_completion(&self, solution: &MinimalSolution, index: usize, decision: bool) -> (r:
        MinimalSolution)
        requires
            self.wf_spec(),
            fits_size(*solution, self.size_spec()),
            self.audit_spec(*solution),
            index < self.size_spec(),
            solution.decision(index as nat) is None,
        ensures
            fits_size(r, self.size_spec()),
            self.audit_spec(r),
            r.complete_upto(self.size_spec()),
            r.decision(index as nat) == Some(decision),
            forall|i: nat|
                i < self.size_spec() && (#[trigger] solution.decision(i)) is Some ==> r.decision(i)
                    == solution.decision(i),
    {
        let ghost n = self.size_spec();
        let mut result = self.produce_child(solution, index, decision);
        let mut next = self.first_open_decision(&result);
        while next.is_some()
            invariant
                self.wf_spec(),
                n == self.size_spec(),
                index < n,
                fits_size(result, n),
                self.audit_spec(result),
                result.decision(index as nat) == Some(decision),
                forall|i: nat|
                    i < n && (#[trigger] solution.decision(i)) is Some ==> result.decision(i)
                        == solution.decision(i),
                match next {
                    Some(i) => i < n && result.decision(i as nat) is None,
                    None => result.complete_upto(n),
                },
            decreases open_count(result, n),
        {
            let i = match next {
                Some(i) => i,
                None => 0,
            };
            let coin = coin_flip();
            let child = self.produce_child(&result, i, coin);
            proof {
                assert(result.decision(index as nat) is Some);
                assert(child.decision(index as nat) == result.decision(index as nat));
                lemma_open_count_closes(result, child, n, i as nat);
            }
            result = child;
            next = self.first_open_decision(&result);
        }
        result
    }

    /// `parent` with decision `index` set to `decision`, then the rules applied.
    fn produce_child(&self, parent: &MinimalSolution, index: usize, decision: bool) -> (r:
        MinimalSolution)
        requires
            self.wf_spec(),
            fits_size(*parent, self.size_spec()),
            self.audit_spec(*parent),
            index < self.size_spec(),
            parent.decision(index as nat) is None,
        ensures
            fits_size(r, self.size_spec()),
            self.audit_spec(r),
            r.decision(index as nat) == Some(decision),
            forall|i: nat|
                i < self.size_spec() && (#[trigger] parent.decision(i)) is Some ==> r.decision(i)
                    == parent.decision(i),
            child_shape(*parent, r, index as nat, decision, self.size_spec()),
            forall|t: MinimalSolution|
                fits_size(t, self.size_spec()) && t.complete_upto(self.size_spec())
                    && self.legal_spec(t) && #[trigger] keeps_decisions(t, *parent, self.size_spec())
                    && t.decision(index as nat) == Some(decision) ==> keeps_decisions(
                    t,
                    r,
                    self.size_spec(),
                ),
    {
        let ghost n = self.size_spec();
        let mut child = parent.duplicate();
        child.make_decision(index, decision);
        proof {
            self.lemma_child_legal(*parent, child, index as nat);
        }
        let ghost set = child;
        self.apply_rules(&mut child);
        proof {
            assert forall|i: nat|
                i < n && (#[trigger] parent.decision(i)) is Some implies child.decision(i)
                == parent.decision(i) by {
                assert(set.decision(i) == parent.decision(i));
            }
            assert forall|j: nat|
                j < n && j != index && (#[trigger] child.decision(j)) != parent.decision(j) implies child.decision(j)
                == Some(false) by {
                assert(set.decision(j) == parent.decision(j));
            }
            assert forall|t: MinimalSolution|
                fits_size(t, n) && t.complete_upto(n) && self.legal_spec(t)
                    && #[trigger] keeps_decisions(t, *parent, n) && t.decision(index as nat) == Some(
                    decision,
                ) implies keeps_decisions(t, child, n) by {
                assert forall|i: nat| i < n && (#[trigger] set.decision(i)) is Some implies t.decision(i)
                    == set.decision(i) by {
                    if i != index {
                        assert(set.decision(i) == parent.decision(i));
                    }
                }
                assert(keeps_decisions(t, set, n));
            }
        }
        child
    }

    /// The two children of an incomplete solution at its first open decision: true first,
    /// then false.
    fn children_of_solution(&self, parent: &MinimalSolution) -> (r: Vec<MinimalSolution>)
        requires
            self.wf_spec(),
            fits_size(*parent, self.size_spec()),
            self.audit_spec(*parent),
            !parent.complete_upto(self.size_spec()),
        ensures
            r@.len() == 2,
            forall|k: int|
                0 <= k < 2 ==> fits_size(#[trigger] r@[k], self.size_spec()) && self.audit_spec(
                    r@[k],
                ),
            exists|i: nat|
                #[trigger] first_open(*parent, i) && child_shape(*parent, r@[0], i, true, self.size_spec())
                    && child_shape(*parent, r@[1], i, false, self.size_spec()) && forall|t: MinimalSolution|
                    fits_size(t, self.size_spec()) && t.complete_upto(self.size_spec())
                        && self.legal_spec(t) && #[trigger] keeps_decisions(t, *parent, self.size_spec())
                        ==> (t.decision(i) == Some(true) ==> keeps_decisions(t, r@[0], self.size_spec()))
                        && (t.decision(i) == Some(false) ==> keeps_decisions(t, r@[1], self.size_spec())),
    {
        let mut result: Vec<MinimalSolution> = Vec::new();
        match self.first_open_decision(parent) {
            Some(index) => {
                let t = self.produce_child(parent, index, true);
                let f = self.produce_child(parent, index, false);
                result.push(t);
                result.push(f);
                proof {
                    assert(result@[0] == t && result@[1] == f);
                    assert(first_open(*parent, index as nat));
                    assert forall|u: MinimalSolution|
                        fits_size(u, self.size_spec()) && u.complete_upto(self.size_spec())
                            && self.legal_spec(u) && #[trigger] keeps_decisions(u, *parent, self.size_spec())
                            implies (u.decision(index as nat) == Some(true) ==> keeps_decisions(u, result@[0], self.size_spec()))
                            && (u.decision(index as nat) == Some(false) ==> keeps_decisions(u, result@[1], self.size_spec())) by {}
                }
            },
            None => {},
        }
        result
    }
}

/// `r` holds the two children of `parent` at its lowest open decision, as
/// `Problem::children_of_solution` gives them: the decision set to true in the first,
/// to false in the second, rules applied, and no complete feasible solution that keeps
/// the parent's decisions lost.
pub open spec fn are_children_of<P: Problem>(p: &P, parent: MinimalSolution, r: Seq<MinimalSolution>) -> bool {
    let n = p.size_spec();
    &&& r.len() == 2
    &&& forall|k: int| 0 <= k < 2 ==> fits_size(#[trigger] r[k], n) && p.audit_spec(r[k])
    &&& exists|i: nat|
        #[trigger] first_open(parent, i) && child_shape(parent, r[0], i, true, n) && child_shape(
            parent,
            r[1],
            i,
            false,
            n,
        ) && forall|t: MinimalSolution|
            fits_size(t, n) && t.complete_upto(n) && p.legal_spec(t) && #[trigger] keeps_decisions(
                t,
                parent,
                n,
            ) ==> (t.decision(i) == Some(true) ==> keeps_decisions(t, r[0], n)) && (t.decision(i)
                == Some(false) ==> keeps_decisions(t, r[1], n))
}

} // verus!
