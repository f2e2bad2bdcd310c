//! A partial assignment of binary decisions: which bits are decided (the mask) and
//! their values (the decisions), with a score, an upper bound and a priority.
use vstd::prelude::*;

use crate::bits::{bit_at, bytes_for, get_bit, put_bit};
use crate::chance::{fill_random, random_up_to};
use crate::sample::{Sample, ScoreType};
use crate::text::{append_score, describe_scores};
use vstd::string::StringExecFns;

verus! {

/// Largest score drawn by `MinimalSolution::randomize`.
pub const TOP_RANDOM_SCORE: ScoreType = 1000;

/// Decision `i` is closed when bit `i` of `mask` is set, and then its value is bit `i`
/// of `decisions`; `score` and `best_score` hold the score reached and the bound
/// still reachable, `priority` orders solutions in a queue.
#[derive(Debug, Clone)]
pub struct MinimalSolution {
    pub size: usize,
    pub mask: Vec<u8>,
    pub decisions: Vec<u8>,
    pub score: ScoreType,
    pub best_score: ScoreType,
    pub priority: u64,
}

/// The text of the decisions below `k`: " 1,", " 0," or " ?," for each.
pub open spec fn decision_tokens(s: MinimalSolution, k: nat) -> Seq<char>
    decreases k,
{
    if k == 0 {
        Seq::empty()
    } else {
        decision_tokens(s, (k - 1) as nat) + match s.decision((k - 1) as nat) {
            Some(true) => seq![' ', '1', ','],
            Some(false) => seq![' ', '0', ','],
            None => seq![' ', '?', ','],
        }
    }
}

impl MinimalSolution {
    /// Mask and decisions both hold one bit per decision.
    pub open spec fn wf(&self) -> bool {
        &&& self.mask@.len() == bytes_for(self.size as nat)
        &&& self.decisions@.len() == bytes_for(self.size as nat)
    }

    /// Decision `i`: `None` while open, else its value.
    pub open spec fn decision(&self, i: nat) -> Option<bool> {
        if bit_at(self.mask@, i) {
            Some(bit_at(self.decisions@, i))
        } else {
            None
        }
    }

    /// No decision below `n` is open.
    pub open spec fn complete_upto(&self, n: nat) -> bool {
        forall|i: nat| i < n ==> (#[trigger] self.decision(i)) is Some
    }

    /// The two solutions agree on every decision below `n`.
    pub open spec fn same_decisions(&self, other: &MinimalSolution, n: nat) -> bool {
        forall|i: nat| i < n ==> #[trigger] self.decision(i) == other.decision(i)
    }

    /// The two solutions hold equal field values, the priority aside (it only orders
    /// solutions in a queue).
    pub open spec fn same_view(&self, other: &MinimalSolution) -> bool {
        &&& self.size == other.size
        &&& self.mask@ == other.mask@
        &&& self.decisions@ == other.decisions@
        &&& self.score == other.score
        &&& self.best_score == other.best_score
    }

    /// Solutions with equal field values make the same decisions.
    pub proof fn lemma_same_view_decisions(&self, other: &MinimalSolution, n: nat)
        requires
            self.same_view(other),
        ensures
            forall|i: nat| #[trigger] self.decision(i) == other.decision(i),
            self.complete_upto(n) == other.complete_upto(n),
    {
        if self.complete_upto(n) {
            assert forall|i: nat| i < n implies (#[trigger] other.decision(i)) is Some by {
                assert(self.decision(i) is Some);
            }
        }
        if other.complete_upto(n) {
            assert forall|i: nat| i < n implies (#[trigger] self.decision(i)) is Some by {
                assert(other.decision(i) is Some);
            }
        }
    }

    pub fn name(&self) -> &'static str {
        "MinimalSolution"
    }

    pub fn short_description(&self) -> String {
        describe_scores(self.name(), self.score, self.best_score)
    }

    /// All decisions open, scores and priority zero.
    pub fn new(size: usize) -> (r: Self)
        ensures
            r.wf(),
            r.size == size,
            r.score == 0,
            r.best_score == 0,
            r.priority == 0,
            forall|i: nat| i < size ==> #[trigger] r.decision(i) is None,
    {
        let num_bytes = Sample::bits_to_bytes(size);
        let r = MinimalSolution {
            size,
            mask: vec![0u8; num_bytes],
            decisions: vec![0u8; num_bytes],
            score: 0,
            best_score: 0,
            priority: 0,
        };
        proof {
            assert forall|i: nat| i < size implies #[trigger] r.decision(i) is None by {
                assert(r.mask@[(i / 8) as int] == 0u8);
                let k = (i % 8) as u8;
                assert(0u8 & (0x80u8 >> k) == 0) by (bit_vector);
            }
        }
        r
    }

    /// Decides every bit at random, with a random score in `1..=TOP_RANDOM_SCORE` and a
    /// larger random upper bound.
    pub fn randomize(&mut self)
        requires
            old(self).wf(),
        ensures
            final(self).wf(),
            final(self).size == old(self).size,
            final(self).complete_upto(final(self).size as nat),
            1 <= final(self).score <= TOP_RANDOM_SCORE,
            final(self).score < final(self).best_score,
    {
        let n = self.mask.len();
        self.mask = vec![0xFFu8; n];
        fill_random(&mut self.decisions);
        self.score = random_up_to(TOP_RANDOM_SCORE - 1) + 1;
        self.best_score = self.score + random_up_to(TOP_RANDOM_SCORE - 1) + 1;
        proof {
            assert forall|i: nat| i < self.size implies (#[trigger] self.decision(i)) is Some by {
                assert(self.mask@[(i / 8) as int] == 0xFFu8);
                let k = (i % 8) as u8;
                assert(0xFFu8 & (0x80u8 >> k) != 0) by (bit_vector)
                    requires
                        k < 8,
                ;
            }
        }
    }

    /// A randomized solution of the given size.
    pub fn random(size: usize) -> (r: Self)
        ensures
            r.wf(),
            r.size == size,
            r.complete_upto(size as nat),
    {
        let mut result = Self::new(size);
        result.randomize();
        result
    }

    pub fn size(&self) -> (r: usize)
        ensures
            r == self.size,
    {
        self.size
    }

    pub fn get_score(&self) -> (r: ScoreType)
        ensures
            r == self.score,
    {
        self.score
    }

    pub fn put_score(&mut self, score: ScoreType)
        ensures
            *final(self) == (MinimalSolution { score, ..*old(self) }),
    {
        self.score = score;
    }

    pub fn get_best_score(&self) -> (r: ScoreType)
        ensures
            r == self.best_score,
    {
        self.best_score
    }

    pub fn put_best_score(&mut self, best: ScoreType)
        ensures
            *final(self) == (MinimalSolution { best_score: best, ..*old(self) }),
    {
        self.best_score = best;
    }

    pub fn priority(&self) -> (r: u64)
        ensures
            r == self.priority,
    {
        self.priority
    }

    pub fn set_priority(&mut self, prio: u64)
        ensures
            *final(self) == (MinimalSolution { priority: prio, ..*old(self) }),
    {
        self.priority = prio;
    }

    /// The octets marking the decided bits.
    pub fn mask(&self) -> (r: &[u8])
        ensures
            r@ == self.mask@,
    {
        self.mask.as_slice()
    }

    /// The octets holding the decided values.
    pub fn query(&self) -> (r: &[u8])
        ensures
            r@ == self.decisions@,
    {
        self.decisions.as_slice()
    }

    /// Mask and decisions have the octet count of the size.
    pub fn is_well_formed(&self) -> (r: bool)
        ensures
            r == self.wf(),
    {
        let n = Sample::bits_to_bytes(self.size);
        self.mask.len() == n && self.decisions.len() == n
    }

    pub fn get_decision(&self, decision_number: usize) -> (r: Option<bool>)
        requires
            self.wf(),
            decision_number < self.size,
        ensures
            r == self.decision(decision_number as nat),
    {
        if !get_bit(self.mask.as_slice(), decision_number) {
            None
        } else {
            Some(get_bit(self.decisions.as_slice(), decision_number))
        }
    }

    /// Closes decision `decision_number` with the value `decision`; nothing else changes.
    pub fn make_decision(&mut self, decision_number: usize, decision: bool)
        requires
            old(self).wf(),
            decision_number < old(self).size,
        ensures
            final(self).wf(),
            final(self).size == old(self).size,
            final(self).score == old(self).score,
            final(self).best_score == old(self).best_score,
            final(self).priority == old(self).priority,
            final(self).decision(decision_number as nat) == Some(decision),
            forall|j: nat|
                j < old(self).size && j != decision_number ==> #[trigger] final(self).decision(j)
                    == old(self).decision(j),
    {
        put_bit(self.mask.as_mut_slice(), decision_number, true);
        put_bit(self.decisions.as_mut_slice(), decision_number, decision);
        proof {
            assert forall|j: nat|
                j < old(self).size && j != decision_number implies #[trigger] self.decision(j)
                == old(self).decision(j) by {
                assert(bit_at(self.mask@, j) == bit_at(old(self).mask@, j));
                assert(bit_at(self.decisions@, j) == bit_at(old(self).decisions@, j));
            }
        }
    }

    /// A copy with the same fields.
    pub fn duplicate(&self) -> (r: Self)
        ensures
            r.same_view(self),
            r.priority == self.priority,
    {
        MinimalSolution {
            size: self.size,
            mask: self.mask.clone(),
            decisions: self.decisions.clone(),
            score: self.score,
            best_score: self.best_score,
            priority: self.priority,
        }
    }

    /// One token per decision (`1`, `0`, or `?` while open), then the score.
    pub fn readable(&self) -> (r: String)
        requires
            self.wf(),
        ensures
            decision_tokens(*self, self.size as nat).len() <= r@.len(),
            r@.subrange(0, decision_tokens(*self, self.size as nat).len() as int) == decision_tokens(
                *self,
                self.size as nat,
            ),
    {
        let mut body = String::new();
        let mut dim: usize = 0;
        while dim < self.size
            invariant
                self.wf(),
                dim <= self.size,
                body@ == decision_tokens(*self, dim as nat),
            decreases self.size - dim,
        {
            proof {
                reveal_strlit(" 1,");
                reveal_strlit(" 0,");
                reveal_strlit(" ?,");
            }
            let code = match self.get_decision(dim) {
                Some(d) => if d {
                    " 1,"
                } else {
                    " 0,"
                },
                None => " ?,",
            };
            body.append(code);
            dim = dim + 1;
        }
        append_score(body.as_str(), self.score)
    }
}

} // verus!
