//! The MHD memory: a deduplicated bag of scored bit vectors, read back by masked
//! Hamming distance to a (mask, query) probe.
use vstd::prelude::*;

use crate::bits::{bit_at, bytes_for};
use crate::chance::{coin_flip, random_below};
use crate::fixed::{floor_log2, isqrt, isqrt_spec, lemma_isqrt_unique, log2_floor, LN2_FIXED};
use crate::distance::{distance, fits_count, lemma_weight_bounds, masked_xor, mhd, weight, weight_of};
use crate::sample::{Sample, ScoreType, ZERO_SCORE};

verus! {

/// Why a write was refused.
#[derive(Debug, Clone, Copy, PartialEq, Eq, Structural)]
pub enum MemoryError {
    /// The sample's width differs from the memory's.
    WidthMismatch,
    /// The memory holds the same bit vector with another score.
    InconsistentScore,
}

/// How the weight of a sample falls with its distance `d` from the probe. A sample
/// at distance zero weighs one; beyond the threshold it weighs nothing.
#[derive(Debug, Clone, Copy, PartialEq, Eq, Structural)]
pub enum DistanceMultiplier {
    /// `(1 - d/T)^(1/(d + 1))`, the default: a convex ramp that keeps near samples
    /// sharp and fades far ones smoothly (see `ramp_weight`).
    Ramp,
    /// `1 / (d + 1)`
    Reciprocal,
    /// `1 / (d + 1)^2`
    ReciprocalSquared,
}

/// The exploration bonus added to a side's priority.
#[derive(Debug, Clone, Copy, PartialEq, Eq, Structural)]
pub enum Exploration {
    /// `(other_hits - hits) / other_hits` when this side has fewer exact hits, else 0.
    HitImbalance,
    /// `(other_weight - weight) / other_weight` when this side weighs less, else 0.
    WeightImbalance,
    /// `sqrt(ln(hits + other_hits) / hits) * C` (UCB1), with `C = 80 sqrt 2 ~ 113.14` and
    /// the logarithm taken as `floor(log2) ln 2`.
    Ucb1,
}

/// The UCB1 exploration constant `80 sqrt 2`, as a fraction.
pub const UCB_C_NUM: u64 = 113_137_085;

pub const UCB_C_DEN: u64 = 1_000_000;

/// `ln(total) / hits` in units of `PRIORITY_ONE` squared.
pub open spec fn ucb_radicand(total: nat, hits: nat) -> nat {
    ((log2_floor(total) * LN2_FIXED * PRIORITY_ONE) as int / (hits as int)) as nat
}

/// Fixed-point one for the weights of the masked read.
pub const READ_ONE: u128 = 0x1_0000_0000_0000_0000;

/// Fixed-point one for the sample weights of the priority read.
pub const WEIGHT_ONE: u64 = 0x10_0000;

/// Fixed-point one for priorities.
pub const PRIORITY_ONE: u64 = 0x10_0000;

/// A side without exact hits gets `max_score` times this factor (in priority units).
pub const UNEXPLORED_FACTOR: u64 = 1024;

/// Most samples a memory holds; keeps every score sum within 64 bits.
pub const MAX_SAMPLES: usize = 0xFFFF_FFFF;

/// Widest sample a memory takes.
pub const MAX_WIDTH: usize = 0x7FFF_FFFF;

/// Sum of the scores of `ss`.
pub open spec fn score_total(ss: Seq<Sample>) -> int
    decreases ss.len(),
{
    if ss.len() == 0 {
        0
    } else {
        score_total(ss.drop_last()) + ss.last().score
    }
}

/// Index of the first sample whose octets are `b`.
pub open spec fn find_in(ss: Seq<Sample>, b: Seq<u8>) -> Option<int>
    decreases ss.len(),
{
    if ss.len() == 0 {
        None
    } else {
        match find_in(ss.drop_last(), b) {
            Some(i) => Some(i),
            None => if ss.last().bytes@ == b {
                Some(ss.len() - 1)
            } else {
                None
            },
        }
    }
}

/// Scored samples of one width, no two with the same octets, with the sum and the
/// extrema of their scores, and the weighting and exploration policies of the reads.
pub struct MhdMemory {
    pub width: usize,
    pub total_score: u64,
    pub max_score: ScoreType,
    pub min_score: ScoreType,
    pub samples: Vec<Sample>,
    pub multiplier: DistanceMultiplier,
    pub exploration: Exploration,
}

impl MhdMemory {
    /// Every sample has the memory's width, no two share their octets, and the score
    /// summary fields hold the sum and the extrema of the scores (all zero when empty).
    pub open spec fn wf(&self) -> bool {
        &&& self.width <= MAX_WIDTH
        &&& self.samples@.len() <= MAX_SAMPLES
        &&& forall|i: int|
            0 <= i < self.samples@.len() ==> (#[trigger] self.samples@[i]).width == self.width
                && self.samples@[i].wf()
        &&& forall|i: int, j: int|
            0 <= i < self.samples@.len() && 0 <= j < self.samples@.len() && i != j
                ==> (#[trigger] self.samples@[i]).bytes@ != (#[trigger] self.samples@[j]).bytes@
        &&& self.total_score == score_total(self.samples@)
        &&& self.samples@.len() == 0 ==> self.min_score == 0 && self.max_score == 0
        &&& forall|i: int|
            0 <= i < self.samples@.len() ==> self.min_score <= (#[trigger] self.samples@[i]).score
                <= self.max_score
        &&& self.samples@.len() > 0 ==> exists|i: int|
            0 <= i < self.samples@.len() && (#[trigger] self.samples@[i]).score == self.min_score
        &&& self.samples@.len() > 0 ==> exists|i: int|
            0 <= i < self.samples@.len() && (#[trigger] self.samples@[i]).score == self.max_score
    }

    /// The memory holds a sample with the octets and the score of `s`.
    pub open spec fn stores(&self, s: &Sample) -> bool {
        exists|i: int|
            0 <= i < self.samples@.len() && (#[trigger] self.samples@[i]).bytes@ == s.bytes@
                && self.samples@[i].score == s.score
    }

    /// The average score, rounded down; zero when empty.
    pub open spec fn avg_spec(&self) -> int {
        if self.samples@.len() == 0 {
            0
        } else {
            (self.total_score as int) / (self.samples@.len() as int)
        }
    }

    /// The masked read: the mean of the scores weighted by `1 / (distance + 1)` (in
    /// units of `READ_ONE`), rounded down; zero when empty. The spread of each score
    /// around the memory's average cancels out in that mean, so the average itself
    /// does not appear.
    pub open spec fn masked_read_spec(&self, mask: Seq<u8>, query: Seq<u8>) -> int {
        if self.samples@.len() == 0 {
            0
        } else {
            read_score_sum(self.samples@, mask, query) / read_weight_sum(
                self.samples@,
                mask,
                query,
            )
        }
    }

    /// The (false, true) priorities of the probe's bit `index`.
    pub open spec fn priorities_spec(&self, mask: Seq<u8>, query: Seq<u8>, index: nat) -> (
        int,
        int,
    ) {
        let ss = self.samples@;
        let k = self.multiplier;
        let hf = side_hits(ss, mask, query, index, false);
        let ht = side_hits(ss, mask, query, index, true);
        let wf = side_weight(ss, mask, query, index, k, false);
        let wt = side_weight(ss, mask, query, index, k, true);
        let sf = side_score(ss, mask, query, index, k, false);
        let st = side_score(ss, mask, query, index, k, true);
        (
            priority_spec(hf, ht, sf, wf, wt, self.max_score as int, self.exploration),
            priority_spec(ht, hf, st, wt, wf, self.max_score as int, self.exploration),
        )
    }

    /// A probe fits the memory: mask and query have the samples' octet count.
    pub open spec fn probe_fits(&self, mask: Seq<u8>, query: Seq<u8>) -> bool {
        mask.len() == bytes_for(self.width as nat) && query.len() == mask.len()
    }

    pub fn default() -> (r: Self)
        ensures
            r.wf(),
            r.width == 0,
            r.samples@.len() == 0,
    {
        MhdMemory {
            width: 0,
            total_score: 0,
            max_score: ZERO_SCORE,
            min_score: ZERO_SCORE,
            samples: Vec::new(),
            multiplier: DistanceMultiplier::Ramp,
            exploration: Exploration::HitImbalance,
        }
    }

    /// An empty memory for samples of `width` bits.
    pub fn new(width: usize) -> (r: Self)
        requires
            width <= MAX_WIDTH,
        ensures
            r.wf(),
            r.width == width,
            r.samples@.len() == 0,
    {
        MhdMemory {
            width,
            total_score: 0,
            max_score: ZERO_SCORE,
            min_score: ZERO_SCORE,
            samples: Vec::new(),
            multiplier: DistanceMultiplier::Ramp,
            exploration: Exploration::HitImbalance,
        }
    }

    pub fn width(&self) -> (r: usize)
        ensures
            r == self.width,
    {
        self.width
    }

    pub fn num_samples(&self) -> (r: usize)
        ensures
            r == self.samples@.len(),
    {
        self.samples.len()
    }

    pub fn is_empty(&self) -> (r: bool)
        ensures
            r == (self.samples@.len() == 0),
    {
        self.samples.len() == 0
    }

    /// Drops every sample; the width stays.
    pub fn clear(&mut self)
        requires
            old(self).wf(),
        ensures
            final(self).wf(),
            final(self).width == old(self).width,
            final(self).multiplier == old(self).multiplier,
            final(self).exploration == old(self).exploration,
            final(self).samples@.len() == 0,
    {
        self.samples = Vec::new();
        self.total_score = 0;
        self.min_score = ZERO_SCORE;
        self.max_score = ZERO_SCORE;
    }

    /// The average score, rounded down; zero when the memory is empty.
    pub fn avg_score(&self) -> (r: ScoreType)
        requires
            self.wf(),
        ensures
            r == self.avg_spec(),
            self.samples@.len() > 0 ==> self.min_score <= r <= self.max_score,
    {
        if self.samples.len() == 0 {
            ZERO_SCORE
        } else {
            let n = self.samples.len() as u64;
            proof {
                lemma_total_bounds(self.samples@, self.min_score as int, self.max_score as int);
                let t = self.total_score as int;
                let nn = n as int;
                let (lo, hi) = (self.min_score as int, self.max_score as int);
                assert(lo <= t / nn <= hi) by (nonlinear_arith)
                    requires
                        nn > 0,
                        lo * nn <= t <= hi * nn,
                ;
            }
            (self.total_score / n) as ScoreType
        }
    }

    /// The stored sample whose octets equal the query's, if any.
    pub fn search(&self, query: &Sample) -> (r: Option<&Sample>)
        ensures
            match find_in(self.samples@, query.bytes@) {
                Some(i) => r matches Some(s) && *s == self.samples@[i],
                None => r is None,
            },
    {
        let mut i: usize = 0;
        while i < self.samples.len()
            invariant
                i <= self.samples@.len(),
                find_in(self.samples@.subrange(0, i as int), query.bytes@) is None,
            decreases self.samples@.len() - i,
        {
            proof {
                assert(self.samples@.subrange(0, i + 1).drop_last() =~= self.samples@.subrange(
                    0,
                    i as int,
                ));
            }
            if self.samples[i].same_bytes(query) {
                proof {
                    lemma_find_prefix(self.samples@, query.bytes@, i + 1);
                }
                return Some(&self.samples[i]);
            }
            i = i + 1;
        }
        proof {
            assert(self.samples@.subrange(0, i as int) =~= self.samples@);
        }
        None
    }

    /// Adds a sample unless one with the same octets is stored. Returns whether it was
    /// added. A sample of another width, or one whose octets are stored with another
    /// score, is refused and leaves the memory as it was.
    pub fn write_sample(&mut self, new_sample: &Sample) -> (r: Result<bool, MemoryError>)
        requires
            old(self).wf(),
            new_sample.wf(),
            old(self).samples@.len() < MAX_SAMPLES,
        ensures
            final(self).wf(),
            final(self).width == old(self).width,
            final(self).multiplier == old(self).multiplier,
            final(self).exploration == old(self).exploration,
            new_sample.width != old(self).width ==> r == Err::<bool, MemoryError>(
                MemoryError::WidthMismatch,
            ) && *final(self) == *old(self),
            new_sample.width == old(self).width ==> match find_in(
                old(self).samples@,
                new_sample.bytes@,
            ) {
                Some(i) => if old(self).samples@[i].score == new_sample.score {
                    r == Ok::<bool, MemoryError>(false) && *final(self) == *old(self)
                } else {
                    r == Err::<bool, MemoryError>(MemoryError::InconsistentScore) && *final(self)
                        == *old(self)
                },
                None => r == Ok::<bool, MemoryError>(true) && final(self).samples@.len()
                    == old(self).samples@.len() + 1 && final(self).samples@.drop_last()
                    == old(self).samples@ && final(self).samples@.last().bytes@
                    == new_sample.bytes@ && final(self).samples@.last().score == new_sample.score,
            },
            r is Ok ==> final(self).stores(new_sample),
            new_sample.width == old(self).width && old(self).stores(new_sample) ==> r == Ok::<
                bool,
                MemoryError,
            >(false) && *final(self) == *old(self),
    {
        proof {
            if old(self).stores(new_sample) {
                lemma_stored_is_found(*old(self), *new_sample);
            }
        }
        if new_sample.width != self.width {
            return Err(MemoryError::WidthMismatch);
        }
        match self.search(new_sample) {
            Some(elder) => {
                proof {
                    lemma_find_some(self.samples@, new_sample.bytes@);
                }
                if elder.score == new_sample.score {
                    Ok(false)
                } else {
                    Err(MemoryError::InconsistentScore)
                }
            },
            None => {
                proof {
                    lemma_find_none(self.samples@, new_sample.bytes@);
                    lemma_total_bounds(self.samples@, 0, 0xFFFF_FFFF);
                    let n = self.samples@.len() as int;
                    assert(n * 0xFFFF_FFFF + 0xFFFF_FFFF <= 0xFFFF_FFFF_FFFF_FFFF) by (
                    nonlinear_arith)
                        requires
                            n < 0xFFFF_FFFF,
                    ;
                }
                let ghost old_samples = self.samples@;
                let ghost old_min = self.min_score;
                let ghost old_max = self.max_score;
                let was_empty = self.samples.len() == 0;
                if was_empty {
                    self.max_score = new_sample.score;
                    self.min_score = new_sample.score;
                } else {
                    if self.max_score < new_sample.score {
                        self.max_score = new_sample.score;
                    }
                    if new_sample.score < self.min_score {
                        self.min_score = new_sample.score;
                    }
                }
                self.total_score = self.total_score + new_sample.score as u64;
                self.samples.push(new_sample.duplicate());
                proof {
                    let ss = self.samples@;
                    let n = old_samples.len() as int;
                    assert(ss.drop_last() =~= old_samples);
                    assert forall|i: int| 0 <= i < ss.len() implies (#[trigger] ss[i]).width
                        == self.width && ss[i].wf() by {
                        if i < n {
                            assert(ss[i] == old_samples[i]);
                        }
                    }
                    assert forall|i: int, j: int|
                        0 <= i < ss.len() && 0 <= j < ss.len() && i != j implies (
                    #[trigger] ss[i]).bytes@ != (#[trigger] ss[j]).bytes@ by {
                        if i < n && j < n {
                            assert(ss[i] == old_samples[i]);
                            assert(ss[j] == old_samples[j]);
                        } else if i < n {
                            assert(ss[i] == old_samples[i]);
                        } else {
                            assert(ss[j] == old_samples[j]);
                        }
                    }
                    assert forall|i: int| 0 <= i < ss.len() implies self.min_score <= (
                    #[trigger] ss[i]).score <= self.max_score by {
                        if i < n {
                            assert(ss[i] == old_samples[i]);
                        }
                    }
                    if was_empty {
                        assert(ss[0].score == self.min_score);
                        assert(ss[0].score == self.max_score);
                    } else {
                        if self.min_score == new_sample.score {
                            assert(ss[n].score == self.min_score);
                        } else {
                            let k = choose|k: int|
                                0 <= k < n && (#[trigger] old_samples[k]).score == old_min;
                            assert(ss[k] == old_samples[k]);
                            assert(ss[k].score == self.min_score);
                        }
                        if self.max_score == new_sample.score {
                            assert(ss[n].score == self.max_score);
                        } else {
                            let k = choose|k: int|
                                0 <= k < n && (#[trigger] old_samples[k]).score == old_max;
                            assert(ss[k] == old_samples[k]);
                            assert(ss[k].score == self.max_score);
                        }
                    }
                    assert(ss[n].bytes@ == new_sample.bytes@);
                }
                Ok(true)
            },
        }
    }
}

impl MhdMemory {
    /// The masked read of (mask, query): see `masked_read_spec`.
    pub fn probe_read(&self, mask: &[u8], query: &[u8]) -> (r: ScoreType)
        requires
            self.wf(),
            self.probe_fits(mask@, query@),
        ensures
            r == self.masked_read_spec(mask@, query@),
    {
        let n = self.samples.len();
        if n == 0 {
            return ZERO_SCORE;
        }
        let ghost ss = self.samples@;
        let mut score_sum: u128 = 0;
        let mut weight_sum: u128 = 0;
        let mut i: usize = 0;
        while i < n
            invariant
                self.wf(),
                self.probe_fits(mask@, query@),
                ss == self.samples@,
                n == ss.len(),
                i <= n,
                score_sum == read_score_sum(ss.subrange(0, i as int), mask@, query@),
                weight_sum == read_weight_sum(ss.subrange(0, i as int), mask@, query@),
                weight_sum <= i * READ_ONE,
                score_sum <= i * READ_ONE * 0xFFFF_FFFF,
            decreases n - i,
        {
            let s = &self.samples[i];
            proof {
                assert(ss[i as int].wf());
            }
            let d = distance(mask, query, s.bytes.as_slice());
            let w: u128 = READ_ONE / (d as u128 + 1);
            proof {
                assert(ss.subrange(0, i + 1).drop_last() =~= ss.subrange(0, i as int));
                let (ww, sc, ii) = (w as int, s.score as int, i as int);
                assert(ww * sc <= READ_ONE * 0xFFFF_FFFF) by (nonlinear_arith)
                    requires
                        0 <= ww <= READ_ONE,
                        0 <= sc <= 0xFFFF_FFFF,
                ;
                assert((ii + 1) * READ_ONE * 0xFFFF_FFFF == ii * READ_ONE * 0xFFFF_FFFF + READ_ONE
                    * 0xFFFF_FFFF) by (nonlinear_arith);
                assert((ii + 1) * READ_ONE * 0xFFFF_FFFF <= 0xFFFF_FFFF * READ_ONE * 0xFFFF_FFFF)
                    by (nonlinear_arith)
                    requires
                        ii + 1 <= 0xFFFF_FFFF,
                ;
            }
            score_sum = score_sum + w * (s.score as u128);
            weight_sum = weight_sum + w;
            i = i + 1;
        }
        proof {
            assert(ss.subrange(0, n as int) =~= ss);
            lemma_read_bounds(ss, mask@, query@, self.min_score as int, self.max_score as int);
            let (sc, w, lo, hi) = (
                score_sum as int,
                weight_sum as int,
                self.min_score as int,
                self.max_score as int,
            );
            assert(lo <= sc / w <= hi) by (nonlinear_arith)
                requires
                    w > 0,
                    lo * w <= sc <= hi * w,
            ;
        }
        (score_sum / weight_sum) as ScoreType
    }

    /// The UCB-style (false, true) priorities for setting bit `index` of the partial
    /// solution (mask, query): see `priorities_spec`.
    pub fn probe_priorities(&self, mask: &[u8], query: &[u8], index: usize) -> (r: (u64, u64))
        requires
            self.wf(),
            self.probe_fits(mask@, query@),
            index < self.width,
        ensures
            r.0 == self.priorities_spec(mask@, query@, index as nat).0,
            r.1 == self.priorities_spec(mask@, query@, index as nat).1,
            r.0 <= 0x4000_0000_0000_0000,
            r.1 <= 0x4000_0000_0000_0000,
    {
        let ghost ss = self.samples@;
        let ghost idx = index as nat;
        let kind = self.multiplier;
        let n = self.samples.len();
        proof {
            lemma_weight_bounds(mask@);
        }
        let t = weight(mask) / 2;
        let mut score_false: u128 = 0;
        let mut score_true: u128 = 0;
        let mut weight_false: u128 = 0;
        let mut weight_true: u128 = 0;
        let mut hits_false: u64 = 0;
        let mut hits_true: u64 = 0;
        let mut i: usize = 0;
        while i < n
            invariant
                self.wf(),
                self.probe_fits(mask@, query@),
                index < self.width,
                ss == self.samples@,
                n == ss.len(),
                idx == index as nat,
                kind == self.multiplier,
                t == threshold_spec(mask@),
                t < 0x8000_0000_0000_0000,
                i <= n,
                score_false == side_score(ss.subrange(0, i as int), mask@, query@, idx, kind, false),
                score_true == side_score(ss.subrange(0, i as int), mask@, query@, idx, kind, true),
                weight_false == side_weight(ss.subrange(0, i as int), mask@, query@, idx, kind, false),
                weight_true == side_weight(ss.subrange(0, i as int), mask@, query@, idx, kind, true),
                hits_false == side_hits(ss.subrange(0, i as int), mask@, query@, idx, false),
                hits_true == side_hits(ss.subrange(0, i as int), mask@, query@, idx, true),
                weight_false + weight_true <= i * WEIGHT_ONE,
                score_false + score_true <= i * WEIGHT_ONE * 0xFFFF_FFFF,
                hits_false + hits_true <= i,
            decreases n - i,
        {
            let s = &self.samples[i];
            proof {
                assert(ss[i as int].wf());
                assert(ss[i as int].width == self.width);
                assert(ss.subrange(0, i + 1).drop_last() =~= ss.subrange(0, i as int));
            }
            let d = distance(mask, query, s.bytes.as_slice());
            let w = multiplier_of(d, t, kind);
            let bit = s.get_bit(index);
            proof {
                let (ww, sc, ii) = (w as int, s.score as int, i as int);
                assert(ww * sc <= WEIGHT_ONE * 0xFFFF_FFFF) by (nonlinear_arith)
                    requires
                        0 <= ww <= WEIGHT_ONE,
                        0 <= sc <= 0xFFFF_FFFF,
                ;
                assert((ii + 1) * WEIGHT_ONE * 0xFFFF_FFFF == ii * WEIGHT_ONE * 0xFFFF_FFFF
                    + WEIGHT_ONE * 0xFFFF_FFFF) by (nonlinear_arith);
                assert((ii + 1) * WEIGHT_ONE * 0xFFFF_FFFF <= 0xFFFF_FFFF * WEIGHT_ONE * 0xFFFF_FFFF)
                    by (nonlinear_arith)
                    requires
                        ii + 1 <= 0xFFFF_FFFF,
                ;
            }
            proof {
                let sub = ss.subrange(0, i + 1);
                let pre = ss.subrange(0, i as int);
                assert(sub.drop_last() =~= pre);
                assert(sub.last() == ss[i as int]);
                assert(side_score(sub, mask@, query@, idx, kind, true) == side_score(pre, mask@, query@, idx, kind, true)
                    + side_contribution(ss[i as int], mask@, query@, idx, kind, true) * ss[i as int].score);
                assert(side_score(sub, mask@, query@, idx, kind, false) == side_score(pre, mask@, query@, idx, kind, false)
                    + side_contribution(ss[i as int], mask@, query@, idx, kind, false) * ss[i as int].score);
                assert(side_weight(sub, mask@, query@, idx, kind, true) == side_weight(pre, mask@, query@, idx, kind, true)
                    + side_contribution(ss[i as int], mask@, query@, idx, kind, true));
                assert(side_weight(sub, mask@, query@, idx, kind, false) == side_weight(pre, mask@, query@, idx, kind, false)
                    + side_contribution(ss[i as int], mask@, query@, idx, kind, false));
                assert(side_contribution(ss[i as int], mask@, query@, idx, kind, bit) == w);
                assert(side_contribution(ss[i as int], mask@, query@, idx, kind, !bit) == 0);
                let c_other = side_contribution(ss[i as int], mask@, query@, idx, kind, !bit);
                let sc = ss[i as int].score as int;
                assert(c_other * sc == 0) by (nonlinear_arith)
                    requires
                        c_other == 0,
                ;
            }
            if bit {
                score_true = score_true + (w as u128) * (s.score as u128);
                weight_true = weight_true + w as u128;
                if d == 0 {
                    hits_true = hits_true + 1;
                }
            } else {
                score_false = score_false + (w as u128) * (s.score as u128);
                weight_false = weight_false + w as u128;
                if d == 0 {
                    hits_false = hits_false + 1;
                }
            }
            i = i + 1;
        }
        proof {
            assert(ss.subrange(0, n as int) =~= ss);
            lemma_side_bounds(ss, mask@, query@, idx, kind, false, self.max_score as int);
            lemma_side_bounds(ss, mask@, query@, idx, kind, true, self.max_score as int);
            assert(n * WEIGHT_ONE <= 0x10_0000_0000_0000) by (nonlinear_arith)
                requires
                    n <= 0xFFFF_FFFF,
            ;
        }
        let p_false = priority(
            hits_false,
            hits_true,
            score_false,
            weight_false,
            weight_true,
            self.max_score,
            self.exploration,
        );
        let p_true = priority(
            hits_true,
            hits_false,
            score_true,
            weight_true,
            weight_false,
            self.max_score,
            self.exploration,
        );
        (p_false, p_true)
    }

    /// Chooses a value for bit `index` from the two priorities: by chance in
    /// proportion to them when `probabilistic`, otherwise the larger one (a fair coin
    /// decides a tie).
    pub fn probe_decide(&self, mask: &[u8], query: &[u8], index: usize, probabilistic: bool) -> (r: bool)
        requires
            self.wf(),
            self.probe_fits(mask@, query@),
            index < self.width,
        ensures
            ({
                let (pf, pt) = self.priorities_spec(mask@, query@, index as nat);
                &&& !probabilistic && pt > pf ==> r
                &&& !probabilistic && pf > pt ==> !r
                &&& probabilistic && pt == 0 && pf > 0 ==> !r
                &&& probabilistic && pf == 0 && pt > 0 ==> r
            }),
    {
        let (p_false, p_true) = self.probe_priorities(mask, query, index);
        let draw: u64 = if probabilistic && (p_false > 0 || p_true > 0) {
            random_below(p_false + p_true)
        } else {
            0
        };
        let coin = coin_flip();
        decide(p_false, p_true, probabilistic, draw, coin)
    }

    /// Whether (mask, query) fits the memory's width.
    pub fn fits_probe(&self, mask: &[u8], query: &[u8]) -> (r: bool)
        ensures
            r == self.probe_fits(mask@, query@),
    {
        mask.len() == Sample::bits_to_bytes(self.width) && query.len() == mask.len()
    }

    /// The masked read of (mask, query) (see `probe_read`); fails with `WidthMismatch`
    /// when the probe does not have the memory's width.
    pub fn masked_read(&self, mask: &[u8], query: &[u8]) -> (r: Result<ScoreType, MemoryError>)
        requires
            self.wf(),
        ensures
            !self.probe_fits(mask@, query@) ==> r == Err::<ScoreType, MemoryError>(
                MemoryError::WidthMismatch,
            ),
            self.probe_fits(mask@, query@) ==> (r matches Ok(v) && v == self.masked_read_spec(
                mask@,
                query@,
            )),
    {
        if !self.fits_probe(mask, query) {
            return Err(MemoryError::WidthMismatch);
        }
        Ok(self.probe_read(mask, query))
    }

    /// The two priorities of bit `index` (see `probe_priorities`); fails with
    /// `WidthMismatch` when the probe does not have the memory's width.
    pub fn read_2_priorities(&self, mask: &[u8], query: &[u8], index: usize) -> (r: Result<
        (u64, u64),
        MemoryError,
    >)
        requires
            self.wf(),
            index < self.width,
        ensures
            !self.probe_fits(mask@, query@) ==> r == Err::<(u64, u64), MemoryError>(
                MemoryError::WidthMismatch,
            ),
            self.probe_fits(mask@, query@) ==> (r matches Ok(p) && p.0 == self.priorities_spec(
                mask@,
                query@,
                index as nat,
            ).0 && p.1 == self.priorities_spec(mask@, query@, index as nat).1),
    {
        if !self.fits_probe(mask, query) {
            return Err(MemoryError::WidthMismatch);
        }
        Ok(self.probe_priorities(mask, query, index))
    }

    /// The choice for bit `index` (see `probe_decide`); fails with `WidthMismatch` when
    /// the probe does not have the memory's width.
    pub fn read_and_decide(&self, mask: &[u8], query: &[u8], index: usize, probabilistic: bool) -> (r:
        Result<bool, MemoryError>)
        requires
            self.wf(),
            index < self.width,
        ensures
            !self.probe_fits(mask@, query@) ==> r == Err::<bool, MemoryError>(
                MemoryError::WidthMismatch,
            ),
            self.probe_fits(mask@, query@) ==> r is Ok && ({
                let (pf, pt) = self.priorities_spec(mask@, query@, index as nat);
                let d = r->Ok_0;
                &&& !probabilistic && pt > pf ==> d
                &&& !probabilistic && pf > pt ==> !d
                &&& probabilistic && pt == 0 && pf > 0 ==> !d
                &&& probabilistic && pf == 0 && pt > 0 ==> d
            }),
    {
        if !self.fits_probe(mask, query) {
            return Err(MemoryError::WidthMismatch);
        }
        Ok(self.probe_decide(mask, query, index, probabilistic))
    }

    /// Writes a random sample of the memory's width.
    pub fn write_random_sample(&mut self) -> (r: Result<bool, MemoryError>)
        requires
            old(self).wf(),
            old(self).samples@.len() < MAX_SAMPLES,
        ensures
            final(self).wf(),
            final(self).width == old(self).width,
            final(self).multiplier == old(self).multiplier,
            final(self).exploration == old(self).exploration,
            final(self).samples@.len() <= old(self).samples@.len() + 1,
            old(self).samples@.len() == 0 ==> r == Ok::<bool, MemoryError>(true),
            r == Ok::<bool, MemoryError>(true) ==> final(self).samples@.len() == old(self).samples@.len()
                + 1 && final(self).samples@.drop_last() == old(self).samples@,
            !(r == Ok::<bool, MemoryError>(true)) ==> *final(self) == *old(self),
    {
        let s = Sample::random(self.width);
        self.write_sample(&s)
    }

    /// Writes `n` random samples, stopping at the first refused write.
    pub fn write_n_random_samples(&mut self, n: usize) -> (r: Result<(), MemoryError>)
        requires
            old(self).wf(),
            old(self).samples@.len() + n <= MAX_SAMPLES,
        ensures
            final(self).wf(),
            final(self).width == old(self).width,
            final(self).multiplier == old(self).multiplier,
            final(self).exploration == old(self).exploration,
            old(self).samples@.len() <= final(self).samples@.len() <= old(self).samples@.len() + n,
            final(self).samples@.subrange(0, old(self).samples@.len() as int) == old(self).samples@,
            old(self).samples@.len() == 0 && n > 0 ==> final(self).samples@.len() >= 1,
    {
        let ghost start = self.samples@;
        let mut k: usize = 0;
        proof {
            assert(start.subrange(0, start.len() as int) =~= start);
        }
        while k < n
            invariant
                self.wf(),
                k <= n,
                start == old(self).samples@,
                start.len() <= self.samples@.len() <= start.len() + k,
                self.samples@.subrange(0, start.len() as int) == start,
                start.len() == 0 && k > 0 ==> self.samples@.len() >= 1,
                old(self).samples@.len() + n <= MAX_SAMPLES,
                self.width == old(self).width,
                self.multiplier == old(self).multiplier,
                self.exploration == old(self).exploration,
            decreases n - k,
        {
            let ghost cur = self.samples@;
            let written = self.write_random_sample();
            proof {
                if written == Ok::<bool, MemoryError>(true) {
                    assert(self.samples@.subrange(0, start.len() as int) =~= cur.subrange(
                        0,
                        start.len() as int,
                    ));
                }
            }
            match written {
                Ok(_) => {},
                Err(e) => {
                    return Err(e);
                },
            }
            k = k + 1;
        }
        Ok(())
    }
}

/// With every score in `lo..=hi`, the weighted score sum of a masked read lies between
/// `lo` and `hi` times its weight sum, which is at least the number of samples.
pub proof fn lemma_read_bounds(ss: Seq<Sample>, mask: Seq<u8>, query: Seq<u8>, lo: int, hi: int)
    requires
        0 <= lo,
        fits_count(mask.len()),
        forall|i: int| 0 <= i < ss.len() ==> lo <= (#[trigger] ss[i]).score <= hi,
    ensures
        lo * read_weight_sum(ss, mask, query) <= read_score_sum(ss, mask, query) <= hi
            * read_weight_sum(ss, mask, query),
        read_weight_sum(ss, mask, query) >= ss.len(),
    decreases ss.len(),
{
    if ss.len() > 0 {
        let init = ss.drop_last();
        assert forall|i: int| 0 <= i < init.len() implies lo <= (#[trigger] init[i]).score <= hi by {
            assert(init[i] == ss[i]);
        }
        lemma_read_bounds(init, mask, query, lo, hi);
        let d = mhd(mask, query, ss.last().bytes@);
        lemma_weight_bounds(masked_xor(mask, query, ss.last().bytes@));
        let w = read_weight(d);
        assert(w >= 1) by (nonlinear_arith)
            requires
                w == READ_ONE as int / (d + 1),
                0 <= d,
                d + 1 <= READ_ONE,
        ;
        let sc = ss.last().score as int;
        assert(lo <= sc <= hi);
        assert(lo * w <= w * sc <= hi * w) by (nonlinear_arith)
            requires
                lo <= sc <= hi,
                w >= 0,
        ;
        let ws = read_weight_sum(init, mask, query);
        assert(lo * (ws + w) == lo * ws + lo * w && hi * (ws + w) == hi * ws + hi * w)
            by (nonlinear_arith);
    }
}

/// With every score at most `hi`, a side's weighted score sum is at most `hi` times its
/// weight sum; weights stay within `WEIGHT_ONE` per sample.
pub proof fn lemma_side_bounds(
    ss: Seq<Sample>,
    mask: Seq<u8>,
    query: Seq<u8>,
    index: nat,
    kind: DistanceMultiplier,
    side: bool,
    hi: int,
)
    requires
        0 <= hi,
        forall|i: int| 0 <= i < ss.len() ==> (#[trigger] ss[i]).score <= hi,
    ensures
        side_score(ss, mask, query, index, kind, side) <= hi * side_weight(
            ss,
            mask,
            query,
            index,
            kind,
            side,
        ),
        0 <= side_score(ss, mask, query, index, kind, side),
        0 <= side_weight(ss, mask, query, index, kind, side) <= ss.len() * WEIGHT_ONE,
    decreases ss.len(),
{
    if ss.len() > 0 {
        let init = ss.drop_last();
        assert forall|i: int| 0 <= i < init.len() implies (#[trigger] init[i]).score <= hi by {
            assert(init[i] == ss[i]);
        }
        lemma_side_bounds(init, mask, query, index, kind, side, hi);
        let c = side_contribution(ss.last(), mask, query, index, kind, side);
        lemma_weight_bounds(masked_xor(mask, query, ss.last().bytes@));
        lemma_multiplier_bounds(mhd(mask, query, ss.last().bytes@), threshold_spec(mask), kind);
        let sc = ss.last().score as int;
        assert(c * sc <= hi * c && 0 <= c * sc) by (nonlinear_arith)
            requires
                0 <= sc <= hi,
                c >= 0,
        ;
        let ws = side_weight(init, mask, query, index, kind, side);
        assert(hi * (ws + c) == hi * ws + hi * c) by (nonlinear_arith);
        assert((init.len() + 1) * WEIGHT_ONE == init.len() * WEIGHT_ONE + WEIGHT_ONE)
            by (nonlinear_arith);
    }
}

proof fn lemma_multiplier_bounds(d: int, t: int, kind: DistanceMultiplier)
    requires
        0 <= d,
    ensures
        0 <= multiplier_spec(d, t, kind) <= WEIGHT_ONE,
{
    let x = WEIGHT_ONE as int;
    assert(0 <= x / (d + 1) <= x) by (nonlinear_arith)
        requires
            x > 0,
            d >= 0,
    ;
    assert(0 <= x / (d + 1) / (d + 1) <= x / (d + 1)) by (nonlinear_arith)
        requires
            x / (d + 1) >= 0,
            d >= 0,
    ;
    lemma_ramp_search_le(d as nat, t as nat, WEIGHT_ONE as nat);
}

/// Weight of a sample at distance `d` in the masked read: `READ_ONE / (d + 1)`.
pub open spec fn read_weight(d: int) -> int {
    (READ_ONE as int) / (d + 1)
}

/// Sum of the read weights of `ss` against (mask, query).
pub open spec fn read_weight_sum(ss: Seq<Sample>, mask: Seq<u8>, query: Seq<u8>) -> int
    decreases ss.len(),
{
    if ss.len() == 0 {
        0
    } else {
        read_weight_sum(ss.drop_last(), mask, query) + read_weight(
            mhd(mask, query, ss.last().bytes@),
        )
    }
}

/// Sum of the weighted scores of `ss` against (mask, query).
pub open spec fn read_score_sum(ss: Seq<Sample>, mask: Seq<u8>, query: Seq<u8>) -> int
    decreases ss.len(),
{
    if ss.len() == 0 {
        0
    } else {
        read_score_sum(ss.drop_last(), mask, query) + read_weight(
            mhd(mask, query, ss.last().bytes@),
        ) * ss.last().score
    }
}

/// Weight of a sample at distance `d` for the priority read, given the threshold `t`.
pub open spec fn multiplier_spec(d: int, t: int, kind: DistanceMultiplier) -> int {
    if d == 0 {
        WEIGHT_ONE as int
    } else if d > t {
        0
    } else {
        match kind {
            DistanceMultiplier::Ramp => ramp_weight(d as nat, t as nat) as int,
            DistanceMultiplier::Reciprocal => (WEIGHT_ONE as int) / (d + 1),
            DistanceMultiplier::ReciprocalSquared => (WEIGHT_ONE as int) / (d + 1) / (d + 1),
        }
    }
}

/// `x^k` in fixed point (units of `WEIGHT_ONE`), each product rounded down.
pub open spec fn fp_pow(x: nat, k: nat) -> nat
    decreases k,
{
    if k == 0 {
        WEIGHT_ONE as nat
    } else {
        fp_pow(x, (k - 1) as nat) * x / (WEIGHT_ONE as nat)
    }
}

/// `1 - d/t` in units of `WEIGHT_ONE`, rounded down.
pub open spec fn ramp_target(d: nat, t: nat) -> nat {
    ((WEIGHT_ONE as nat) * ((t - d) as nat) / t) as nat
}

/// The largest `r <= top` whose fixed-point `(d + 1)`-th power stays within
/// `ramp_target(d, t)`.
pub open spec fn ramp_search(d: nat, t: nat, top: nat) -> nat
    decreases top,
{
    if top == 0 || fp_pow(top, d + 1) <= ramp_target(d, t) {
        top
    } else {
        ramp_search(d, t, (top - 1) as nat)
    }
}

/// `(1 - d/t)^(1/(d + 1))` in units of `WEIGHT_ONE`: the largest fixed-point value whose
/// fixed-point `(d + 1)`-th power stays within `1 - d/t`; zero from `d == t` on.
pub open spec fn ramp_weight(d: nat, t: nat) -> nat {
    if d >= t {
        0
    } else {
        ramp_search(d, t, WEIGHT_ONE as nat)
    }
}

/// Fixed-point powers grow with their base and stay within one.
pub proof fn lemma_fp_pow_monotone(x: nat, y: nat, k: nat)
    requires
        x <= y <= WEIGHT_ONE,
    ensures
        fp_pow(x, k) <= fp_pow(y, k) <= WEIGHT_ONE,
    decreases k,
{
    if k > 0 {
        lemma_fp_pow_monotone(x, y, (k - 1) as nat);
        let (a, b, w) = (fp_pow(x, (k - 1) as nat), fp_pow(y, (k - 1) as nat), WEIGHT_ONE as nat);
        assert(a * x / w <= b * y / w <= w) by (nonlinear_arith)
            requires
                a <= b <= w,
                x <= y <= w,
                w > 0,
        ;
    }
}

proof fn lemma_ramp_search_le(d: nat, t: nat, top: nat)
    ensures
        ramp_search(d, t, top) <= top,
    decreases top,
{
    if top > 0 {
        lemma_ramp_search_le(d, t, (top - 1) as nat);
    }
}

/// The search finds `lo` when `lo` is within the target and `lo + 1` is not.
proof fn lemma_ramp_search_finds(d: nat, t: nat, top: nat, lo: nat)
    requires
        lo <= top <= WEIGHT_ONE,
        fp_pow(lo, d + 1) <= ramp_target(d, t),
        lo < WEIGHT_ONE ==> fp_pow(lo + 1, d + 1) > ramp_target(d, t),
    ensures
        ramp_search(d, t, top) == lo,
    decreases top - lo,
{
    if top > lo {
        lemma_fp_pow_monotone(lo + 1, top, d + 1);
        lemma_ramp_search_finds(d, t, (top - 1) as nat, lo);
    }
}

/// `fp_pow(x, k)`.
fn fp_pow_exec(x: u64, k: u64) -> (r: u64)
    requires
        x <= WEIGHT_ONE,
    ensures
        r == fp_pow(x as nat, k as nat),
        r <= WEIGHT_ONE,
{
    let mut acc: u64 = WEIGHT_ONE;
    let mut j: u64 = 0;
    while j < k
        invariant
            x <= WEIGHT_ONE,
            j <= k,
            acc == fp_pow(x as nat, j as nat),
            acc <= WEIGHT_ONE,
        decreases k - j,
    {
        proof {
            lemma_fp_pow_monotone(x as nat, WEIGHT_ONE as nat, (j + 1) as nat);
            lemma_fp_pow_monotone(x as nat, WEIGHT_ONE as nat, j as nat);
            assert(acc * x <= WEIGHT_ONE * WEIGHT_ONE) by (nonlinear_arith)
                requires
                    acc <= WEIGHT_ONE,
                    x <= WEIGHT_ONE,
            ;
        }
        acc = acc * x / WEIGHT_ONE;
        j = j + 1;
    }
    acc
}

/// `ramp_weight(d, t)`, by binary search.
pub fn ramp_of(d: u64, t: u64) -> (r: u64)
    requires
        0 < d <= t < 0x8000_0000_0000_0000,
    ensures
        r == ramp_weight(d as nat, t as nat),
        r <= WEIGHT_ONE,
{
    if d == t {
        return 0;
    }
    let ghost k = (d + 1) as nat;
    let wide: u128 = (WEIGHT_ONE as u128) * ((t - d) as u128) / (t as u128);
    proof {
        let (w, a, tt) = (WEIGHT_ONE as int, (t - d) as int, t as int);
        assert(w * a / tt <= w) by (nonlinear_arith)
            requires
                0 <= a <= tt,
                tt > 0,
                w > 0,
        ;
    }
    let target = wide as u64;
    proof {
        assert(target == ramp_target(d as nat, t as nat));
        assert(fp_pow(0, k) == fp_pow(0, (k - 1) as nat) * 0 / (WEIGHT_ONE as nat));
    }
    let mut lo: u64 = 0;
    let mut hi: u64 = WEIGHT_ONE + 1;
    while hi - lo > 1
        invariant
            lo < hi <= WEIGHT_ONE + 1,
            0 < d <= t < 0x8000_0000_0000_0000,
            k == d + 1,
            target == ramp_target(d as nat, t as nat),
            fp_pow(lo as nat, k) <= target,
            hi <= WEIGHT_ONE ==> fp_pow(hi as nat, k) > target,
        decreases hi - lo,
    {
        let mid = lo + (hi - lo) / 2;
        if fp_pow_exec(mid, d + 1) <= target {
            lo = mid;
        } else {
            hi = mid;
        }
    }
    proof {
        lemma_ramp_search_finds(d as nat, t as nat, WEIGHT_ONE as nat, lo as nat);
    }
    lo
}

/// The proximity threshold of a probe: half the number of decided bits.
pub open spec fn threshold_spec(mask: Seq<u8>) -> int {
    weight_of(mask) / 2
}

/// The weight `s` contributes to `side` (the value of its bit `index`).
pub open spec fn side_contribution(
    s: Sample,
    mask: Seq<u8>,
    query: Seq<u8>,
    index: nat,
    kind: DistanceMultiplier,
    side: bool,
) -> int {
    if bit_at(s.bytes@, index) == side {
        multiplier_spec(mhd(mask, query, s.bytes@), threshold_spec(mask), kind)
    } else {
        0
    }
}

pub open spec fn side_weight(
    ss: Seq<Sample>,
    mask: Seq<u8>,
    query: Seq<u8>,
    index: nat,
    kind: DistanceMultiplier,
    side: bool,
) -> int
    decreases ss.len(),
{
    if ss.len() == 0 {
        0
    } else {
        side_weight(ss.drop_last(), mask, query, index, kind, side) + side_contribution(
            ss.last(),
            mask,
            query,
            index,
            kind,
            side,
        )
    }
}

pub open spec fn side_score(
    ss: Seq<Sample>,
    mask: Seq<u8>,
    query: Seq<u8>,
    index: nat,
    kind: DistanceMultiplier,
    side: bool,
) -> int
    decreases ss.len(),
{
    if ss.len() == 0 {
        0
    } else {
        side_score(ss.drop_last(), mask, query, index, kind, side) + side_contribution(
            ss.last(),
            mask,
            query,
            index,
            kind,
            side,
        ) * ss.last().score
    }
}

/// Number of samples at distance zero whose bit `index` is `side`.
pub open spec fn side_hits(ss: Seq<Sample>, mask: Seq<u8>, query: Seq<u8>, index: nat, side: bool) -> int
    decreases ss.len(),
{
    if ss.len() == 0 {
        0
    } else {
        side_hits(ss.drop_last(), mask, query, index, side) + if bit_at(ss.last().bytes@, index)
            == side && mhd(mask, query, ss.last().bytes@) == 0 {
            1int
        } else {
            0int
        }
    }
}

/// The priority of one side: a sentinel when it has no exact hit, otherwise its
/// weighted mean score relative to the best score, plus the exploration bonus.
pub open spec fn priority_spec(
    hits: int,
    other_hits: int,
    score: int,
    weight: int,
    other_weight: int,
    max_score: int,
    exploration: Exploration,
) -> int {
    if hits == 0 {
        max_score * (UNEXPLORED_FACTOR as int) * (PRIORITY_ONE as int)
    } else {
        let exploit = if max_score == 0 || weight == 0 {
            0
        } else {
            score * (PRIORITY_ONE as int) / (weight * max_score)
        };
        let explore = match exploration {
            Exploration::HitImbalance => if hits < other_hits {
                (other_hits - hits) * (PRIORITY_ONE as int) / other_hits
            } else {
                0
            },
            Exploration::WeightImbalance => if weight < other_weight {
                (other_weight - weight) * (PRIORITY_ONE as int) / other_weight
            } else {
                0
            },
            Exploration::Ucb1 => (isqrt_spec(ucb_radicand((hits + other_hits) as nat, hits as nat))
                * UCB_C_NUM) as int / (UCB_C_DEN as int),
        };
        exploit + explore
    }
}

/// The choice made from the two priorities: by a draw below their sum when
/// probabilistic (a coin when both are zero), otherwise the larger one (a coin on a tie).
pub open spec fn decide_spec(p_false: int, p_true: int, probabilistic: bool, draw: int, coin: bool) -> bool {
    if probabilistic {
        if p_false + p_true == 0 {
            coin
        } else {
            draw < p_true
        }
    } else if p_true > p_false {
        true
    } else if p_false > p_true {
        false
    } else {
        coin
    }
}

/// Picks a side from the two priorities, given a draw below their sum and a coin.
pub fn decide(p_false: u64, p_true: u64, probabilistic: bool, draw: u64, coin: bool) -> (r: bool)
    ensures
        r == decide_spec(p_false as int, p_true as int, probabilistic, draw as int, coin),
{
    if probabilistic {
        if p_false == 0 && p_true == 0 {
            coin
        } else {
            draw < p_true
        }
    } else if p_true > p_false {
        true
    } else if p_false > p_true {
        false
    } else {
        coin
    }
}

fn multiplier_of(d: u64, t: u64, kind: DistanceMultiplier) -> (r: u64)
    requires
        t < 0x8000_0000_0000_0000,
    ensures
        r == multiplier_spec(d as int, t as int, kind),
        r <= WEIGHT_ONE,
{
    if d == 0 {
        WEIGHT_ONE
    } else if d > t {
        0
    } else {
        match kind {
            DistanceMultiplier::Ramp => ramp_of(d, t),
            DistanceMultiplier::Reciprocal => WEIGHT_ONE / (d + 1),
            DistanceMultiplier::ReciprocalSquared => WEIGHT_ONE / (d + 1) / (d + 1),
        }
    }
}

/// The priority of one side, in units of `PRIORITY_ONE`.
pub fn priority(
    hits: u64,
    other_hits: u64,
    score: u128,
    weight: u128,
    other_weight: u128,
    max_score: ScoreType,
    exploration: Exploration,
) -> (r: u64)
    requires
        score <= max_score * weight,
        hits <= 0xFFFF_FFFF,
        other_hits <= 0xFFFF_FFFF,
        weight <= 0x10_0000_0000_0000,
        other_weight <= 0x10_0000_0000_0000,
    ensures
        r == priority_spec(
            hits as int,
            other_hits as int,
            score as int,
            weight as int,
            other_weight as int,
            max_score as int,
            exploration,
        ),
        r <= 0x4000_0000_0000_0000,
{
    if hits == 0 {
        return (max_score as u64) * UNEXPLORED_FACTOR * PRIORITY_ONE;
    }
    let exploit: u64 = if max_score == 0 || weight == 0 {
        0
    } else {
        proof {
            let (s, w, m, p) = (score as int, weight as int, max_score as int, PRIORITY_ONE as int);
            assert(0 < w * m <= 0x10_0000_0000_0000 * 0xFFFF_FFFF && m * w == w * m)
                by (nonlinear_arith)
                requires
                    0 < w <= 0x10_0000_0000_0000,
                    0 < m <= 0xFFFF_FFFF,
            ;
            assert(s * p <= m * w * p) by (nonlinear_arith)
                requires
                    s <= m * w,
                    p > 0,
                    0 <= s,
            ;
            assert(m * w * p / (w * m) == p) by (nonlinear_arith)
                requires
                    w > 0,
                    m > 0,
                    p > 0,
            ;
            assert(s * p / (w * m) <= m * w * p / (w * m)) by (nonlinear_arith)
                requires
                    s * p <= m * w * p,
                    w * m > 0,
                    s >= 0,
            ;
            assert(s * p <= 0x10_0000_0000_0000 * 0xFFFF_FFFF * 0x10_0000) by (nonlinear_arith)
                requires
                    s <= m * w,
                    m * w <= 0x10_0000_0000_0000 * 0xFFFF_FFFF,
                    p == 0x10_0000,
                    0 <= s,
            ;
        }
        let den = weight * (max_score as u128);
        (score * (PRIORITY_ONE as u128) / den) as u64
    };
    let explore: u64 = match exploration {
        Exploration::HitImbalance => if hits < other_hits {
            proof {
                let (h, o, p) = (hits as int, other_hits as int, PRIORITY_ONE as int);
                assert((o - h) * p / o <= p) by (nonlinear_arith)
                    requires
                        0 <= h < o,
                        p > 0,
                ;
                assert((o - h) * p <= 0xFFFF_FFFF_FFFF_FFFF * 0x10_0000) by (nonlinear_arith)
                    requires
                        0 <= h < o,
                        o <= 0xFFFF_FFFF_FFFF_FFFF,
                        p == 0x10_0000,
                ;
            }
            (((other_hits - hits) as u128) * (PRIORITY_ONE as u128) / (other_hits as u128)) as u64
        } else {
            0
        },
        Exploration::WeightImbalance => if weight < other_weight {
            proof {
                let (h, o, p) = (weight as int, other_weight as int, PRIORITY_ONE as int);
                assert((o - h) * p / o <= p) by (nonlinear_arith)
                    requires
                        0 <= h < o,
                        p > 0,
                ;
                assert((o - h) * p <= 0x10_0000_0000_0000 * 0x10_0000) by (nonlinear_arith)
                    requires
                        0 <= h < o,
                        o <= 0x10_0000_0000_0000,
                        p == 0x10_0000,
                ;
            }
            ((other_weight - weight) * (PRIORITY_ONE as u128) / other_weight) as u64
        } else {
            0
        },
        Exploration::Ucb1 => {
            let lg = floor_log2(hits + other_hits);
            proof {
                assert(lg * LN2_FIXED * PRIORITY_ONE <= 64 * 726_817 * 0x10_0000) by (nonlinear_arith)
                    requires
                        lg < 64,
                ;
            }
            let radicand = lg * LN2_FIXED * PRIORITY_ONE / hits;
            let root = isqrt(radicand);
            proof {
                lemma_isqrt_unique(radicand as nat, root as nat);
                assert(root <= 0x100_0000) by (nonlinear_arith)
                    requires
                        root * root <= radicand,
                        radicand <= 64 * 726_817 * 0x10_0000,
                ;
            }
            root * UCB_C_NUM / UCB_C_DEN
        },
    };
    exploit + explore
}

/// Where `find_in` finds an index, that sample has the octets sought.
pub proof fn lemma_find_some(ss: Seq<Sample>, b: Seq<u8>)
    ensures
        find_in(ss, b) matches Some(i) ==> 0 <= i < ss.len() && ss[i].bytes@ == b,
    decreases ss.len(),
{
    if ss.len() > 0 {
        lemma_find_some(ss.drop_last(), b);
    }
}

/// Where `find_in` finds nothing, no sample has the octets sought.
pub proof fn lemma_find_none(ss: Seq<Sample>, b: Seq<u8>)
    ensures
        find_in(ss, b) is None ==> forall|i: int| 0 <= i < ss.len() ==> (#[trigger] ss[i]).bytes@
            != b,
    decreases ss.len(),
{
    if ss.len() > 0 {
        lemma_find_none(ss.drop_last(), b);
        if find_in(ss, b) is None {
            assert forall|i: int| 0 <= i < ss.len() implies (#[trigger] ss[i]).bytes@ != b by {
                if i < ss.len() - 1 {
                    assert(ss[i] == ss.drop_last()[i]);
                }
            }
        }
    }
}

proof fn lemma_find_prefix(ss: Seq<Sample>, b: Seq<u8>, k: int)
    requires
        0 < k <= ss.len(),
        find_in(ss.subrange(0, k - 1), b) is None,
        ss[k - 1].bytes@ == b,
    ensures
        find_in(ss, b) == Some(k - 1),
    decreases ss.len(),
{
    assert(ss.subrange(0, k).drop_last() =~= ss.subrange(0, k - 1));
    if k < ss.len() {
        assert(ss.drop_last().subrange(0, k - 1) =~= ss.subrange(0, k - 1));
        lemma_find_prefix(ss.drop_last(), b, k);
    } else {
        assert(ss.subrange(0, k) =~= ss);
    }
}

/// With every score in `lo..=hi`, the sum lies between `lo` and `hi` times the count.
pub proof fn lemma_total_bounds(ss: Seq<Sample>, lo: int, hi: int)
    requires
        forall|i: int| 0 <= i < ss.len() ==> lo <= (#[trigger] ss[i]).score <= hi,
    ensures
        lo * ss.len() <= score_total(ss) <= hi * ss.len(),
    decreases ss.len(),
{
    if ss.len() > 0 {
        let init = ss.drop_last();
        assert forall|i: int| 0 <= i < init.len() implies lo <= (#[trigger] init[i]).score <= hi by {
            assert(init[i] == ss[i]);
        }
        lemma_total_bounds(init, lo, hi);
        assert(lo <= ss.last().score <= hi);
        let n = init.len() as int;
        assert(lo * (n + 1) == lo * n + lo) by (nonlinear_arith);
        assert(hi * (n + 1) == hi * n + hi) by (nonlinear_arith);
    }
}

/// A stored sample is found by its octets, with its score.
pub proof fn lemma_stored_is_found(m: MhdMemory, s: Sample)
    requires
        m.wf(),
        m.stores(&s),
    ensures
        find_in(m.samples@, s.bytes@) matches Some(i) && m.samples@[i].bytes@ == s.bytes@
            && m.samples@[i].score == s.score,
{
    lemma_find_some(m.samples@, s.bytes@);
    lemma_find_none(m.samples@, s.bytes@);
    let k = choose|k: int|
        0 <= k < m.samples@.len() && (#[trigger] m.samples@[k]).bytes@ == s.bytes@
            && m.samples@[k].score == s.score;
    if let Some(i) = find_in(m.samples@, s.bytes@) {
        if i != k {
            assert(m.samples@[i].bytes@ != m.samples@[k].bytes@);
        }
    }
}


proof fn lemma_zero_mask_sums(ss: Seq<Sample>, mask: Seq<u8>, query: Seq<u8>)
    requires
        forall|i: int| 0 <= i < mask.len() ==> mask[i] == 0u8,
    ensures
        read_weight_sum(ss, mask, query) == READ_ONE * ss.len(),
        read_score_sum(ss, mask, query) == READ_ONE * score_total(ss),
    decreases ss.len(),
{
    if ss.len() > 0 {
        lemma_zero_mask_sums(ss.drop_last(), mask, query);
        crate::distance::lemma_zero_mask(mask, query, ss.last().bytes@);
        let (n, t) = (ss.drop_last().len() as int, score_total(ss.drop_last()));
        assert(READ_ONE * (n + 1) == READ_ONE * n + READ_ONE) by (nonlinear_arith);
        assert(READ_ONE * (t + ss.last().score) == READ_ONE * t + READ_ONE * ss.last().score)
            by (nonlinear_arith);
    }
}

/// Under an all-zero mask every sample is at distance zero, so all weigh the same and
/// the masked read is the average score.
pub proof fn lemma_zero_mask_reads_average(m: MhdMemory, mask: Seq<u8>, query: Seq<u8>)
    requires
        m.wf(),
        m.probe_fits(mask, query),
        forall|i: int| 0 <= i < mask.len() ==> mask[i] == 0u8,
    ensures
        m.masked_read_spec(mask, query) == m.avg_spec(),
{
    if m.samples@.len() > 0 {
        lemma_zero_mask_sums(m.samples@, mask, query);
        lemma_total_bounds(m.samples@, 0, 0xFFFF_FFFF);
        vstd::arithmetic::div_mod::lemma_div_multiples_vanish_quotient(
            READ_ONE as int,
            score_total(m.samples@),
            m.samples@.len() as int,
        );
    }
}

/// In a non-empty memory the average and every masked read lie between the lowest
/// and the highest stored score.
pub proof fn lemma_reads_within_extrema(m: MhdMemory, mask: Seq<u8>, query: Seq<u8>)
    requires
        m.wf(),
        m.probe_fits(mask, query),
        m.samples@.len() > 0,
    ensures
        m.min_score <= m.avg_spec() <= m.max_score,
        m.min_score <= m.masked_read_spec(mask, query) <= m.max_score,
{
    lemma_total_bounds(m.samples@, m.min_score as int, m.max_score as int);
    lemma_read_bounds(m.samples@, mask, query, m.min_score as int, m.max_score as int);
    let (t, n, lo, hi) = (
        m.total_score as int,
        m.samples@.len() as int,
        m.min_score as int,
        m.max_score as int,
    );
    assert(lo <= t / n <= hi) by (nonlinear_arith)
        requires
            n > 0,
            lo * n <= t <= hi * n,
    ;
    let (sc, w) = (read_score_sum(m.samples@, mask, query), read_weight_sum(m.samples@, mask, query));
    assert(lo <= sc / w <= hi) by (nonlinear_arith)
        requires
            w > 0,
            lo * w <= sc <= hi * w,
    ;
}

} // verus!
