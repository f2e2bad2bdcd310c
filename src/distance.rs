//! Population count and the Masked Hamming Distance (MHD) kernel.
use vstd::prelude::*;

verus! {

/// Number of one bits in an octet.
pub open spec fn pop8(b: u8) -> int {
    (b & 1u8) + ((b >> 1u8) & 1u8) + ((b >> 2u8) & 1u8) + ((b >> 3u8) & 1u8) + ((b >> 4u8) & 1u8)
        + ((b >> 5u8) & 1u8) + ((b >> 6u8) & 1u8) + ((b >> 7u8) & 1u8)
}

/// Eight octets packed into a word, the first one lowest.
spec fn pack8(z0: u8, z1: u8, z2: u8, z3: u8, z4: u8, z5: u8, z6: u8, z7: u8) -> u64 {
    (z0 as u64) | ((z1 as u64) << 8u64) | ((z2 as u64) << 16u64) | ((z3 as u64) << 24u64) | ((
    z4 as u64) << 32u64) | ((z5 as u64) << 40u64) | ((z6 as u64) << 48u64) | ((z7 as u64)
        << 56u64)
}

/// First tree-merge step: each pair of bits holds its own count of ones.
spec fn tree_merge1(w: u64) -> u64 {
    (w - ((w >> 1u64) & 0x5555555555555555u64)) as u64
}

/// Second step: each nibble holds its count.
spec fn tree_merge2(c: u64) -> u64 {
    ((c & 0x3333333333333333u64) + ((c >> 2u64) & 0x3333333333333333u64)) as u64
}

/// Third step: each octet holds its count.
spec fn tree_merge4(c: u64) -> u64 {
    ((c + (c >> 4u64)) as u64) & 0x0F0F0F0F0F0F0F0Fu64
}

/// Adding the octet counts: neighbouring octets, then halves of 16 and 32 bits.
spec fn fold8(c: u64) -> u64 {
    (c + (c >> 8u64)) as u64
}

spec fn fold16(c: u64) -> u64 {
    (c + (c >> 16u64)) as u64
}

spec fn fold32(c: u64) -> u64 {
    (c + (c >> 32u64)) as u64
}

/// The sum of the eight octet counts of `c`.
spec fn fold_bytes(c: u64) -> u64 {
    fold32(fold16(fold8(c))) & 0x7Fu64
}

/// The tree-merge population count of one octet.
spec fn byte_tree_pop(b: u8) -> u8 {
    let c1 = (b - ((b >> 1u8) & 0x55u8)) as u8;
    let c2 = ((c1 & 0x33u8) + ((c1 >> 2u8) & 0x33u8)) as u8;
    ((c2 + (c2 >> 4u8)) as u8) & 0x0Fu8
}

proof fn lemma_byte_tree_pop(b: u8)
    by (bit_vector)
    ensures
        byte_tree_pop(b) == pop8(b),
        byte_tree_pop(b) <= 8,
{
}

proof fn lemma_lanes(z0: u8, z1: u8, z2: u8, z3: u8, z4: u8, z5: u8, z6: u8, z7: u8)
    by (bit_vector)
    ensures
        tree_merge4(tree_merge2(tree_merge1(pack8(z0, z1, z2, z3, z4, z5, z6, z7)))) == pack8(
            byte_tree_pop(z0),
            byte_tree_pop(z1),
            byte_tree_pop(z2),
            byte_tree_pop(z3),
            byte_tree_pop(z4),
            byte_tree_pop(z5),
            byte_tree_pop(z6),
            byte_tree_pop(z7),
        ),
{
}

proof fn lemma_merge_no_overflow(w: u64)
    by (bit_vector)
    ensures
        ((w >> 1u64) & 0x5555555555555555u64) <= w,
        (tree_merge1(w) & 0x3333333333333333u64) + ((tree_merge1(w) >> 2u64)
            & 0x3333333333333333u64) <= 0xFFFF_FFFF_FFFF_FFFFu64,
        tree_merge2(tree_merge1(w)) + (tree_merge2(tree_merge1(w)) >> 4u64)
            <= 0xFFFF_FFFF_FFFF_FFFFu64,
{
}

proof fn lemma_fold(p0: u8, p1: u8, p2: u8, p3: u8, p4: u8, p5: u8, p6: u8, p7: u8)
    by (bit_vector)
    requires
        p0 <= 8 && p1 <= 8 && p2 <= 8 && p3 <= 8 && p4 <= 8 && p5 <= 8 && p6 <= 8 && p7 <= 8,
    ensures
        fold_bytes(pack8(p0, p1, p2, p3, p4, p5, p6, p7)) == p0 + p1 + p2 + p3 + p4 + p5 + p6 + p7,
        pack8(p0, p1, p2, p3, p4, p5, p6, p7) + (pack8(p0, p1, p2, p3, p4, p5, p6, p7) >> 8u64)
            <= 0xFFFF_FFFF_FFFF_FFFFu64,
        fold8(pack8(p0, p1, p2, p3, p4, p5, p6, p7)) + (fold8(pack8(p0, p1, p2, p3, p4, p5, p6, p7))
            >> 16u64) <= 0xFFFF_FFFF_FFFF_FFFFu64,
        fold16(fold8(pack8(p0, p1, p2, p3, p4, p5, p6, p7))) + (fold16(
            fold8(pack8(p0, p1, p2, p3, p4, p5, p6, p7)),
        ) >> 32u64) <= 0xFFFF_FFFF_FFFF_FFFFu64,
{
}

/// Number of one bits in a buffer.
pub open spec fn weight_of(s: Seq<u8>) -> int
    decreases s.len(),
{
    if s.len() == 0 {
        0
    } else {
        weight_of(s.drop_last()) + pop8(s.last())
    }
}

/// `mask AND (a XOR b)`, octet by octet.
pub open spec fn masked_xor(mask: Seq<u8>, a: Seq<u8>, b: Seq<u8>) -> Seq<u8> {
    Seq::new(mask.len(), |i: int| mask[i] & (a[i] ^ b[i]))
}

/// `a XOR b`, octet by octet.
pub open spec fn xor_of(a: Seq<u8>, b: Seq<u8>) -> Seq<u8> {
    Seq::new(a.len(), |i: int| a[i] ^ b[i])
}

/// The masked Hamming distance: the number of positions where `a` and `b` differ
/// and `mask` holds a one.
pub open spec fn mhd(mask: Seq<u8>, a: Seq<u8>, b: Seq<u8>) -> int {
    weight_of(masked_xor(mask, a, b))
}

/// A buffer of `len` octets whose first `n` bits are one and all others zero.
pub open spec fn prefix_mask(n: nat, len: nat) -> Seq<u8> {
    Seq::new(
        len,
        |i: int|
            if i < n / 8 {
                0xFFu8
            } else if i == n / 8 {
                ((0xFF00u16 >> ((n % 8) as u16)) & 0xFFu16) as u8
            } else {
                0u8
            },
    )
}

/// Buffers up to this length have a bit count that fits in a `u64`.
pub open spec fn fits_count(len: nat) -> bool {
    len < 0x2000_0000_0000_0000
}

pub proof fn lemma_pop8_bounds(b: u8)
    ensures
        0 <= pop8(b) <= 8,
{
    assert(0 <= pop8(b) <= 8) by (bit_vector);
}

pub proof fn lemma_weight_bounds(s: Seq<u8>)
    ensures
        0 <= weight_of(s) <= 8 * s.len(),
    decreases s.len(),
{
    if s.len() > 0 {
        lemma_weight_bounds(s.drop_last());
        lemma_pop8_bounds(s.last());
    }
}

/// Counting a buffer in two parts gives the count of the whole.
pub proof fn lemma_weight_split(s: Seq<u8>, k: int)
    requires
        0 <= k <= s.len(),
    ensures
        weight_of(s) == weight_of(s.subrange(0, k)) + weight_of(s.subrange(k, s.len() as int)),
    decreases s.len(),
{
    if k == s.len() {
        assert(s.subrange(0, k) =~= s);
        assert(s.subrange(k, s.len() as int).len() == 0);
    } else {
        lemma_weight_split(s.drop_last(), k);
        assert(s.drop_last().subrange(0, k) =~= s.subrange(0, k));
        let t = s.subrange(k, s.len() as int);
        assert(t.drop_last() =~= s.drop_last().subrange(k, s.len() - 1));
        assert(t.last() == s.last());
    }
}

proof fn lemma_weight_push(s: Seq<u8>, i: int)
    requires
        0 <= i < s.len(),
    ensures
        weight_of(s.subrange(0, i + 1)) == weight_of(s.subrange(0, i)) + pop8(s[i]),
{
    assert(s.subrange(0, i + 1).drop_last() =~= s.subrange(0, i));
}

/// A run `[lo, hi)` counted as its prefix `[lo, mid)` plus `[mid, hi)`.
proof fn lemma_range_join(s: Seq<u8>, lo: int, mid: int, hi: int)
    requires
        0 <= lo <= mid <= hi <= s.len(),
    ensures
        weight_of(s.subrange(lo, hi)) == weight_of(s.subrange(lo, mid)) + weight_of(
            s.subrange(mid, hi),
        ),
{
    let t = s.subrange(lo, hi);
    lemma_weight_split(t, mid - lo);
    assert(t.subrange(0, mid - lo) =~= s.subrange(lo, mid));
    assert(t.subrange(mid - lo, t.len() as int) =~= s.subrange(mid, hi));
}

proof fn lemma_all_zero(s: Seq<u8>)
    requires
        forall|i: int| 0 <= i < s.len() ==> s[i] == 0,
    ensures
        weight_of(s) == 0,
    decreases s.len(),
{
    if s.len() > 0 {
        lemma_all_zero(s.drop_last());
        assert(pop8(0u8) == 0) by (bit_vector);
    }
}

/// Number of one bits in an octet, by tree merging.
pub fn byte_weight(b: u8) -> (r: u8)
    ensures
        r as int == pop8(b),
        r <= 8,
{
    proof {
        lemma_byte_tree_pop(b);
        assert(((b >> 1u8) & 0x55u8) <= b) by (bit_vector);
        let d1 = (b - ((b >> 1u8) & 0x55u8)) as u8;
        assert((d1 & 0x33u8) + ((d1 >> 2u8) & 0x33u8) <= 255) by (bit_vector);
        let d2 = ((d1 & 0x33u8) + ((d1 >> 2u8) & 0x33u8)) as u8;
        assert(d2 + (d2 >> 4u8) <= 255) by (bit_vector)
            requires
                d2 == ((d1 & 0x33u8) + ((d1 >> 2u8) & 0x33u8)) as u8,
                d1 == (b - ((b >> 1u8) & 0x55u8)) as u8,
        ;
    }
    let c1: u8 = b - ((b >> 1u8) & 0x55u8);
    let c2: u8 = (c1 & 0x33u8) + ((c1 >> 2u8) & 0x33u8);
    let c4: u8 = (c2 + (c2 >> 4u8)) & 0x0Fu8;
    c4
}


/// Number of one bits in eight octets, counted as one packed word by tree merging.
fn packed_weight(z0: u8, z1: u8, z2: u8, z3: u8, z4: u8, z5: u8, z6: u8, z7: u8) -> (r: u64)
    ensures
        r == pop8(z0) + pop8(z1) + pop8(z2) + pop8(z3) + pop8(z4) + pop8(z5) + pop8(z6) + pop8(z7),
{
    let w: u64 = (z0 as u64) | ((z1 as u64) << 8u64) | ((z2 as u64) << 16u64) | ((z3 as u64)
        << 24u64) | ((z4 as u64) << 32u64) | ((z5 as u64) << 40u64) | ((z6 as u64) << 48u64) | ((
    z7 as u64) << 56u64);
    proof {
        lemma_merge_no_overflow(w);
        lemma_lanes(z0, z1, z2, z3, z4, z5, z6, z7);
        lemma_byte_tree_pop(z0);
        lemma_byte_tree_pop(z1);
        lemma_byte_tree_pop(z2);
        lemma_byte_tree_pop(z3);
        lemma_byte_tree_pop(z4);
        lemma_byte_tree_pop(z5);
        lemma_byte_tree_pop(z6);
        lemma_byte_tree_pop(z7);
        lemma_fold(
            byte_tree_pop(z0),
            byte_tree_pop(z1),
            byte_tree_pop(z2),
            byte_tree_pop(z3),
            byte_tree_pop(z4),
            byte_tree_pop(z5),
            byte_tree_pop(z6),
            byte_tree_pop(z7),
        );
    }
    let c1: u64 = w - ((w >> 1u64) & 0x5555555555555555u64);
    let c2: u64 = (c1 & 0x3333333333333333u64) + ((c1 >> 2u64) & 0x3333333333333333u64);
    let c4: u64 = (c2 + (c2 >> 4u64)) & 0x0F0F0F0F0F0F0F0Fu64;
    let c8: u64 = c4 + (c4 >> 8u64);
    let c16: u64 = c8 + (c8 >> 16u64);
    let c32: u64 = c16 + (c16 >> 32u64);
    c32 & 0x7Fu64
}

/// Counts the masked differing bits of octets `lo..hi`, one octet at a time.
fn count_range(mask: &[u8], x: &[u8], y: &[u8], lo: usize, hi: usize) -> (r: u64)
    requires
        mask@.len() == x@.len(),
        x@.len() == y@.len(),
        lo <= hi <= mask@.len(),
        fits_count(mask@.len()),
    ensures
        r == weight_of(masked_xor(mask@, x@, y@).subrange(lo as int, hi as int)),
{
    let ghost d = masked_xor(mask@, x@, y@);
    let mut count: u64 = 0;
    let mut i: usize = lo;
    while i < hi
        invariant
            lo <= i <= hi,
            hi <= mask@.len(),
            mask@.len() == x@.len(),
            x@.len() == y@.len(),
            fits_count(mask@.len()),
            d == masked_xor(mask@, x@, y@),
            count == weight_of(d.subrange(lo as int, i as int)),
        decreases hi - i,
    {
        let b = byte_weight(mask[i] & (x[i] ^ y[i]));
        proof {
            lemma_weight_bounds(d.subrange(lo as int, i as int));
            lemma_weight_push(d.subrange(lo as int, hi as int), i - lo);
            assert(d.subrange(lo as int, hi as int).subrange(0, i - lo + 1) =~= d.subrange(
                lo as int,
                i + 1,
            ));
            assert(d.subrange(lo as int, hi as int).subrange(0, i - lo) =~= d.subrange(
                lo as int,
                i as int,
            ));
        }
        count = count + b as u64;
        i = i + 1;
    }
    count
}

/// The masked Hamming distance of `x` and `y` under `mask`, one octet at a time.
pub fn naive(mask: &[u8], x: &[u8], y: &[u8]) -> (r: u64)
    requires
        mask@.len() == x@.len(),
        x@.len() == y@.len(),
        fits_count(mask@.len()),
    ensures
        r == mhd(mask@, x@, y@),
{
    let r = count_range(mask, x, y, 0, mask.len());
    proof {
        let d = masked_xor(mask@, x@, y@);
        assert(d.subrange(0, d.len() as int) =~= d);
    }
    r
}


/// Why a distance could not be computed on the fast path.
#[derive(Debug, Clone, Copy, PartialEq, Eq, PartialOrd, Ord, Hash, Structural)]
pub enum DistanceError {
    /// The mask and the two operands differ in length.
    ArgumentMismatch,
    /// The three buffers start at different offsets from a word boundary.
    AlignmentMismatch,
}

/// Width in octets of the words of the fast path.
pub const WORD_BYTES: usize = 8;

/// Octets before the first boundary of `word`-octet words, given a buffer's address;
/// a buffer too short to hold one whole word is all head.
pub open spec fn head_len(addr: nat, len: nat, word: nat) -> nat {
    let gap = ((word - addr % word) % (word as int)) as nat;
    if len < word + gap {
        len
    } else {
        gap
    }
}

fn head_of(addr: usize, len: usize, word: usize) -> (r: usize)
    requires
        0 < word <= 8,
    ensures
        r == head_len(addr as nat, len as nat, word as nat),
        r <= len,
{
    let gap: usize = (word - addr % word) % word;
    if len < word + gap {
        len
    } else {
        gap
    }
}

/// Relies on `<[u8]>::as_ptr`: the address where the buffer starts. Nothing is
/// assumed of its value.
#[verifier::external_body]
fn start_address(s: &[u8]) -> (r: usize) {
    s.as_ptr() as usize
}

/// Relies on `hamming::weight`: the number of one bits in `x`.
#[verifier::external_body]
fn hamming_weight(x: &[u8]) -> (r: u64)
    ensures
        r == weight_of(x@),
{
    hamming::weight(x)
}

/// Relies on `hamming::distance`: the number of one bits in `x XOR y`, for operands of
/// equal length (it panics otherwise).
#[verifier::external_body]
fn hamming_distance(x: &[u8], y: &[u8]) -> (r: u64)
    requires
        x@.len() == y@.len(),
    ensures
        r == weight_of(xor_of(x@, y@)),
{
    hamming::distance(x, y)
}

/// Number of one bits in `x`.
pub fn weight(x: &[u8]) -> (r: u64)
    ensures
        r == weight_of(x@),
{
    hamming_weight(x)
}

/// The masked Hamming distance computed word by word, for buffers that start at the
/// given addresses. The head before the first word boundary and the tail after the
/// last whole word are counted octet by octet. Fails when the lengths differ, or when
/// the three heads differ (the buffers cannot be aligned together).
pub fn distance_aligned(
    mask: &[u8],
    x: &[u8],
    y: &[u8],
    mask_addr: usize,
    x_addr: usize,
    y_addr: usize,
) -> (r: Result<u64, DistanceError>)
    requires
        fits_count(mask@.len()),
        fits_count(x@.len()),
        fits_count(y@.len()),
    ensures
        !(mask@.len() == x@.len() && x@.len() == y@.len()) ==> r == Err::<u64, DistanceError>(
            DistanceError::ArgumentMismatch,
        ),
        mask@.len() == x@.len() && x@.len() == y@.len() ==> {
            let n = mask@.len();
            let h = head_len(mask_addr as nat, n, 8);
            if h == head_len(x_addr as nat, n, 8) && h == head_len(y_addr as nat, n, 8) {
                r == Ok::<u64, DistanceError>(mhd(mask@, x@, y@) as u64)
            } else {
                r == Err::<u64, DistanceError>(DistanceError::AlignmentMismatch)
            }
        },
{
    if mask.len() != x.len() || x.len() != y.len() {
        return Err(DistanceError::ArgumentMismatch);
    }
    let n = mask.len();
    let h = head_of(mask_addr, n, WORD_BYTES);
    if h != head_of(x_addr, n, WORD_BYTES) || h != head_of(y_addr, n, WORD_BYTES) {
        return Err(DistanceError::AlignmentMismatch);
    }
    let ghost d = masked_xor(mask@, x@, y@);
    let words = (n - h) / WORD_BYTES;
    let mid_end = h + words * WORD_BYTES;
    let mut count = count_range(mask, x, y, 0, h);
    let mut k: usize = 0;
    while k < words
        invariant
            k <= words,
            h + words * 8 == mid_end,
            mid_end <= n,
            n == mask@.len(),
            mask@.len() == x@.len(),
            x@.len() == y@.len(),
            fits_count(n as nat),
            d == masked_xor(mask@, x@, y@),
            count == weight_of(d.subrange(0, (h + k * 8) as int)),
        decreases words - k,
    {
        let p = h + k * WORD_BYTES;
        let c = packed_weight(
            mask[p] & (x[p] ^ y[p]),
            mask[p + 1] & (x[p + 1] ^ y[p + 1]),
            mask[p + 2] & (x[p + 2] ^ y[p + 2]),
            mask[p + 3] & (x[p + 3] ^ y[p + 3]),
            mask[p + 4] & (x[p + 4] ^ y[p + 4]),
            mask[p + 5] & (x[p + 5] ^ y[p + 5]),
            mask[p + 6] & (x[p + 6] ^ y[p + 6]),
            mask[p + 7] & (x[p + 7] ^ y[p + 7]),
        );
        proof {
            lemma_weight_push(d, p as int);
            lemma_weight_push(d, p + 1);
            lemma_weight_push(d, p + 2);
            lemma_weight_push(d, p + 3);
            lemma_weight_push(d, p + 4);
            lemma_weight_push(d, p + 5);
            lemma_weight_push(d, p + 6);
            lemma_weight_push(d, p + 7);
            lemma_weight_bounds(d.subrange(0, p + 8));
        }
        count = count + c;
        k = k + 1;
    }
    let tail = count_range(mask, x, y, mid_end, n);
    proof {
        lemma_range_join(d, 0, mid_end as int, n as int);
        lemma_weight_bounds(d);
        assert(d.subrange(0, n as int) =~= d);
    }
    Ok(count + tail)
}

/// The masked Hamming distance on the fast path: fails with `ArgumentMismatch` when
/// the lengths differ, and may fail with `AlignmentMismatch` when the three buffers
/// do not share their offset from a word boundary; otherwise returns the distance.
pub fn distance_fast(mask: &[u8], x: &[u8], y: &[u8]) -> (r: Result<u64, DistanceError>)
    requires
        fits_count(mask@.len()),
        fits_count(x@.len()),
        fits_count(y@.len()),
    ensures
        !(mask@.len() == x@.len() && x@.len() == y@.len()) <==> r == Err::<u64, DistanceError>(
            DistanceError::ArgumentMismatch,
        ),
        r matches Ok(d) ==> d == mhd(mask@, x@, y@),
        mask@.len() == x@.len() && x@.len() == y@.len() && mask@.len() < 8 ==> r == Ok::<
            u64,
            DistanceError,
        >(mhd(mask@, x@, y@) as u64),
{
    let mask_addr = start_address(mask);
    let x_addr = start_address(x);
    let y_addr = start_address(y);
    proof {
        lemma_weight_bounds(masked_xor(mask@, x@, y@));
    }
    distance_aligned(mask, x, y, mask_addr, x_addr, y_addr)
}

/// The masked Hamming distance: word by word when the buffers can be aligned
/// together, otherwise octet by octet.
pub fn distance(mask: &[u8], x: &[u8], y: &[u8]) -> (r: u64)
    requires
        mask@.len() == x@.len(),
        x@.len() == y@.len(),
        fits_count(mask@.len()),
    ensures
        r == mhd(mask@, x@, y@),
{
    match distance_fast(mask, x, y) {
        Ok(d) => d,
        Err(_) => naive(mask, x, y),
    }
}


/// A buffer of `len` octets, all ones.
pub open spec fn ones(len: nat) -> Seq<u8> {
    Seq::new(len, |i: int| 0xFFu8)
}

/// A buffer is at distance zero from itself, whatever the mask.
pub proof fn lemma_distance_to_self(mask: Seq<u8>, a: Seq<u8>)
    requires
        mask.len() == a.len(),
    ensures
        mhd(mask, a, a) == 0,
{
    let d = masked_xor(mask, a, a);
    assert forall|i: int| 0 <= i < d.len() implies d[i] == 0 by {
        let (m, v) = (mask[i], a[i]);
        assert(m & (v ^ v) == 0) by (bit_vector);
    }
    lemma_all_zero(d);
}

/// Under the all-ones mask the masked distance is the plain Hamming distance.
pub proof fn lemma_full_mask(a: Seq<u8>, b: Seq<u8>)
    requires
        a.len() == b.len(),
    ensures
        mhd(ones(a.len()), a, b) == weight_of(xor_of(a, b)),
{
    assert forall|v: u8| 0xFFu8 & v == v by {
        assert(0xFFu8 & v == v) by (bit_vector);
    }
    assert(masked_xor(ones(a.len()), a, b) =~= xor_of(a, b));
}

proof fn lemma_tail_mask_bound(r: u8, v: u8)
    requires
        r < 8,
    ensures
        pop8(((0xFF00u16 >> (r as u16)) & 0xFFu16) as u8 & v) <= r,
{
    assert(pop8(((0xFF00u16 >> (r as u16)) & 0xFFu16) as u8 & v) <= r) by (bit_vector)
        requires
            r < 8,
    ;
}

/// The Hamming distance of `left` and `right` over their first `masked_bits` bits:
/// whole octets first, then the leading bits of the next octet.
pub fn truncated_distance(masked_bits: usize, left: &[u8], right: &[u8]) -> (r: usize)
    requires
        left@.len() == right@.len(),
        masked_bits <= 8 * left@.len(),
    ensures
        r == mhd(prefix_mask(masked_bits as nat, left@.len()), left@, right@),
{
    let num_mask_bytes = masked_bits / 8;
    let remainder_bits = masked_bits % 8;
    let ghost n = left@.len();
    let ghost pm = prefix_mask(masked_bits as nat, n);
    let ghost d = masked_xor(pm, left@, right@);
    let left_slice = &left[0..num_mask_bytes];
    let right_slice = &right[0..num_mask_bytes];
    let subtotal = hamming_distance(left_slice, right_slice);
    proof {
        assert forall|v: u8| 0xFFu8 & v == v by {
            assert(0xFFu8 & v == v) by (bit_vector);
        }
        assert(d.subrange(0, num_mask_bytes as int) =~= xor_of(left_slice@, right_slice@));
        lemma_weight_bounds(xor_of(left_slice@, right_slice@));
        lemma_weight_split(d, num_mask_bytes as int);
    }
    if remainder_bits == 0 {
        proof {
            let rest = d.subrange(num_mask_bytes as int, n as int);
            assert forall|i: int| 0 <= i < rest.len() implies rest[i] == 0 by {
                let v = left@[num_mask_bytes + i] ^ right@[num_mask_bytes + i];
                assert(((0xFF00u16 >> 0u16) & 0xFFu16) as u8 & v == 0) by (bit_vector);
                assert(0u8 & v == 0) by (bit_vector);
            }
            lemma_all_zero(rest);
        }
        return subtotal as usize;
    }
    let tail_mask: u8 = (#[verifier::truncate] (((0xFF00u16 >> (remainder_bits as u16))
        & 0xFFu16) as u8));
    let last = byte_weight(tail_mask & (left[num_mask_bytes] ^ right[num_mask_bytes]));
    proof {
        lemma_tail_mask_bound(remainder_bits as u8, left@[num_mask_bytes as int]
            ^ right@[num_mask_bytes as int]);
        let rest = d.subrange(num_mask_bytes as int, n as int);
        lemma_weight_split(rest, 1);
        let first = rest.subrange(0, 1);
        assert(first.drop_last().len() == 0);
        assert(weight_of(first.drop_last()) == 0);
        assert(first.last() == tail_mask & (left@[num_mask_bytes as int]
            ^ right@[num_mask_bytes as int]));
        assert(weight_of(first) == last);
        let after = rest.subrange(1, rest.len() as int);
        assert forall|i: int| 0 <= i < after.len() implies after[i] == 0 by {
            let v = left@[num_mask_bytes + 1 + i] ^ right@[num_mask_bytes + 1 + i];
            assert(0u8 & v == 0) by (bit_vector);
        }
        lemma_all_zero(after);
    }
    subtotal as usize + last as usize
}


/// Under an all-zero mask every distance is zero.
pub proof fn lemma_zero_mask(mask: Seq<u8>, a: Seq<u8>, b: Seq<u8>)
    requires
        forall|i: int| 0 <= i < mask.len() ==> mask[i] == 0u8,
    ensures
        mhd(mask, a, b) == 0,
{
    let d = masked_xor(mask, a, b);
    assert forall|i: int| 0 <= i < d.len() implies d[i] == 0 by {
        let v = a[i] ^ b[i];
        assert(0u8 & v == 0) by (bit_vector);
    }
    lemma_all_zero(d);
}


/// The little-endian 32-bit word made of the four octets of `s` from `p` on.
pub open spec fn le_word(s: Seq<u8>, p: int) -> u32 {
    (s[p] as u32) | ((s[p + 1] as u32) << 8u32) | ((s[p + 2] as u32) << 16u32) | ((s[p + 3] as u32)
        << 24u32)
}

/// `head`, `words` and `tail` are `x` split at the 4-octet boundaries of address `addr`:
/// the octets before the first boundary, the whole little-endian words after it, and
/// the octets left over.
pub open spec fn is_word_split(x: Seq<u8>, addr: nat, head: Seq<u8>, words: Seq<u32>, tail: Seq<u8>) -> bool {
    let h = head_len(addr, x.len(), 4);
    let m = (x.len() - h) / 4;
    &&& head == x.subrange(0, h as int)
    &&& words.len() == m
    &&& forall|k: int| 0 <= k < m ==> #[trigger] words[k] == le_word(x, h + 4 * k)
    &&& tail == x.subrange(h + 4 * m, x.len() as int)
}

/// Splits `x`, which starts at address `addr`, at 4-octet word boundaries.
pub fn align_to_at(x: &[u8], addr: usize) -> (r: (&[u8], Vec<u32>, &[u8]))
    ensures
        is_word_split(x@, addr as nat, r.0@, r.1@, r.2@),
{
    let n = x.len();
    let h = head_of(addr, n, 4);
    let m = (n - h) / 4;
    let mut words: Vec<u32> = Vec::new();
    let mut k: usize = 0;
    while k < m
        invariant
            n == x@.len(),
            h <= n,
            m == (n - h) / 4,
            k <= m,
            words@.len() == k,
            forall|j: int| 0 <= j < k ==> #[trigger] words@[j] == le_word(x@, h + 4 * j),
        decreases m - k,
    {
        let p = h + 4 * k;
        let w: u32 = (x[p] as u32) | ((x[p + 1] as u32) << 8u32) | ((x[p + 2] as u32) << 16u32) | ((
        x[p + 3] as u32) << 24u32);
        words.push(w);
        k = k + 1;
    }
    let head = &x[0..h];
    let tail = &x[h + 4 * m..n];
    (head, words, tail)
}

/// Splits `x` at the 4-octet word boundaries of the address where it starts.
pub fn align_to(x: &[u8]) -> (r: (&[u8], Vec<u32>, &[u8]))
    ensures
        exists|addr: usize| #[trigger] is_word_split(x@, addr as nat, r.0@, r.1@, r.2@),
{
    let addr = start_address(x);
    align_to_at(x, addr)
}

} // verus!
