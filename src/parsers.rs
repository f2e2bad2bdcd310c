//! Knapsack instance formats, parsed from the octets of their lines.
//!
//! `.dat`: one instance per line, `id n capacity w1 v1 ... wn vn` (whitespace
//! separated, `2n + 3` numbers). `.csv` (Pisinger): a name line, `n <int>`,
//! `c <int>`, `z <int>` (the known optimum), `time <float>`, then `n` lines
//! `index,profit,weight,solution_bit`, then a line of five dashes.
use vstd::prelude::*;

use crate::knapsack::Problem01Knapsack;
use crate::memory::MAX_WIDTH;
use crate::problem::prefix_sum;
use crate::sample::ScoreType;
use crate::subset_sum::ProblemSubsetSum;

verus! {

/// Why a record was refused.
#[derive(Debug, Clone, Copy, PartialEq, Eq, Structural)]
pub enum ParseError {
    /// The line holds no token (the end of the input).
    EmptyLine,
    /// A token is not a decimal number of at most 32 bits.
    BadNumber,
    /// The tokens are too few, or do not match the announced size.
    BadTokenCount,
    /// An expected key or separator line is missing.
    BadLayout,
    /// The weights or values add up beyond a score, or there are too many items.
    TooLarge,
}

/// ASCII whitespace; with `comma`, the comma separates too.
pub open spec fn is_sep(b: u8, comma: bool) -> bool {
    b == 32 || (9 <= b <= 13) || (comma && b == 44)
}

pub open spec fn is_digit(b: u8) -> bool {
    48 <= b <= 57
}

/// The numbers finished and the one being read after the first `i` octets of `line`;
/// `None` once a token holds something else than digits, or a number passes 32 bits.
pub open spec fn scan_prefix(line: Seq<u8>, i: nat, comma: bool) -> Option<(Seq<nat>, Option<nat>)>
    decreases i,
{
    if i == 0 {
        Some((Seq::empty(), None))
    } else {
        match scan_prefix(line, (i - 1) as nat, comma) {
            None => None,
            Some((done, current)) => {
                let b = line[i - 1];
                if is_sep(b, comma) {
                    match current {
                        Some(v) => Some((done.push(v), None)),
                        None => Some((done, None)),
                    }
                } else if is_digit(b) {
                    let v = match current {
                        Some(c) => c * 10 + (b - 48),
                        None => (b - 48) as int,
                    };
                    if v > ScoreType::MAX {
                        None
                    } else {
                        Some((done, Some(v as nat)))
                    }
                } else {
                    None
                }
            },
        }
    }
}

/// The numbers of a line of decimal tokens; `None` when a token is not one.
pub open spec fn numbers_of(line: Seq<u8>, comma: bool) -> Option<Seq<nat>> {
    match scan_prefix(line, line.len(), comma) {
        None => None,
        Some((done, current)) => match current {
            Some(v) => Some(done.push(v)),
            None => Some(done),
        },
    }
}

/// The decimal numbers of `line`, separated by whitespace (and commas with `comma`).
pub fn scan_numbers(line: &[u8], comma: bool) -> (r: Option<Vec<u32>>)
    ensures
        match numbers_of(line@, comma) {
            None => r is None,
            Some(ns) => r matches Some(v) && v@.len() == ns.len() && forall|k: int|
                0 <= k < ns.len() ==> v@[k] as nat == #[trigger] ns[k],
        },
{
    let mut done: Vec<u32> = Vec::new();
    let mut current: Option<u32> = None;
    let mut i: usize = 0;
    while i < line.len()
        invariant
            i <= line@.len(),
            scan_prefix(line@, i as nat, comma) matches Some((d, c)) && d.len() == done@.len()
                && (forall|k: int| 0 <= k < d.len() ==> done@[k] as nat == #[trigger] d[k]) && (
            match c {
                None => current is None,
                Some(cv) => current matches Some(x) && x as nat == cv,
            }),
        decreases line@.len() - i,
    {
        let b = line[i];
        let ghost prev = scan_prefix(line@, i as nat, comma);
        if b == 32 || (9 <= b && b <= 13) || (comma && b == 44) {
            match current {
                Some(v) => {
                    done.push(v);
                },
                None => {},
            }
            current = None;
        } else if 48 <= b && b <= 57 {
            let d = (b - 48) as u64;
            let v: u64 = match current {
                Some(c) => c as u64 * 10 + d,
                None => d,
            };
            if v > 0xFFFF_FFFF {
                proof {
                    assert(scan_prefix(line@, (i + 1) as nat, comma) is None);
                    lemma_scan_stays_none(line@, (i + 1) as nat, comma);
                }
                return None;
            }
            current = Some(v as u32);
        } else {
            proof {
                lemma_scan_stays_none(line@, (i + 1) as nat, comma);
            }
            return None;
        }
        i = i + 1;
    }
    match current {
        Some(v) => {
            done.push(v);
        },
        None => {},
    }
    Some(done)
}

/// Once the scan fails it stays failed.
pub proof fn lemma_scan_stays_none(line: Seq<u8>, i: nat, comma: bool)
    requires
        i <= line.len(),
        scan_prefix(line, i, comma) is None,
    ensures
        numbers_of(line, comma) is None,
    decreases line.len() - i,
{
    if i < line.len() {
        assert(scan_prefix(line, i + 1, comma) is None);
        lemma_scan_stays_none(line, i + 1, comma);
    }
}

/// The `.dat` record of `nums`: `id n capacity` then `n` (weight, value) pairs.
pub open spec fn dat_record_ok(nums: Seq<nat>) -> bool {
    &&& 7 <= nums.len()
    &&& nums.len() == 2 * nums[1] + 3
}

/// Weights (`first == 3`) or values (`first == 4`) of a `.dat` record.
pub open spec fn every_other(nums: Seq<nat>, first: int, n: nat) -> Seq<ScoreType> {
    Seq::new(n, |i: int| nums[first + 2 * i] as ScoreType)
}

/// The knapsack holds exactly the capacity, weights and values of `nums`.
pub open spec fn holds_dat_record(k: Problem01Knapsack, nums: Seq<nat>) -> bool {
    let n = nums[1];
    &&& k.basis.capacity == nums[2]
    &&& k.basis.weights@ == every_other(nums, 3, n)
    &&& k.values@ == every_other(nums, 4, n)
}

/// Parses one `.dat` line. Fails with `EmptyLine` on a line without tokens, with
/// `BadNumber` on a token that is not a number, with `BadTokenCount` unless there are
/// at least seven numbers and `2n + 3` of them, and with `TooLarge` when the weights or
/// the values add up beyond a score.
pub fn parse_dot_dat_line(line: &[u8]) -> (r: Result<Problem01Knapsack, ParseError>)
    ensures
        match numbers_of(line@, false) {
            None => r == Err::<Problem01Knapsack, ParseError>(ParseError::BadNumber),
            Some(nums) => if nums.len() == 0 {
                r == Err::<Problem01Knapsack, ParseError>(ParseError::EmptyLine)
            } else if !dat_record_ok(nums) {
                r == Err::<Problem01Knapsack, ParseError>(ParseError::BadTokenCount)
            } else {
                match r {
                    Ok(k) => k.instance_wf() && holds_dat_record(k, nums),
                    Err(e) => e == ParseError::TooLarge && !(nums[1] <= MAX_WIDTH && prefix_sum(
                        every_other(nums, 3, nums[1]),
                        nums[1],
                    ) <= ScoreType::MAX && prefix_sum(every_other(nums, 4, nums[1]), nums[1])
                        <= ScoreType::MAX),
                }
            },
        },
{
    let nums = match scan_numbers(line, false) {
        None => {
            return Err(ParseError::BadNumber);
        },
        Some(v) => v,
    };
    let ghost ns = numbers_of(line@, false)->Some_0;
    if nums.len() == 0 {
        return Err(ParseError::EmptyLine);
    }
    if nums.len() < 7 || nums.len() % 2 == 0 || (nums.len() - 3) / 2 != nums[1] as usize {
        return Err(ParseError::BadTokenCount);
    }
    let n = nums[1] as usize;
    if n > MAX_WIDTH {
        return Err(ParseError::TooLarge);
    }
    let mut weights: Vec<ScoreType> = Vec::new();
    let mut values: Vec<ScoreType> = Vec::new();
    let len = nums.len();
    let mut i: usize = 0;
    while i < n
        invariant
            len == nums@.len(),
            nums@.len() == 2 * n + 3,
            n == ns[1],
            ns.len() == nums@.len(),
            forall|k: int| 0 <= k < ns.len() ==> nums@[k] as nat == #[trigger] ns[k],
            i <= n,
            weights@ == every_other(ns, 3, i as nat),
            values@ == every_other(ns, 4, i as nat),
        decreases n - i,
    {
        weights.push(nums[3 + 2 * i]);
        values.push(nums[4 + 2 * i]);
        i = i + 1;
        proof {
            assert(weights@ =~= every_other(ns, 3, i as nat));
            assert(values@ =~= every_other(ns, 4, i as nat));
        }
    }
    let basis = ProblemSubsetSum { weights, capacity: nums[2] };
    let k = Problem01Knapsack { basis, values };
    if !sum_fits(&k.basis.weights) || !sum_fits(&k.values) {
        return Err(ParseError::TooLarge);
    }
    Ok(k)
}

/// Whether the entries of `v` add up within a score.
pub fn sum_fits(v: &Vec<ScoreType>) -> (r: bool)
    ensures
        r == (prefix_sum(v@, v@.len()) <= ScoreType::MAX),
{
    let mut sum: u64 = 0;
    let mut i: usize = 0;
    while i < v.len()
        invariant
            i <= v@.len(),
            sum == prefix_sum(v@, i as nat),
            sum <= ScoreType::MAX,
        decreases v@.len() - i,
    {
        sum = sum + v[i] as u64;
        if sum > 0xFFFF_FFFF {
            proof {
                crate::problem::lemma_prefix_sum_monotone(v@, (i + 1) as nat, v@.len());
            }
            return false;
        }
        i = i + 1;
    }
    true
}


/// `line` is `key`, a separator, then exactly one number: that number.
pub open spec fn keyed_value_spec(line: Seq<u8>, key: Seq<u8>) -> Option<nat> {
    if starts_with_key_spec(line, key) {
        match numbers_of(line.subrange(key.len() as int, line.len() as int), false) {
            Some(ns) => if ns.len() == 1 {
                Some(ns[0])
            } else {
                None
            },
            None => None,
        }
    } else {
        None
    }
}

/// `line` starts with `key` followed by a separator.
pub open spec fn starts_with_key_spec(line: Seq<u8>, key: Seq<u8>) -> bool {
    &&& key.len() < line.len()
    &&& line.subrange(0, key.len() as int) == key
    &&& is_sep(line[key.len() as int], false)
}

/// Five dashes, then separators only.
pub open spec fn is_dash_line(line: Seq<u8>) -> bool {
    &&& 5 <= line.len()
    &&& forall|i: int| 0 <= i < 5 ==> line[i] == 45u8
    &&& forall|i: int| 5 <= i < line.len() ==> is_sep(#[trigger] line[i], false)
}

/// Some octet of `line` is not a separator.
pub open spec fn has_token(line: Seq<u8>) -> bool {
    exists|i: int| 0 <= i < line.len() && !is_sep(#[trigger] line[i], false)
}

/// Row `k` of a record: `k + 1`, profit, weight, and a solution bit.
pub open spec fn row_ok(line: Seq<u8>, k: nat) -> bool {
    numbers_of(line, true) matches Some(ns) && ns.len() == 4 && ns[0] == k + 1
}

pub open spec fn row_field(line: Seq<u8>, f: int) -> ScoreType {
    numbers_of(line, true)->Some_0[f] as ScoreType
}

/// The item count, capacity and optimum that a well-formed `.csv` header announces.
pub open spec fn csv_header_values(ls: Seq<Vec<u8>>) -> Option<(nat, nat, nat)> {
    if 5 <= ls.len() && has_token(ls[0]@) && starts_with_key_spec(
        ls[4]@,
        seq![116u8, 105u8, 109u8, 101u8],
    ) {
        match (
            keyed_value_spec(ls[1]@, seq![110u8]),
            keyed_value_spec(ls[2]@, seq![99u8]),
            keyed_value_spec(ls[3]@, seq![122u8]),
        ) {
            (Some(n), Some(c), Some(z)) => Some((n, c, z)),
            _ => None,
        }
    } else {
        None
    }
}

/// After the header come `n` rows and the dash line.
pub open spec fn csv_rows_ok(ls: Seq<Vec<u8>>, n: nat) -> bool {
    &&& 6 + n <= ls.len()
    &&& forall|k: nat| k < n ==> #[trigger] row_ok(ls[5 + k as int]@, k)
    &&& is_dash_line(ls[5 + n as int]@)
}

/// Field `f` of each of the `n` rows.
pub open spec fn row_column(ls: Seq<Vec<u8>>, n: nat, f: int) -> Seq<ScoreType> {
    Seq::new(n, |k: int| row_field(ls[5 + k]@, f))
}

/// The value after `key` on `line`: see `keyed_value_spec`.
pub fn keyed_value(line: &[u8], key: &[u8]) -> (r: Option<u32>)
    ensures
        match keyed_value_spec(line@, key@) {
            Some(v) => r matches Some(x) && x as nat == v,
            None => r is None,
        },
{
    if !starts_with_key(line, key) {
        return None;
    }
    let rest = &line[key.len()..line.len()];
    proof {
        assert(rest@ == line@.subrange(key@.len() as int, line@.len() as int));
    }
    match scan_numbers(rest, false) {
        Some(ns) => if ns.len() == 1 {
            Some(ns[0])
        } else {
            None
        },
        None => None,
    }
}

pub fn starts_with_key(line: &[u8], key: &[u8]) -> (r: bool)
    ensures
        r == starts_with_key_spec(line@, key@),
{
    if key.len() >= line.len() {
        return false;
    }
    let mut i: usize = 0;
    while i < key.len()
        invariant
            key@.len() < line@.len(),
            i <= key@.len(),
            forall|j: int| 0 <= j < i ==> line@[j] == key@[j],
        decreases key@.len() - i,
    {
        if line[i] != key[i] {
            proof {
                assert(line@.subrange(0, key@.len() as int)[i as int] != key@[i as int]);
            }
            return false;
        }
        i = i + 1;
    }
    proof {
        assert(line@.subrange(0, key@.len() as int) =~= key@);
    }
    let b = line[key.len()];
    b == 32 || (9 <= b && b <= 13)
}

pub fn dash_line(line: &[u8]) -> (r: bool)
    ensures
        r == is_dash_line(line@),
{
    if line.len() < 5 {
        return false;
    }
    let mut i: usize = 0;
    while i < line.len()
        invariant
            5 <= line@.len(),
            i <= line@.len(),
            forall|j: int| 0 <= j < i && j < 5 ==> line@[j] == 45u8,
            forall|j: int| 5 <= j < i ==> is_sep(#[trigger] line@[j], false),
        decreases line@.len() - i,
    {
        let b = line[i];
        if i < 5 {
            if b != 45 {
                return false;
            }
        } else if !(b == 32 || (9 <= b && b <= 13)) {
            return false;
        }
        i = i + 1;
    }
    true
}

pub fn line_has_token(line: &[u8]) -> (r: bool)
    ensures
        r == has_token(line@),
{
    let mut i: usize = 0;
    while i < line.len()
        invariant
            i <= line@.len(),
            forall|j: int| 0 <= j < i ==> is_sep(#[trigger] line@[j], false),
        decreases line@.len() - i,
    {
        let b = line[i];
        if !(b == 32 || (9 <= b && b <= 13)) {
            return true;
        }
        i = i + 1;
    }
    false
}

/// Parses one `.csv` record from its lines: the knapsack and the announced optimum.
/// Fails with `BadLayout` when the header, a row, or the dash line is malformed (or
/// lines are missing), and with `TooLarge` when the items are too many or their weights
/// or values add up beyond a score.
pub fn parse_dot_csv_record(lines: &Vec<Vec<u8>>) -> (r: Result<(Problem01Knapsack, ScoreType), ParseError>)
    ensures
        match csv_header_values(lines@) {
            None => r == Err::<(Problem01Knapsack, ScoreType), ParseError>(ParseError::BadLayout),
            Some((n, c, z)) => if !csv_rows_ok(lines@, n) {
                r == Err::<(Problem01Knapsack, ScoreType), ParseError>(ParseError::BadLayout)
            } else if !(n <= MAX_WIDTH && prefix_sum(row_column(lines@, n, 2), n) <= ScoreType::MAX
                && prefix_sum(row_column(lines@, n, 1), n) <= ScoreType::MAX) {
                r == Err::<(Problem01Knapsack, ScoreType), ParseError>(ParseError::TooLarge)
            } else {
                r matches Ok((k, zz)) && zz == z && k.instance_wf() && k.basis.capacity == c
                    && k.basis.weights@ == row_column(lines@, n, 2) && k.values@ == row_column(
                    lines@,
                    n,
                    1,
                )
            },
        },
{
    let ghost ls = lines@;
    if lines.len() < 5 || !line_has_token(lines[0].as_slice()) {
        return Err(ParseError::BadLayout);
    }
    let n_key: [u8; 1] = [110u8];
    let c_key: [u8; 1] = [99u8];
    let z_key: [u8; 1] = [122u8];
    let time_key: [u8; 4] = [116u8, 105u8, 109u8, 101u8];
    proof {
        assert(n_key@ =~= seq![110u8]);
        assert(c_key@ =~= seq![99u8]);
        assert(z_key@ =~= seq![122u8]);
        assert(time_key@ =~= seq![116u8, 105u8, 109u8, 101u8]);
    }
    if !starts_with_key(lines[4].as_slice(), time_key.as_slice()) {
        return Err(ParseError::BadLayout);
    }
    let n = match keyed_value(lines[1].as_slice(), n_key.as_slice()) {
        Some(v) => v,
        None => {
            return Err(ParseError::BadLayout);
        },
    };
    let c = match keyed_value(lines[2].as_slice(), c_key.as_slice()) {
        Some(v) => v,
        None => {
            return Err(ParseError::BadLayout);
        },
    };
    let z = match keyed_value(lines[3].as_slice(), z_key.as_slice()) {
        Some(v) => v,
        None => {
            return Err(ParseError::BadLayout);
        },
    };
    proof {
        assert(csv_header_values(ls) == Some((n as nat, c as nat, z as nat)));
    }
    let n = n as usize;
    let nl = lines.len();
    if nl < 6 || nl - 6 < n {
        return Err(ParseError::BadLayout);
    }
    let mut weights: Vec<ScoreType> = Vec::new();
    let mut values: Vec<ScoreType> = Vec::new();
    let mut k: usize = 0;
    while k < n
        invariant
            ls == lines@,
            nl == ls.len(),
            6 + n <= nl,
            csv_header_values(ls) == Some((n as nat, c as nat, z as nat)),
            k <= n,
            forall|j: nat| j < k ==> #[trigger] row_ok(ls[5 + j as int]@, j),
            weights@ == row_column(ls, k as nat, 2),
            values@ == row_column(ls, k as nat, 1),
        decreases n - k,
    {
        let row = match scan_numbers(lines[5 + k].as_slice(), true) {
            Some(row) => row,
            None => {
                proof {
                    assert(!row_ok(ls[5 + k as int]@, k as nat));
                }
                return Err(ParseError::BadLayout);
            },
        };
        if row.len() != 4 || row[0] as usize != k + 1 {
            proof {
                assert(!row_ok(ls[5 + k as int]@, k as nat));
            }
            return Err(ParseError::BadLayout);
        }
        values.push(row[1]);
        weights.push(row[2]);
        k = k + 1;
        proof {
            assert(row_ok(ls[5 + (k - 1) as int]@, (k - 1) as nat));
            assert(weights@ =~= row_column(ls, k as nat, 2));
            assert(values@ =~= row_column(ls, k as nat, 1));
        }
    }
    if !dash_line(lines[5 + n].as_slice()) {
        return Err(ParseError::BadLayout);
    }
    proof {
        assert(csv_rows_ok(ls, n as nat));
    }
    if n > MAX_WIDTH || !sum_fits(&weights) || !sum_fits(&values) {
        return Err(ParseError::TooLarge);
    }
    let basis = ProblemSubsetSum { weights, capacity: c };
    Ok((Problem01Knapsack { basis, values }, z))
}

} // verus!
