//! Building human-readable text.
use vstd::prelude::*;

verus! {

/// Relies on `format!`: the text "ex <exhausted>, max <max_score>, cntr <counter>".
#[verifier::external_body]
pub(crate) fn describe_node(exhausted: bool, max_score: u32, counter: usize) -> (r: String) {
    format!("ex {}, max {}, cntr {}", exhausted, max_score, counter)
}

/// Relies on `format!`: the text "<name>: score <score>, best score <best>".
#[verifier::external_body]
pub(crate) fn describe_scores(name: &str, score: u32, best: u32) -> (r: String) {
    format!("{}: score {}, best score {}", name, score, best)
}

/// Relies on `format!`: `body` followed by " score <score>"; the text begins with `body`.
#[verifier::external_body]
pub(crate) fn append_score(body: &str, score: u32) -> (r: String)
    ensures
        body@.len() <= r@.len(),
        r@.subrange(0, body@.len() as int) == body@,
{
    format!("{} score {}", body, score)
}

/// Relies on `format!`: "<name>: capacity <capacity> <= weight sum <sum>".
#[verifier::external_body]
pub(crate) fn describe_subset_sum(name: &str, capacity: u32, sum: u32) -> (r: String) {
    format!("{}: capacity {} <= weight sum {}", name, capacity, sum)
}

/// Relies on `format!`: "<name> <subset-sum description>, value sum <sum>".
#[verifier::external_body]
pub(crate) fn describe_knapsack(name: &str, basis: &str, sum: u32) -> (r: String) {
    format!("{} {}, value sum {}", name, basis, sum)
}

} // verus!
