//! The ranker: accepted machines in ascending order of their step counts.

use itertools::Itertools;
use vstd::prelude::*;

verus! {

/// An accepted machine: its number in the enumeration and the number of
/// steps after which it stopped.
#[derive(Debug, Clone, Copy, PartialEq, Eq, Structural)]
pub struct Accepted {
    pub index: usize,
    pub steps: usize,
}

/// Whether `output` is `input` stably sorted by step count, `origin[i]`
/// being the place in `input` that `output[i]` came from: every place is
/// used once, step counts ascend, and entries with equal step counts keep
/// the order they had in `input`.
pub open spec fn stably_sorted(
    input: Seq<Accepted>,
    output: Seq<Accepted>,
    origin: Seq<int>,
) -> bool {
    &&& output.len() == input.len()
    &&& origin.len() == input.len()
    &&& forall|i: int| 0 <= i < origin.len() ==> 0 <= #[trigger] origin[i] < input.len()
    &&& forall|i: int, j: int| 0 <= i < j < origin.len() ==> origin[i] != origin[j]
    &&& forall|i: int| 0 <= i < output.len() ==> #[trigger] output[i] == input[origin[i]]
    &&& forall|i: int, j: int|
        0 <= i < j < output.len() ==> {
            ||| output[i].steps < output[j].steps
            ||| output[i].steps == output[j].steps && origin[i] < origin[j]
        }
}

/// The entries sorted by step count. This calls `Itertools::sorted_by_key`
/// with the step count as the key, which collects the entries and sorts
/// them with the standard library's `sort_by_key`. The contract claims what
/// is documented of that sort: the result holds the same entries, in
/// ascending order of the key, and the sort is stable.
#[verifier::external_body]
fn sorted_by_steps(entries: Vec<Accepted>) -> (sorted: Vec<Accepted>)
    ensures
        sorted@.to_multiset() == entries@.to_multiset(),
        exists|origin: Seq<int>| stably_sorted(entries@, sorted@, origin),
{
    entries.into_iter().sorted_by_key(|entry| entry.steps).collect()
}

/// Ranks accepted machines by how fast they stopped: the same entries, step
/// counts never descending, ties in the order in which they were given.
pub fn rank(entries: Vec<Accepted>) -> (ranked: Vec<Accepted>)
    ensures
        ranked@.to_multiset() == entries@.to_multiset(),
        exists|origin: Seq<int>| stably_sorted(entries@, ranked@, origin),
        forall|i: int, j: int| 0 <= i <= j < ranked@.len() ==> ranked@[i].steps <= ranked@[j].steps,
{
    sorted_by_steps(entries)
}

/// The fastest of the ranked machines, or nothing where none was accepted.
pub fn fastest(ranked: &Vec<Accepted>) -> (first: Option<Accepted>)
    ensures
        ranked@.len() == 0 ==> first is None,
        ranked@.len() > 0 ==> first == Some(ranked@[0]),
{
    if ranked.len() == 0 {
        None
    } else {
        Some(ranked[0])
    }
}

} // verus!
