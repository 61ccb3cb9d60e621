//! Ranking the records of several solves: shortest path, least time, fewest
//! cells explored.

use vstd::prelude::*;
use crate::solution::Solution;

verus! {

/// `i` is the position of the least of `keys`, and of the first such where
/// several are equally small.
pub open spec fn first_least(keys: Seq<int>, i: int) -> bool {
    &&& 0 <= i < keys.len()
    &&& forall|j: int| 0 <= j < keys.len() ==> keys[i] <= #[trigger] keys[j]
    &&& forall|j: int| 0 <= j < i ==> keys[i] < #[trigger] keys[j]
}

/// The path lengths of the records, in order.
pub open spec fn path_lengths(s: Seq<Solution>) -> Seq<int> {
    Seq::new(s.len(), |k: int| s[k].path_length as int)
}

/// The times of the records, in order.
pub open spec fn times_taken(s: Seq<Solution>) -> Seq<int> {
    Seq::new(s.len(), |k: int| s[k].time_taken as int)
}

/// The numbers of cells explored of the records, in order.
pub open spec fn nodes_counts(s: Seq<Solution>) -> Seq<int> {
    Seq::new(s.len(), |k: int| s[k].nodes_explored as int)
}

/// The position of the record with the shortest path, the first of them
/// where several are equally short; `None` when there is no record.
pub fn best_path(solutions: &Vec<Solution>) -> (best: Option<usize>)
    ensures
        best is None <==> solutions@.len() == 0,
        best matches Some(i) ==> first_least(path_lengths(solutions@), i as int),
{
    if solutions.len() == 0 {
        return None;
    }
    let mut best: usize = 0;
    let mut k: usize = 1;
    while k < solutions.len()
        invariant
            best < k <= solutions.len(),
            forall|j: int|
                0 <= j < k ==> solutions@[best as int].path_length <= (
                #[trigger] solutions@[j]).path_length,
            forall|j: int|
                0 <= j < best ==> solutions@[best as int].path_length < (
                #[trigger] solutions@[j]).path_length,
        decreases solutions.len() - k,
    {
        if solutions[k].path_length < solutions[best].path_length {
            best = k;
        }
        k = k + 1;
    }
    Some(best)
}

/// The position of the record that took the least time, the first of them
/// where several took equally long; `None` when there is no record.
pub fn fastest(solutions: &Vec<Solution>) -> (best: Option<usize>)
    ensures
        best is None <==> solutions@.len() == 0,
        best matches Some(i) ==> first_least(times_taken(solutions@), i as int),
{
    if solutions.len() == 0 {
        return None;
    }
    let mut best: usize = 0;
    let mut k: usize = 1;
    while k < solutions.len()
        invariant
            best < k <= solutions.len(),
            forall|j: int|
                0 <= j < k ==> solutions@[best as int].time_taken <= (
                #[trigger] solutions@[j]).time_taken,
            forall|j: int|
                0 <= j < best ==> solutions@[best as int].time_taken < (
                #[trigger] solutions@[j]).time_taken,
        decreases solutions.len() - k,
    {
        if solutions[k].time_taken < solutions[best].time_taken {
            best = k;
        }
        k = k + 1;
    }
    Some(best)
}

/// The position of the record that explored the fewest cells, the first of
/// them where several explored equally many; `None` when there is no record.
pub fn most_efficient(solutions: &Vec<Solution>) -> (best: Option<usize>)
    ensures
        best is None <==> solutions@.len() == 0,
        best matches Some(i) ==> first_least(nodes_counts(solutions@), i as int),
{
    if solutions.len() == 0 {
        return None;
    }
    let mut best: usize = 0;
    let mut k: usize = 1;
    while k < solutions.len()
        invariant
            best < k <= solutions.len(),
            forall|j: int|
                0 <= j < k ==> solutions@[best as int].nodes_explored <= (
                #[trigger] solutions@[j]).nodes_explored,
            forall|j: int|
                0 <= j < best ==> solutions@[best as int].nodes_explored < (
                #[trigger] solutions@[j]).nodes_explored,
        decreases solutions.len() - k,
    {
        if solutions[k].nodes_explored < solutions[best].nodes_explored {
            best = k;
        }
        k = k + 1;
    }
    Some(best)
}

} // verus!
