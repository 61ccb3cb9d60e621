//! The record that every strategy returns.

use vstd::prelude::*;
use crate::grid::Point;

verus! {

/// The outcome of one solve: which strategy ran, the cells of the path from
/// start to end (empty when none was found), the number of cells on it, the
/// number of cells taken for expansion, and the time the call took in
/// microseconds.
#[derive(Debug)]
pub struct Solution {
    pub algorithm: String,
    pub path: Vec<Point>,
    pub path_length: usize,
    pub nodes_explored: usize,
    pub time_taken: u128,
}

} // verus!
