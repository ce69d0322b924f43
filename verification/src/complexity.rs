//! Topological complexity over a learning run.

use vstd::prelude::*;

verus! {

/// Whether complexity rose over the run: at least two entries, and the last
/// complexity key exceeds the first.
pub fn is_increasing(scores: &Vec<u64>) -> (increasing: bool)
    ensures
        increasing == (scores.len() >= 2 && scores[scores.len() - 1] > scores[0]),
{
    if scores.len() < 2 {
        return false;
    }
    scores[scores.len() - 1] > scores[0]
}

} // verus!
