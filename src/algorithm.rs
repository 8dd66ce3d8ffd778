//! The search variants.

use vstd::prelude::*;

use crate::utils::{is_text, lower_of, lowercase};

verus! {

/// Which best-first search the engine runs.
#[derive(Clone, Copy, Debug, PartialEq, Eq, Structural)]
pub enum Algorithm {
    /// A*: priority `g + h`, fresh nodes merged into the frontier.
    AStar,
    /// Weighted delta: priority is the step's increase of `g + h`.
    BStar,
    /// Greedy: fresh nodes are taken before the frontier.
    Greedy,
}


/// The algorithm a lower-case name stands for.
pub open spec fn algorithm_named(l: Seq<char>) -> Option<Algorithm> {
    if l == "astar"@ {
        Some(Algorithm::AStar)
    } else if l == "bstar"@ {
        Some(Algorithm::BStar)
    } else if l == "greedy"@ {
        Some(Algorithm::Greedy)
    } else {
        None
    }
}

impl Algorithm {
    /// The algorithm named `l` (already in lower case), if any.
    pub fn from_name(l: &String) -> (r: Option<Algorithm>)
        ensures
            r == algorithm_named(l@),
    {
        if is_text(l, "astar") {
            Some(Algorithm::AStar)
        } else if is_text(l, "bstar") {
            Some(Algorithm::BStar)
        } else if is_text(l, "greedy") {
            Some(Algorithm::Greedy)
        } else {
            None
        }
    }

    /// The algorithm named `s`, in any case, if any.
    pub fn parse(s: String) -> (r: Option<Algorithm>)
        ensures
            r == algorithm_named(lower_of(s@)),
    {
        let l = lowercase(s.as_str());
        Self::from_name(&l)
    }
}

} // verus!
