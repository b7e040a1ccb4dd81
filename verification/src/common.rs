//! Items shared by the grammar and the matching engine.

use vstd::prelude::*;

verus! {

/// The four wildcard spellings of the pattern language: `*?`, `*`, `**?` and
/// `**`.  Extended wildcards may cross word-boundary tokens; non-greedy
/// wildcards prefer the shortest span.
#[derive(Clone, Copy, Debug, PartialEq, Eq, Structural)]
pub enum Wildcard {
    NonGreedy,
    Greedy,
    NonGreedyExtended,
    GreedyExtended,
}

impl DeepView for Wildcard {
    type V = Wildcard;

    open spec fn deep_view(&self) -> Wildcard {
        *self
    }
}

} // verus!
