use vstd::prelude::*;

verus! {

// Configuration for one crawl run. The values are fixed before the crawl
// starts and read-only for its lifetime.

/// The order in which the frontier is worked off: depth-first expands each
/// newly discovered node to completion before its siblings, breadth-first
/// expands every node at one depth before any node one deeper.
#[derive(PartialEq, Eq, Structural, Clone, Copy, Debug)]
pub enum SearchMode {
    DepthFirst,
    BreadthFirst,
}

/// The traversal order named by `s`: `"depth-first"` and `"dfs"`,
/// `"breadth-first"` and `"bfs"`; anything else falls back to depth-first.
pub open spec fn mode_of_text(s: Seq<char>) -> SearchMode {
    if s == "breadth-first"@ || s == "bfs"@ {
        SearchMode::BreadthFirst
    } else {
        SearchMode::DepthFirst
    }
}

impl From<String> for SearchMode {
    /// The traversal order named by `value`, depth-first when the name is
    /// not recognised.
    fn from(value: String) -> (r: SearchMode) {
        if value == String::from_str("breadth-first") || value == String::from_str("bfs") {
            SearchMode::BreadthFirst
        } else {
            SearchMode::DepthFirst
        }
    }
}

impl vstd::std_specs::convert::FromSpecImpl<String> for SearchMode {
    open spec fn obeys_from_spec() -> bool {
        true
    }

    open spec fn from_spec(value: String) -> SearchMode {
        mode_of_text(value@)
    }
}

/// Immutable configuration for one crawl run: the depth bound, the
/// per-expansion sibling cap, which edge directions are followed, and the
/// traversal order.
#[derive(PartialEq, Eq, Structural, Clone, Copy, Debug)]
pub struct SearchSettings {
    /// How many sibling edges a single expansion may process before the tail
    /// of the candidate list is dropped.
    pub fan_out_limit: usize,
    /// The largest depth at which a node may still be expanded into; the
    /// root sits at depth 0.
    pub recursive_depth: usize,
    /// Whether edges leaving the expanded node are followed.
    pub forward: bool,
    /// Whether edges entering the expanded node are followed.
    pub backward: bool,
    /// The traversal order.
    pub mode: SearchMode,
}

} // verus!
