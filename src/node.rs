//! Search nodes: one configuration reached along one path, with its costs.

use vstd::prelude::*;

use crate::algorithm::Algorithm;
use crate::heuristique::comparable;
use crate::strategy::Strategy;
use crate::utils::{grid_view, same_grid};

verus! {

/// One puzzle configuration, reached from the root along the path that its
/// `parent` links spell out. `parent` is the index of the predecessor in the
/// arena of nodes that holds it; the root has none.
#[derive(Clone, Debug)]
pub struct Node {
    pub grid: Vec<Vec<i64>>,
    /// Priority: lower comes first. Wider than the costs and signed: the
    /// weighted delta can be negative, and `g + h` can exceed 64 bits.
    pub f: i128,
    /// Moves from the root.
    pub g: u64,
    /// Estimate of the remaining cost.
    pub h: u64,
    pub parent: Option<usize>,
}

/// Priority of a node with costs `g` and `h` whose parent, if any, had costs
/// `pg` and `ph`.
pub open spec fn priority(algorithm: Algorithm, g: int, h: int, parent: Option<(int, int)>) -> int {
    match algorithm {
        Algorithm::AStar | Algorithm::Greedy => g + h,
        Algorithm::BStar => match parent {
            Some((pg, ph)) => (g + h) - (pg + ph),
            None => 0,
        },
    }
}

/// The costs `(g, h)` of the node at `p` in the arena, if there is one.
pub open spec fn parent_costs(nodes: Seq<Node>, parent: Option<usize>) -> Option<(int, int)> {
    match parent {
        Some(p) => Some((nodes[p as int].g as int, nodes[p as int].h as int)),
        None => None,
    }
}

/// `node` is what `Node::new` builds for its grid and parent.
pub open spec fn built(
    node: Node,
    nodes: Seq<Node>,
    goal: Seq<Vec<i64>>,
    algorithm: Algorithm,
    strategy: Strategy,
) -> bool {
    &&& node.g == match node.parent {
        Some(p) => nodes[p as int].g + 1,
        None => 0,
    }
    &&& node.h == strategy.score(node.grid@, goal)
    &&& node.f == priority(algorithm, node.g as int, node.h as int, parent_costs(nodes, node.parent))
}

/// `a` holds the same grid as `b`, at a priority and a move count no higher.
pub open spec fn covers(a: Node, b: Node) -> bool {
    grid_view(a.grid@) == grid_view(b.grid@) && a.f <= b.f && a.g <= b.g
}

impl Node {
    /// A node for `grid`, whose predecessor is `nodes[p]` when `parent` is
    /// `Some(p)`: `g` counts the moves, `h` is the strategy's estimate and `f`
    /// the algorithm's priority.
    pub fn new(
        grid: Vec<Vec<i64>>,
        parent: Option<usize>,
        nodes: &Vec<Node>,
        goal: &Vec<Vec<i64>>,
        algorithm: &Algorithm,
        strategy: &Strategy,
    ) -> (r: Node)
        requires
            comparable(grid@, goal@),
            strategy.ready(goal@.len() as int),
            parent matches Some(p) ==> p < nodes@.len() && nodes@[p as int].g < u64::MAX,
        ensures
            r.grid == grid,
            r.parent == parent,
            built(r, nodes@, goal@, *algorithm, *strategy),
    {
        let g: u64 = match parent {
            Some(p) => nodes[p].g + 1,
            None => 0,
        };
        let h = strategy.process(&grid, goal);
        let f: i128 = match algorithm {
            Algorithm::AStar | Algorithm::Greedy => h as i128 + g as i128,
            Algorithm::BStar => match parent {
                Some(p) => (h as i128 + g as i128) - (nodes[p].h as i128 + nodes[p].g as i128),
                None => 0,
            },
        };
        Node { grid, f, g, h, parent }
    }

    /// Order of the frontier: `self` comes before `other` when its priority
    /// is lower, or equal with fewer moves.
    pub open spec fn before(&self, other: &Node) -> bool {
        self.f < other.f || (self.f == other.f && self.g < other.g)
    }

    /// Whether `self` comes strictly before `other` in the frontier.
    pub fn is_before(&self, other: &Node) -> (r: bool)
        ensures
            r == self.before(other),
    {
        self.f < other.f || (self.f == other.f && self.g < other.g)
    }
}

impl PartialEq for Node {
    /// Same grid, with costs no higher than `other`'s.
    fn eq(&self, other: &Node) -> (r: bool) {
        same_grid(self.grid.as_slice(), other.grid.as_slice()) && self.f <= other.f && self.g
            <= other.g
    }
}

impl vstd::std_specs::cmp::PartialEqSpecImpl for Node {
    open spec fn obeys_eq_spec() -> bool {
        true
    }

    open spec fn eq_spec(&self, other: &Node) -> bool {
        covers(*self, *other)
    }
}

} // verus!
