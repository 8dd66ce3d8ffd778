//! The best-first search engine: an arena of nodes linked to their parents,
//! a frontier and a closed list of arena indices, and the rounds that expand
//! the best frontier nodes until one of them holds the goal.

use vstd::multiset::Multiset;
use vstd::prelude::*;

use rayon::iter::IndexedParallelIterator;
use rayon::iter::IntoParallelRefIterator;
use rayon::iter::ParallelIterator;

use crate::algorithm::Algorithm;
use crate::file::{board_of, parse_file, FileParsingError};
use crate::goal::{flat, lemma_cells_flat, Goal};
use crate::heuristique::Heuristique;
use crate::strategy::{
    cross_weight, is_weight_table, kind_named, known_strategy, sandwich_weight,
};
use crate::utils::{
    cells, lemma_cells_by_contents, lemma_cells_contains, lemma_same_tiles, lemma_solvable_by_contents,
    lower_of, solvable, solvable_law,
};
use crate::heuristique::{abs, comparable};
use crate::node::{built, covers, Node};
use crate::strategy::Strategy;
use crate::utils::{find_nb, first_at, grid_view, holds, locate, same_grid, well_sized, MAX_SIDE};

verus! {

/// `a` with the empty cell `(x, y)` and its neighbour `(x2, y2)` exchanged.
pub open spec fn slid(a: Seq<Seq<i64>>, x: int, y: int, x2: int, y2: int) -> Seq<Seq<i64>> {
    let t = a.update(x, a[x].update(y, a[x2][y2]));
    t.update(x2, t[x2].update(y2, 0))
}

/// `b` is `a` after one tile slid into the empty cell.
pub open spec fn one_slide(a: Seq<Seq<i64>>, b: Seq<Seq<i64>>) -> bool {
    exists|x: int, y: int, x2: int, y2: int|
        {
            &&& 0 <= x < a.len() && 0 <= y < a[x].len()
            &&& 0 <= x2 < a.len() && 0 <= y2 < a[x2].len()
            &&& abs(x - x2) + abs(y - y2) == 1
            &&& a[x][y] == 0
            &&& b == #[trigger] slid(a, x, y, x2, y2)
        }
}

/// The four offsets tried around the empty cell, in order.
pub open spec fn offsets() -> Seq<(int, int)> {
    seq![(-1int, 0int), (0int, 1int), (1int, 0int), (0int, -1int)]
}

/// The offsets that keep `(x, y)` on an `n` by `n` board, in order.
pub open spec fn moves(n: int, x: int, y: int) -> Seq<(int, int)> {
    offsets().filter(|d: (int, int)| 0 <= x + d.0 < n && 0 <= y + d.1 < n)
}

/// The grid `m` after sliding the tile at `(x2, y2)` into the empty cell
/// `(x, y)`.
fn slide(m: &Vec<Vec<i64>>, x: usize, y: usize, x2: usize, y2: usize) -> (r: Vec<Vec<i64>>)
    requires
        well_sized(m@),
        x < m@.len(),
        y < m@.len(),
        x2 < m@.len(),
        y2 < m@.len(),
        x != x2 || y != y2,
    ensures
        grid_view(r@) == slid(grid_view(m@), x as int, y as int, x2 as int, y2 as int),
        r@.len() == m@.len(),
        well_sized(r@),
        forall|i: int, j: int|
            0 <= i < r@.len() && 0 <= j < r@.len() ==> (#[trigger] r@[i]@[j] == 0 || exists|
                a: int,
                b: int,
            | 0 <= a < m@.len() && 0 <= b < m@.len() && m@[a]@[b] == r@[i]@[j]),
{
    let n = m.len();
    let moved = m[x2][y2];
    let ghost target = slid(grid_view(m@), x as int, y as int, x2 as int, y2 as int);
    let mut out: Vec<Vec<i64>> = Vec::new();
    for i in 0..n
        invariant
            n == m@.len(),
            well_sized(m@),
            x < n,
            y < n,
            x2 < n,
            y2 < n,
            x != x2 || y != y2,
            moved == m@[x2 as int]@[y2 as int],
            target == slid(grid_view(m@), x as int, y as int, x2 as int, y2 as int),
            out@.len() == i,
            forall|k: int| 0 <= k < i ==> #[trigger] out@[k]@ == target[k],
    {
        let mut row: Vec<i64> = Vec::new();
        for j in 0..n
            invariant
                n == m@.len(),
                well_sized(m@),
                i < n,
                x < n,
                y < n,
                x2 < n,
                y2 < n,
                x != x2 || y != y2,
                moved == m@[x2 as int]@[y2 as int],
                target == slid(grid_view(m@), x as int, y as int, x2 as int, y2 as int),
                row@.len() == j,
                forall|l: int| 0 <= l < j ==> #[trigger] row@[l] == target[i as int][l],
        {
            if i == x2 && j == y2 {
                row.push(0);
            } else if i == x && j == y {
                row.push(moved);
            } else {
                row.push(m[i][j]);
            }
        }
        proof {
            assert(row@ =~= target[i as int]);
        }
        out.push(row);
    }
    proof {
        assert(grid_view(out@) =~= target);
        assert forall|i: int, j: int|
            0 <= i < out@.len() && 0 <= j < out@.len() implies (#[trigger] out@[i]@[j] == 0
                || exists|a: int, b: int|
                0 <= a < m@.len() && 0 <= b < m@.len() && m@[a]@[b] == out@[i]@[j]) by {
            assert(out@[i]@ == target[i]);
            if !(i == x2 && j == y2) && !(i == x && j == y) {
                assert(m@[i]@[j] == out@[i]@[j]);
            } else if i == x && j == y {
                assert(m@[x2 as int]@[y2 as int] == out@[i]@[j]);
            }
        }
    }
    out
}


/// The search: goal, configuration, the arena of every node built so far,
/// and the frontier and closed list as indices into the arena.
#[derive(Debug)]
pub struct NPuzzle {
    pub size: i64,
    pub goal: Vec<Vec<i64>>,
    pub algorithm: Algorithm,
    pub strategy: Strategy,
    /// Every node built so far; a node's parent has a smaller index.
    pub nodes: Vec<Node>,
    /// Frontier: nodes waiting to be expanded.
    pub open_list: Vec<usize>,
    /// Nodes already expanded.
    pub close_list: Vec<usize>,
    /// Largest frontier seen after a round.
    pub max_state: usize,
    pub max_iteration: u64,
    pub debug: bool,
    /// Frontier nodes expanded per round.
    pub thread: usize,
}

/// A search can be set up from the board text `text`, the goal `goal` and
/// the lower-case strategy name `name`: the board parses with a side the
/// library handles, the goal layout holds the board's values, the parity law
/// lets the board reach it, and the strategy name is known.
pub open spec fn setup_possible(text: Seq<char>, goal: Goal, name: Seq<char>) -> bool {
    &&& board_of(text) matches Ok((n, b)) && n <= MAX_SIDE
    &&& exists|m: Seq<Vec<i64>>, g: Seq<Vec<i64>>|
        grid_view(m) == board_of(text)->Ok_0.1 && goal.layout(m.len() as int, m) == Some(
            grid_view(g),
        ) && flat(grid_view(g)).to_multiset() == cells(m).to_multiset() && solvable_law(m, g)
    &&& known_strategy(name)
}

/// Why a search could not be set up.
#[derive(Debug, PartialEq, Eq, Structural, Clone, Copy)]
pub enum PuzzleError {
    /// The board file was refused.
    File(FileParsingError),
    /// The board is wider than the library handles.
    TooLarge,
    /// The goal does not hold the same values as the board.
    GoalMismatch,
    /// The parity law shows the goal cannot be reached.
    Unsolvable,
    /// The strategy name is not known.
    UnknownStrategy,
}

/// A solved search.
#[derive(Debug)]
pub struct Solution {
    /// The grids from the initial one to the goal.
    pub path: Vec<Vec<Vec<i64>>>,
    /// Number of moves: one less than the grids on the path.
    pub moves: u64,
    /// Rounds run.
    pub iterations: u64,
    /// Largest frontier seen after a round.
    pub max_state: usize,
}

/// How a search ended.
#[derive(Debug)]
pub enum Outcome {
    Solved(Solution),
    /// The frontier ran dry without reaching the goal.
    Exhausted,
    /// The configured number of rounds passed without reaching the goal.
    IterationLimit,
}

/// A copy of grid `m`.
pub fn copy_grid(m: &Vec<Vec<i64>>) -> (r: Vec<Vec<i64>>)
    ensures
        grid_view(r@) == grid_view(m@),
{
    let mut out: Vec<Vec<i64>> = Vec::new();
    let n = m.len();
    for i in 0..n
        invariant
            n == m@.len(),
            out@.len() == i,
            forall|k: int| 0 <= k < i ==> #[trigger] out@[k]@ == m@[k]@,
    {
        let mut row: Vec<i64> = Vec::new();
        let w = m[i].len();
        for j in 0..w
            invariant
                n == m@.len(),
                i < n,
                w == m@[i as int]@.len(),
                row@ == m@[i as int]@.subrange(0, j as int),
        {
            row.push(m[i][j]);
            proof {
                assert(m@[i as int]@.subrange(0, j + 1) =~= row@);
            }
        }
        proof {
            assert(m@[i as int]@.subrange(0, m@[i as int]@.len() as int) =~= m@[i as int]@);
        }
        out.push(row);
    }
    proof {
        assert(grid_view(out@) =~= grid_view(m@));
    }
    out
}

impl NPuzzle {
    /// Node `k` of the arena fits the goal, was built from its parent, and
    /// is one slide away from it; only the root has no parent.
    pub open spec fn node_ok(&self, k: int) -> bool {
        let nd = self.nodes@[k];
        &&& comparable(nd.grid@, self.goal@)
        &&& built(nd, self.nodes@, self.goal@, self.algorithm, self.strategy)
        &&& nd.g <= k
        &&& match nd.parent {
            Some(p) => p < k && one_slide(
                grid_view(self.nodes@[p as int].grid@),
                grid_view(nd.grid@),
            ),
            None => k == 0,
        }
    }

    /// The invariant of a search.
    pub open spec fn wf(&self) -> bool {
        &&& well_sized(self.goal@)
        &&& self.goal@.len() >= 1
        &&& self.size == self.goal@.len()
        &&& self.strategy.ready(self.goal@.len() as int)
        &&& self.thread >= 1
        &&& self.nodes@.len() >= 1
        &&& forall|k: int| 0 <= k < self.nodes@.len() ==> #[trigger] self.node_ok(k)
        &&& forall|t: int| 0 <= t < self.open_list@.len() ==> #[trigger] self.open_list@[t] < self.nodes@.len()
        &&& forall|t: int| 0 <= t < self.close_list@.len() ==> #[trigger] self.close_list@[t] < self.nodes@.len()
    }

    /// A closed node holds the same grid as `nd` at a priority no higher.
    pub open spec fn rejected(&self, nd: Node) -> bool {
        exists|t: int|
            0 <= t < self.close_list@.len() && grid_view(
                self.nodes@[#[trigger] self.close_list@[t] as int].grid@,
            ) == grid_view(nd.grid@) && self.nodes@[self.close_list@[t] as int].f <= nd.f
    }

    /// `cands` are the children of node `p`: one per offset in `moves` around
    /// its empty cell, in that order, each built with `p` as parent.
    pub open spec fn children(&self, p: int, cands: Seq<Node>) -> bool {
        let grid = grid_view(self.nodes@[p].grid@);
        let (x, y) = locate(self.nodes@[p].grid@, 0);
        let mv = moves(self.goal@.len() as int, x, y);
        &&& cands.len() == mv.len()
        &&& forall|t: int|
            0 <= t < cands.len() ==> {
                &&& (#[trigger] cands[t]).parent == Some(p as usize)
                &&& grid_view(cands[t].grid@) == slid(grid, x, y, x + mv[t].0, y + mv[t].1)
                &&& built(cands[t], self.nodes@, self.goal@, self.algorithm, self.strategy)
                &&& comparable(cands[t].grid@, self.goal@)
                &&& one_slide(grid, grid_view(cands[t].grid@))
            }
    }

    /// `r` holds the children of node `p` that no closed node rejects, in order.
    pub open spec fn swaps_of(&self, p: int, r: Seq<Node>) -> bool {
        exists|cands: Seq<Node>|
            self.children(p, cands) && r == cands.filter(|c: Node| !self.rejected(c))
    }

    /// Children of node `parent`, one per legal slide into its empty cell,
    /// in the order up, right, down, left.
    fn neighbors(&self, parent: usize) -> (r: Vec<Node>)
        requires
            self.wf(),
            parent < self.nodes@.len(),
        ensures
            self.children(parent as int, r@),
    {
        let n = self.goal.len();
        let ghost p = parent as int;
        let ghost grid = grid_view(self.nodes@[p].grid@);
        proof {
            assert(self.node_ok(p));
        }
        let pos = find_nb(0, self.nodes[parent].grid.as_slice());
        let (x, y) = pos;
        let ghost mv_all = moves(n as int, x as int, y as int);
        let offs: [(i32, i32); 4] = [(-1, 0), (0, 1), (1, 0), (0, -1)];
        let mut out: Vec<Node> = Vec::new();
        let mut k: usize = 0;
        while k < 4
            invariant
                self.wf(),
                n == self.goal@.len(),
                parent < self.nodes@.len(),
                p == parent,
                grid == grid_view(self.nodes@[p].grid@),
                x as int == locate(self.nodes@[p].grid@, 0).0,
                y as int == locate(self.nodes@[p].grid@, 0).1,
                holds(self.nodes@[p].grid@, 0) ==> first_at(self.nodes@[p].grid@, 0, x as int, y as int),
                !holds(self.nodes@[p].grid@, 0) ==> x == -1 && y == -1,
                k <= 4,
                offs@ == seq![(-1i32, 0i32), (0i32, 1i32), (1i32, 0i32), (0i32, -1i32)],
                out@.len() == offsets().subrange(0, k as int).filter(
                    |d: (int, int)| 0 <= x + d.0 < n && 0 <= y + d.1 < n,
                ).len(),
                forall|t: int|
                    0 <= t < out@.len() ==> {
                        let mv = offsets().subrange(0, k as int).filter(
                            |d: (int, int)| 0 <= x + d.0 < n && 0 <= y + d.1 < n,
                        );
                        &&& (#[trigger] out@[t]).parent == Some(parent)
                        &&& grid_view(out@[t].grid@) == slid(grid, x as int, y as int, x + mv[t].0, y + mv[t].1)
                        &&& built(out@[t], self.nodes@, self.goal@, self.algorithm, self.strategy)
                        &&& comparable(out@[t].grid@, self.goal@)
                        &&& one_slide(grid, grid_view(out@[t].grid@))
                    },
            decreases 4 - k,
        {
            let (dx, dy) = offs[k];
            let ghost pre = offsets().subrange(0, k as int);
            let ghost inb = |d: (int, int)| 0 <= x + d.0 < n && 0 <= y + d.1 < n;
            proof {
                assert(offsets().subrange(0, k + 1) =~= pre.push(offsets()[k as int]));
                assert(pre.push(offsets()[k as int]).drop_last() =~= pre);
                assert(offsets()[k as int] == (dx as int, dy as int));
            }
            let nx = x as i64 + dx as i64;
            let ny = y as i64 + dy as i64;
            if nx >= 0 && ny >= 0 && nx < n as i64 && ny < n as i64 {
                proof {
                    assert(self.node_ok(p));
                    assert(x >= 0 && y >= 0);
                    assert(holds(self.nodes@[p].grid@, 0));
                }
                let swap = slide(&self.nodes[parent].grid, x as usize, y as usize, nx as usize, ny as usize);
                proof {
                    let pg = self.nodes@[p].grid@;
                    assert forall|i: int, j: int|
                        0 <= i < swap@.len() && 0 <= j < swap@.len() implies holds(
                        self.goal@,
                        #[trigger] swap@[i]@[j],
                    ) by {
                        if swap@[i]@[j] == 0 {
                            assert(pg[x as int]@[y as int] == 0);
                        } else {
                            let (a, b) = choose|a: int, b: int|
                                0 <= a < pg.len() && 0 <= b < pg.len() && pg[a]@[b] == swap@[i]@[j];
                            assert(0 <= a < pg.len() && 0 <= b < pg.len());
                            assert(holds(self.goal@, pg[a]@[b]));
                        }
                    }
                    assert(swap@.len() == self.goal@.len());
                    assert(comparable(swap@, self.goal@));
                    assert(abs(x - nx) + abs(y - ny) == 1);
                    assert(one_slide(grid, grid_view(swap@)));
                    assert(self.nodes@[p].g <= p);
                    assert(p < self.nodes.len());
                    assert(self.nodes@[p].g < u64::MAX);
                }
                let node = Node::new(
                    swap,
                    Some(parent),
                    &self.nodes,
                    &self.goal,
                    &self.algorithm,
                    &self.strategy,
                );
                out.push(node);
                proof {
                    assert(inb(offsets()[k as int]));
                    reveal_with_fuel(Seq::filter, 1);
                    let mv = offsets().subrange(0, k + 1).filter(inb);
                    assert(mv == pre.filter(inb).push(offsets()[k as int]));
                }
            } else {
                proof {
                    assert(!inb(offsets()[k as int]));
                    reveal_with_fuel(Seq::filter, 1);
                    let mv = offsets().subrange(0, k + 1).filter(inb);
                    assert(mv == pre.filter(inb));
                }
            }
            k = k + 1;
        }
        proof {
            assert(offsets().subrange(0, 4) =~= offsets());
        }
        out
    }

    /// Whether a closed node holds `nd`'s grid at a priority no higher.
    fn is_rejected(&self, nd: &Node) -> (r: bool)
        requires
            self.wf(),
        ensures
            r == self.rejected(*nd),
    {
        let len = self.close_list.len();
        for t in 0..len
            invariant
                self.wf(),
                len == self.close_list@.len(),
                forall|u: int|
                    0 <= u < t ==> !(grid_view(
                        self.nodes@[#[trigger] self.close_list@[u] as int].grid@,
                    ) == grid_view(nd.grid@) && self.nodes@[self.close_list@[u] as int].f
                        <= nd.f),
        {
            let c = self.close_list[t];
            if same_grid(self.nodes[c].grid.as_slice(), nd.grid.as_slice()) && self.nodes[c].f
                <= nd.f {
                return true;
            }
        }
        false
    }

    /// The children of node `parent` that no closed node rejects, in the
    /// order up, right, down, left.
    pub fn generate_swaps(&self, parent: usize) -> (r: Vec<Node>)
        requires
            self.wf(),
            parent < self.nodes@.len(),
        ensures
            self.swaps_of(parent as int, r@),
    {
        let mut cands = self.neighbors(parent);
        let ghost all = cands@;
        let ghost keep = |c: Node| !self.rejected(c);
        let len = cands.len();
        let mut out: Vec<Node> = Vec::new();
        let mut i: usize = 0;
        while i < len
            invariant
                self.wf(),
                len == all.len(),
                i <= len,
                cands@ == all.subrange(i as int, len as int),
                out@ == all.subrange(0, i as int).filter(keep),
                keep == (|c: Node| !self.rejected(c)),
            decreases len - i,
        {
            let c = cands.remove(0);
            proof {
                assert(c == all[i as int]);
                assert(all.subrange(i + 1, len as int) =~= all.subrange(i as int, len as int).remove(0));
                assert(all.subrange(0, i + 1) =~= all.subrange(0, i as int).push(c));
                assert(all.subrange(0, i as int).push(c).drop_last() =~= all.subrange(0, i as int));
                reveal_with_fuel(Seq::filter, 1);
            }
            if !self.is_rejected(&c) {
                out.push(c);
            }
            i = i + 1;
        }
        proof {
            assert(all.subrange(0, len as int) =~= all);
        }
        out
    }

    /// Runs `generate_swaps` on every parent, in parallel.
    /// Relies on rayon: `par_iter` over a slice, then `map` and
    /// `collect_into_vec`, calls the closure once per item and stores the
    /// results in the order of the items.
    #[verifier::external_body]
    fn expand_all(&self, parents: &Vec<usize>) -> (r: Vec<Vec<Node>>)
        requires
            self.wf(),
            forall|t: int| 0 <= t < parents@.len() ==> #[trigger] parents@[t] < self.nodes@.len(),
        ensures
            r@.len() == parents@.len(),
            forall|t: int| 0 <= t < r@.len() ==> self.swaps_of(parents@[t] as int, #[trigger] r@[t]@),
    {
        let mut out: Vec<Vec<Node>> = Vec::new();
        parents.par_iter().map(|&p| self.generate_swaps(p)).collect_into_vec(&mut out);
        out
    }

    /// `nd` is a child of node `p` that no closed node rejects.
    pub open spec fn child_ok(&self, p: int, nd: Node) -> bool {
        &&& 0 <= p < self.nodes@.len()
        &&& nd.parent == Some(p as usize)
        &&& built(nd, self.nodes@, self.goal@, self.algorithm, self.strategy)
        &&& comparable(nd.grid@, self.goal@)
        &&& one_slide(grid_view(self.nodes@[p].grid@), grid_view(nd.grid@))
        &&& !self.rejected(nd)
    }

    /// `nd` is a child of one of the nodes listed in `parents`.
    pub open spec fn fresh_from(&self, parents: Seq<usize>, nd: Node) -> bool {
        exists|t: int| 0 <= t < parents.len() && self.child_ok(#[trigger] parents[t] as int, nd)
    }

    proof fn lemma_swaps_are_children(&self, p: int, r: Seq<Node>)
        requires
            self.wf(),
            0 <= p < self.nodes@.len(),
            self.swaps_of(p, r),
        ensures
            forall|k: int| 0 <= k < r.len() ==> self.child_ok(p, #[trigger] r[k]),
            r.len() <= 4,
    {
        let cands = choose|cands: Seq<Node>|
            self.children(p, cands) && r == cands.filter(|c: Node| !self.rejected(c));
        broadcast use vstd::seq_lib::group_filter_ensures;

        let keep = |c: Node| !self.rejected(c);
        let (x, y) = locate(self.nodes@[p].grid@, 0);
        let n = self.goal@.len() as int;
        assert(offsets().filter(|d: (int, int)| 0 <= x + d.0 < n && 0 <= y + d.1 < n).len() <= 4);
        assert forall|k: int| 0 <= k < r.len() implies self.child_ok(p, #[trigger] r[k]) by {
            assert(r.contains(r[k]));
            cands.lemma_filter_contains_rev(keep, r[k]);
            assert(cands.contains(r[k]));
            let t = choose|t: int| 0 <= t < cands.len() && cands[t] == r[k];
            assert(keep(r[k]));
        }
    }

    /// The children of every node in `parents`, expanded in parallel and
    /// laid end to end.
    fn children_of(&self, parents: &Vec<usize>) -> (r: Vec<Node>)
        requires
            self.wf(),
            forall|t: int| 0 <= t < parents@.len() ==> #[trigger] parents@[t] < self.nodes@.len(),
        ensures
            forall|k: int| 0 <= k < r@.len() ==> self.fresh_from(parents@, #[trigger] r@[k]),
            exists|b: Seq<Seq<Node>>|
                b.len() == parents@.len() && (forall|t: int|
                    0 <= t < b.len() ==> self.swaps_of(parents@[t] as int, #[trigger] b[t]))
                    && r@ == laid_end_to_end(b),
    {
        let mut batches = self.expand_all(parents);
        let ghost all = batches@;
        let ghost bv = all.map_values(|v: Vec<Node>| v@);
        let len = batches.len();
        let mut out: Vec<Node> = Vec::new();
        let mut i: usize = 0;
        while i < len
            invariant
                self.wf(),
                len == all.len(),
                len == parents@.len(),
                i <= len,
                batches@ == all.subrange(i as int, len as int),
                forall|t: int| 0 <= t < parents@.len() ==> #[trigger] parents@[t] < self.nodes@.len(),
                forall|t: int| 0 <= t < all.len() ==> self.swaps_of(parents@[t] as int, #[trigger] all[t]@),
                forall|k: int| 0 <= k < out@.len() ==> self.fresh_from(parents@, #[trigger] out@[k]),
                bv == all.map_values(|v: Vec<Node>| v@),
                out@ == laid_end_to_end(bv.take(i as int)),
            decreases len - i,
        {
            let mut batch = batches.remove(0);
            proof {
                assert(batch == all[i as int]);
                assert(all.subrange(i + 1, len as int) =~= all.subrange(i as int, len as int).remove(0));
                self.lemma_swaps_are_children(parents@[i as int] as int, batch@);
            }
            let ghost b0 = batch@;
            let blen = batch.len();
            let mut j: usize = 0;
            while j < blen
                invariant
                    self.wf(),
                    i < len,
                    len == parents@.len(),
                    blen == b0.len(),
                    j <= blen,
                    batch@ == b0.subrange(j as int, blen as int),
                    forall|k: int| 0 <= k < b0.len() ==> self.child_ok(parents@[i as int] as int, #[trigger] b0[k]),
                    forall|k: int| 0 <= k < out@.len() ==> self.fresh_from(parents@, #[trigger] out@[k]),
                    out@ == laid_end_to_end(bv.take(i as int)) + b0.take(j as int),
                decreases blen - j,
            {
                let nd = batch.remove(0);
                proof {
                    assert(nd == b0[j as int]);
                    assert(b0.subrange(j + 1, blen as int) =~= b0.subrange(j as int, blen as int).remove(0));
                    assert(self.child_ok(parents@[i as int] as int, nd));
                    assert(self.fresh_from(parents@, nd));
                    assert(b0.take(j + 1) =~= b0.take(j as int).push(nd));
                }
                out.push(nd);
                j = j + 1;
            }
            proof {
                assert(b0.take(blen as int) =~= b0);
                assert(bv[i as int] == b0);
                assert(bv.take(i + 1).drop_last() =~= bv.take(i as int));
                assert(out@ =~= laid_end_to_end(bv.take(i + 1)));
            }
            i = i + 1;
        }
        proof {
            assert(bv.take(len as int) =~= bv);
            assert forall|t: int| 0 <= t < bv.len() implies self.swaps_of(parents@[t] as int, #[trigger] bv[t]) by {
                assert(bv[t] == all[t]@);
            }
        }
        out
    }

    /// Goal, configuration and counters are those of `other`.
    pub open spec fn same_setup(&self, other: &NPuzzle) -> bool {
        &&& self.size == other.size
        &&& self.goal == other.goal
        &&& self.algorithm == other.algorithm
        &&& self.strategy == other.strategy
        &&& self.max_state == other.max_state
        &&& self.max_iteration == other.max_iteration
        &&& self.debug == other.debug
        &&& self.thread == other.thread
    }

    /// One round of expansion around the nodes `currents`: their children
    /// that no closed node rejects join the arena, `currents` join the closed
    /// list, and every frontier entry that one of the new children covers
    /// leaves the frontier. Returns the arena indices of the new children.
    pub fn expand(&mut self, currents: &Vec<usize>) -> (fresh: Vec<usize>)
        requires
            old(self).wf(),
            forall|t: int| 0 <= t < currents@.len() ==> #[trigger] currents@[t] < old(self).nodes@.len(),
        ensures
            final(self).wf(),
            final(self).same_setup(old(self)),
            final(self).nodes@.subrange(0, old(self).nodes@.len() as int) == old(self).nodes@,
            final(self).nodes@.len() == old(self).nodes@.len() + fresh@.len(),
            forall|t: int| 0 <= t < fresh@.len() ==> #[trigger] fresh@[t] == old(self).nodes@.len() + t,
            forall|t: int|
                0 <= t < fresh@.len() ==> old(self).fresh_from(
                    currents@,
                    #[trigger] final(self).nodes@[fresh@[t] as int],
                ),
            exists|b: Seq<Seq<Node>>|
                b.len() == currents@.len() && (forall|t: int|
                    0 <= t < b.len() ==> old(self).swaps_of(currents@[t] as int, #[trigger] b[t]))
                    && final(self).nodes@.subrange(
                    old(self).nodes@.len() as int,
                    final(self).nodes@.len() as int,
                ) == laid_end_to_end(b),
            final(self).close_list@ == old(self).close_list@ + currents@,
            final(self).open_list@ == old(self).open_list@.filter(
                |x: usize|
                    !exists|k: int|
                        old(self).nodes@.len() <= k < final(self).nodes@.len() && covers(
                            #[trigger] final(self).nodes@[k],
                            old(self).nodes@[x as int],
                        ),
            ),
            forall|t: int, k: int|
                0 <= t < final(self).open_list@.len() && 0 <= k < fresh@.len() ==> !covers(
                    final(self).nodes@[#[trigger] fresh@[k] as int],
                    final(self).nodes@[#[trigger] final(self).open_list@[t] as int],
                ),
    {
        let ghost s0 = *self;
        let ghost l0 = self.nodes@.len();
        let mut new_nodes = self.children_of(currents);
        let ghost nn = new_nodes@;
        // the expanded nodes are closed
        let clen = currents.len();
        for t in 0..clen
            invariant
                clen == currents@.len(),
                self.nodes == s0.nodes,
                self.same_setup(&s0),
                self.open_list == s0.open_list,
                self.close_list@ == s0.close_list@ + currents@.subrange(0, t as int),
        {
            self.close_list.push(currents[t]);
            proof {
                assert(s0.close_list@ + currents@.subrange(0, t + 1) =~= self.close_list@);
            }
        }
        proof {
            assert(currents@.subrange(0, clen as int) =~= currents@);
        }
        // frontier entries that a new child covers leave the frontier
        let ghost keep = |x: usize| !exists|k: int| 0 <= k < nn.len() && covers(#[trigger] nn[k], s0.nodes@[x as int]);
        let olen = self.open_list.len();
        let mut kept: Vec<usize> = Vec::new();
        for t in 0..olen
            invariant
                olen == s0.open_list@.len(),
                self.nodes == s0.nodes,
                self.open_list == s0.open_list,
                new_nodes@ == nn,
                s0.wf(),
                keep == (|x: usize| !exists|k: int| 0 <= k < nn.len() && covers(#[trigger] nn[k], s0.nodes@[x as int])),
                kept@ == s0.open_list@.subrange(0, t as int).filter(keep),
        {
            let x = self.open_list[t];
            let mut hit = false;
            let nlen = new_nodes.len();
            for k in 0..nlen
                invariant
                    nlen == nn.len(),
                    new_nodes@ == nn,
                    self.nodes == s0.nodes,
                    x < self.nodes@.len(),
                    hit == exists|u: int| 0 <= u < k && covers(#[trigger] nn[u], s0.nodes@[x as int]),
            {
                if new_nodes[k].eq(&self.nodes[x]) {
                    hit = true;
                }
            }
            proof {
                let pre = s0.open_list@.subrange(0, t as int);
                assert(s0.open_list@.subrange(0, t + 1) =~= pre.push(x));
                assert(pre.push(x).drop_last() =~= pre);
                reveal_with_fuel(Seq::filter, 1);
                assert(keep(x) == !hit);
            }
            if !hit {
                kept.push(x);
            }
        }
        proof {
            assert(s0.open_list@.subrange(0, olen as int) =~= s0.open_list@);
        }
        self.open_list = kept;
        let ghost open1 = self.open_list@;
        let ghost close1 = self.close_list@;
        proof {
            assert(open1 == s0.open_list@.filter(keep));
            assert(close1 == s0.close_list@ + currents@);
        }
        // the new children join the arena
        let nlen = new_nodes.len();
        let mut fresh: Vec<usize> = Vec::new();
        let mut j: usize = 0;
        while j < nlen
            invariant
                nlen == nn.len(),
                j <= nlen,
                new_nodes@ == nn.subrange(j as int, nlen as int),
                self.same_setup(&s0),
                self.open_list@ == open1,
                self.close_list@ == close1,
                self.nodes@.len() == l0 + j,
                self.nodes@.subrange(0, l0 as int) == s0.nodes@,
                forall|k: int| 0 <= k < j ==> #[trigger] self.nodes@[l0 + k] == nn[k],
                fresh@.len() == j,
                forall|t: int| 0 <= t < j ==> #[trigger] fresh@[t] == l0 + t,
            decreases nlen - j,
        {
            let nd = new_nodes.remove(0);
            proof {
                assert(nd == nn[j as int]);
                assert(nn.subrange(j + 1, nlen as int) =~= nn.subrange(j as int, nlen as int).remove(0));
            }
            let id = self.nodes.len();
            self.nodes.push(nd);
            fresh.push(id);
            j = j + 1;
            proof {
                assert(self.nodes@.subrange(0, l0 as int) =~= s0.nodes@);
            }
        }
        proof {
            assert forall|k: int| 0 <= k < self.nodes@.len() implies #[trigger] self.node_ok(k) by {
                if k < l0 {
                    assert(self.nodes@[k] == s0.nodes@[k]);
                    assert(s0.node_ok(k));
                    let nd = s0.nodes@[k];
                    if let Some(p) = nd.parent {
                        assert(self.nodes@[p as int] == s0.nodes@[p as int]);
                    }
                } else {
                    let nd = nn[k - l0];
                    assert(self.nodes@[l0 + (k - l0)] == nn[k - l0]);
                    assert(self.nodes@[k] == nd);
                    assert(s0.fresh_from(currents@, nd));
                    let t = choose|t: int| 0 <= t < currents@.len() && s0.child_ok(#[trigger] currents@[t] as int, nd);
                    let p = currents@[t] as int;
                    assert(self.nodes@[p] == s0.nodes@[p]);
                    assert(s0.node_ok(p));
                }
            }
            assert forall|t: int| 0 <= t < self.open_list@.len() implies #[trigger] self.open_list@[t] < self.nodes@.len() by {
                s0.open_list@.lemma_filter_pred(keep, t);
                assert(s0.open_list@.filter(keep).contains(self.open_list@[t]));
                s0.open_list@.lemma_filter_contains_rev(keep, self.open_list@[t]);
            }
            assert forall|t: int| 0 <= t < self.close_list@.len() implies #[trigger] self.close_list@[t] < self.nodes@.len() by {
                if t < s0.close_list@.len() {
                    assert(self.close_list@[t] == s0.close_list@[t]);
                } else {
                    assert(self.close_list@[t] == currents@[t - s0.close_list@.len()]);
                }
            }
            let ghost kf = |x: usize|
                !exists|k: int| l0 <= k < self.nodes@.len() && covers(#[trigger] self.nodes@[k], s0.nodes@[x as int]);
            assert forall|x: usize| #[trigger] keep(x) == kf(x) by {
                if !keep(x) {
                    let k = choose|k: int| 0 <= k < nn.len() && covers(#[trigger] nn[k], s0.nodes@[x as int]);
                    assert(self.nodes@[l0 + k] == nn[k]);
                }
                if !kf(x) {
                    let k = choose|k: int| l0 <= k < self.nodes@.len() && covers(#[trigger] self.nodes@[k], s0.nodes@[x as int]);
                    assert(self.nodes@[l0 + (k - l0)] == nn[k - l0]);
                }
            }
            assert(keep == kf);
            assert forall|t: int, k: int|
                0 <= t < self.open_list@.len() && 0 <= k < fresh@.len() implies !covers(
                    self.nodes@[#[trigger] fresh@[k] as int],
                    self.nodes@[#[trigger] self.open_list@[t] as int],
                ) by {
                s0.open_list@.lemma_filter_pred(keep, t);
                let x = self.open_list@[t];
                assert(s0.open_list@.filter(keep).contains(x));
                s0.open_list@.lemma_filter_contains_rev(keep, x);
                assert(x < l0);
                assert(self.nodes@[x as int] == s0.nodes@[x as int]);
                assert(self.nodes@[fresh@[k] as int] == nn[k]);
            }
            assert forall|k: int| 0 <= k < nn.len() implies #[trigger] self.nodes@.subrange(l0 as int, self.nodes@.len() as int)[k] == nn[k] by {
                assert(self.nodes@[l0 + k] == nn[k]);
            }
            assert(self.nodes@.subrange(l0 as int, self.nodes@.len() as int) =~= nn);
            assert forall|t: int| 0 <= t < fresh@.len() implies s0.fresh_from(
                currents@,
                #[trigger] self.nodes@[fresh@[t] as int],
            ) by {
                assert(self.nodes@[fresh@[t] as int] == nn[t]);
            }
        }
        fresh
    }


    /// A search that differs from `self` only in its frontier stays well formed
    /// when the frontier indexes the arena.
    proof fn lemma_wf_frontier(&self, other: &NPuzzle)
        requires
            self.wf(),
            other.nodes == self.nodes,
            other.close_list == self.close_list,
            other.goal == self.goal,
            other.algorithm == self.algorithm,
            other.strategy == self.strategy,
            other.size == self.size,
            other.thread == self.thread,
            forall|t: int| 0 <= t < other.open_list@.len() ==> #[trigger] other.open_list@[t] < other.nodes@.len(),
        ensures
            other.wf(),
    {
        assert forall|k: int| 0 <= k < other.nodes@.len() implies #[trigger] other.node_ok(k) by {
            assert(self.node_ok(k));
        }
    }

    /// Picks the nodes of the next round from the frontier and the new
    /// children `fresh`, at most `thread` of them, and records the largest
    /// frontier seen. A* and the weighted delta merge `fresh` into the
    /// frontier and take its best nodes; greedy takes the best new children
    /// first and merges those left over.
    #[verifier::rlimit(100)]
    pub fn select(&mut self, fresh: Vec<usize>) -> (next: Vec<usize>)
        requires
            old(self).wf(),
            forall|t: int| 0 <= t < fresh@.len() ==> #[trigger] fresh@[t] < old(self).nodes@.len(),
        ensures
            final(self).wf(),
            final(self).nodes == old(self).nodes,
            final(self).close_list == old(self).close_list,
            final(self).goal == old(self).goal,
            final(self).algorithm == old(self).algorithm,
            final(self).strategy == old(self).strategy,
            final(self).size == old(self).size,
            final(self).thread == old(self).thread,
            final(self).max_iteration == old(self).max_iteration,
            final(self).debug == old(self).debug,
            final(self).max_state as int == if old(self).max_state >= final(self).open_list@.len() {
                old(self).max_state as int
            } else {
                final(self).open_list@.len() as int
            },
            forall|t: int| 0 <= t < next@.len() ==> #[trigger] next@[t] < final(self).nodes@.len(),
            next@.to_multiset().add(final(self).open_list@.to_multiset()) == old(
                self,
            ).open_list@.to_multiset().add(fresh@.to_multiset()),
            next@.len() == if old(self).thread <= old(self).open_list@.len() + fresh@.len() {
                old(self).thread as int
            } else {
                old(self).open_list@.len() + fresh@.len() as int
            },
            old(self).algorithm != Algorithm::Greedy ==> forall|s: int, t: int|
                #![trigger final(self).open_list@[t], next@[s]]
                0 <= s < next@.len() && 0 <= t < final(self).open_list@.len() ==> !final(self).nodes@[final(self).open_list@[t] as int].before(
                    &final(self).nodes@[next@[s] as int],
                ),
            old(self).algorithm == Algorithm::Greedy && next@.len() <= fresh@.len()
                ==> next@.to_multiset().subset_of(fresh@.to_multiset()),
            old(self).algorithm == Algorithm::Greedy && next@.len() < fresh@.len() ==> {
                &&& final(self).open_list@.subrange(0, old(self).open_list@.len() as int)
                    == old(self).open_list@
                &&& forall|s: int, u: int|
                    #![trigger final(self).open_list@[u], next@[s]]
                    0 <= s < next@.len() && old(self).open_list@.len() <= u
                        < final(self).open_list@.len() ==> !final(self).nodes@[final(self).open_list@[u] as int].before(
                        &final(self).nodes@[next@[s] as int],
                    )
            },
            old(self).algorithm == Algorithm::Greedy && next@.len() > fresh@.len() ==> {
                &&& fresh@.to_multiset().subset_of(next@.to_multiset())
                &&& forall|s: int, u: int|
                    #![trigger final(self).open_list@[u], next@[s]]
                    fresh@.len() <= s < next@.len() && 0 <= u < final(self).open_list@.len()
                        ==> !final(self).nodes@[final(self).open_list@[u] as int].before(
                        &final(self).nodes@[next@[s] as int],
                    )
            },
    {
        broadcast use vstd::seq_lib::group_to_multiset_ensures;
        broadcast use vstd::multiset::group_multiset_axioms;
        broadcast use vstd::multiset::lemma_multiset_empty_len;

        let ghost s0 = *self;
        let ghost total = s0.open_list@.to_multiset().add(fresh@.to_multiset());
        let mut next: Vec<usize> = Vec::new();
        let len_f = fresh.len();
        let len_o = self.open_list.len();
        proof {
            assert(total.len() == len_f + len_o);
        }
        match self.algorithm {
            Algorithm::Greedy => {
                let mut pool = fresh;
                let ghost mut taken_open = false;
                let mut k: usize = 0;
                while k < self.thread
                    invariant
                        self.wf(),
                        self.nodes == s0.nodes,
                        self.close_list == s0.close_list,
                        self.same_setup(&s0),
                        total == s0.open_list@.to_multiset().add(fresh@.to_multiset()),
                        total.len() == len_f + len_o,
                        len_f == fresh@.len(),
                        k <= self.thread,
                        next@.len() == k,
                        forall|t: int| 0 <= t < pool@.len() ==> #[trigger] pool@[t] < self.nodes@.len(),
                        forall|t: int| 0 <= t < next@.len() ==> #[trigger] next@[t] < self.nodes@.len(),
                        next@.to_multiset().add(pool@.to_multiset()).add(self.open_list@.to_multiset()) == total,
                        !taken_open ==> next@.to_multiset().add(pool@.to_multiset()) == fresh@.to_multiset(),
                        taken_open ==> pool@.len() == 0 && next@.len() > len_f,
                        !taken_open ==> self.open_list@ == s0.open_list@,
                        !taken_open ==> next@.len() + pool@.len() == len_f,
                        !taken_open ==> forall|s: int, u: int|
                            #![trigger pool@[u], next@[s]]
                            0 <= s < next@.len() && 0 <= u < pool@.len() ==> !self.nodes@[pool@[u] as int].before(
                                &self.nodes@[next@[s] as int],
                            ),
                        taken_open ==> fresh@.to_multiset().subset_of(next@.to_multiset()),
                        forall|s: int, u: int|
                            #![trigger self.open_list@[u], next@[s]]
                            len_f <= s < next@.len() && 0 <= u < self.open_list@.len() ==> !self.nodes@[self.open_list@[u] as int].before(
                                &self.nodes@[next@[s] as int],
                            ),
                    ensures
                        self.wf(),
                        self.nodes == s0.nodes,
                        self.close_list == s0.close_list,
                        self.same_setup(&s0),
                        forall|t: int| 0 <= t < pool@.len() ==> #[trigger] pool@[t] < self.nodes@.len(),
                        forall|t: int| 0 <= t < next@.len() ==> #[trigger] next@[t] < self.nodes@.len(),
                        next@.to_multiset().add(pool@.to_multiset()).add(self.open_list@.to_multiset()) == total,
                        next@.len() == self.thread || next@.len() == len_f + len_o,
                        next@.len() <= self.thread,
                        !taken_open ==> next@.to_multiset().add(pool@.to_multiset()) == fresh@.to_multiset(),
                        taken_open ==> pool@.len() == 0 && next@.len() > len_f,
                        !taken_open ==> self.open_list@ == s0.open_list@,
                        !taken_open ==> next@.len() + pool@.len() == len_f,
                        !taken_open ==> forall|s: int, u: int|
                            #![trigger pool@[u], next@[s]]
                            0 <= s < next@.len() && 0 <= u < pool@.len() ==> !self.nodes@[pool@[u] as int].before(
                                &self.nodes@[next@[s] as int],
                            ),
                        taken_open ==> fresh@.to_multiset().subset_of(next@.to_multiset()),
                        forall|s: int, u: int|
                            #![trigger self.open_list@[u], next@[s]]
                            len_f <= s < next@.len() && 0 <= u < self.open_list@.len() ==> !self.nodes@[self.open_list@[u] as int].before(
                                &self.nodes@[next@[s] as int],
                            ),
                    decreases self.thread - k,
                {
                    let ghost pool0 = pool@;
                    let ghost open0 = self.open_list@;
                    let ghost next0 = next@;
                    let ghost me = *self;
                    match take_best(&mut pool, &self.nodes) {
                        Some(v) => {
                            next.push(v);
                            proof {
                                let kk = choose|kk: int| 0 <= kk < pool0.len() && Some(v) == Some(pool0[kk]) && pool@ == pool0.remove(kk) && is_first(self.nodes@, pool0, self.nodes@[pool0[kk] as int]);
                                lemma_move_one(next0, pool0, kk);
                                assert(next@ == next0.push(pool0[kk]));
                                assert(self.open_list@ == open0);
                                assert(!taken_open);
                                assert forall|s: int, u: int|
                                    #![trigger pool@[u], next@[s]]
                                    0 <= s < next@.len() && 0 <= u < pool@.len() implies !self.nodes@[pool@[u] as int].before(
                                        &self.nodes@[next@[s] as int],
                                    ) by {
                                    let u0 = if u < kk { u } else { u + 1 };
                                    assert(pool@[u] == pool0[u0]);
                                    if s < next0.len() {
                                        assert(next@[s] == next0[s]);
                                    }
                                }
                                assert(next@.to_multiset().add(pool@.to_multiset()).add(self.open_list@.to_multiset()) =~= next0.to_multiset().add(pool0.to_multiset()).add(open0.to_multiset()));
                            }
                        },
                        None => {
                            match take_best(&mut self.open_list, &self.nodes) {
                                Some(v) => {
                                    next.push(v);
                                    proof {
                                        assert(pool0.len() == 0);
                                        assert(pool@ == pool0);
                                        pool@.to_multiset_ensures();
                                        assert(pool@.to_multiset().len() == 0);
                                        let kk = choose|kk: int| 0 <= kk < open0.len() && Some(v) == Some(open0[kk]) && self.open_list@ == open0.remove(kk) && is_first(self.nodes@, open0, self.nodes@[open0[kk] as int]);
                                        lemma_move_one(next0, open0, kk);
                                        assert(next@ == next0.push(open0[kk]));
                                        assert forall|s: int, u: int|
                                            #![trigger self.open_list@[u], next@[s]]
                                            len_f <= s < next@.len() && 0 <= u < self.open_list@.len() implies !self.nodes@[self.open_list@[u] as int].before(
                                                &self.nodes@[next@[s] as int],
                                            ) by {
                                            let u0 = if u < kk { u } else { u + 1 };
                                            assert(self.open_list@[u] == open0[u0]);
                                            if s < next0.len() {
                                                assert(next@[s] == next0[s]);
                                            }
                                        }
                                        assert(next@.to_multiset() == next0.to_multiset().insert(open0[kk])) by {
                                            next0.to_multiset_ensures();
                                        }
                                        assert(pool@.to_multiset() =~= Multiset::empty());
                                        assert(next@.to_multiset().add(self.open_list@.to_multiset()) == next0.to_multiset().add(open0.to_multiset()));
                                        assert forall|x: usize| #[trigger] next@.to_multiset().add(pool@.to_multiset()).add(self.open_list@.to_multiset()).count(x) == next0.to_multiset().add(pool0.to_multiset()).add(open0.to_multiset()).count(x) by {
                                            assert(next@.to_multiset().add(self.open_list@.to_multiset()).count(x) == next0.to_multiset().add(open0.to_multiset()).count(x));
                                        }
                                        assert(next@.to_multiset().add(pool@.to_multiset()).add(self.open_list@.to_multiset()) =~= next0.to_multiset().add(pool0.to_multiset()).add(open0.to_multiset()));
                                        if !taken_open {
                                            pool0.to_multiset_ensures();
                                            assert(next0.to_multiset() =~= fresh@.to_multiset());
                                            next0.to_multiset_ensures();
                                            fresh@.to_multiset_ensures();
                                            assert(next0.len() == len_f);
                                        }
                                        assert(fresh@.to_multiset().subset_of(next@.to_multiset()));
                                        taken_open = true;
                                        assert forall|t: int| 0 <= t < self.open_list@.len() implies #[trigger] self.open_list@[t] < self.nodes@.len() by {
                                            let t0 = if t < kk { t } else { t + 1 };
                                            assert(self.open_list@[t] == open0[t0]);
                                        }
                                        me.lemma_wf_frontier(self);
                                    }
                                },
                                None => {
                                    proof {
                                        me.lemma_wf_frontier(self);
                                        assert(pool0.len() == 0);
                                        assert(open0.len() == 0);
                                        pool@.to_multiset_ensures();
                                        assert(pool@.to_multiset().len() == 0);
                                        self.open_list@.to_multiset_ensures();
                                assert(self.open_list@.to_multiset().len() == 0);
                                        assert(pool@.to_multiset() =~= Multiset::empty());
                                        assert(self.open_list@.to_multiset() =~= Multiset::empty());
                                        assert(next@.to_multiset() =~= total);
                                        next@.to_multiset_ensures();
                                assert(next@.to_multiset().len() == total.len());
                                    }
                                    break;
                                },
                            }
                        },
                    }
                    k = k + 1;
                }
                proof {
                    if !taken_open {
                        assert(next@.to_multiset().subset_of(fresh@.to_multiset()));
                    }
                }
                let ghost open1 = self.open_list@;
                let ghost next1 = next@;
                let plen = pool.len();
                for t in 0..plen
                    invariant
                        self.wf(),
                        self.nodes == s0.nodes,
                        self.close_list == s0.close_list,
                        self.same_setup(&s0),
                        plen == pool@.len(),
                        forall|u: int| 0 <= u < pool@.len() ==> #[trigger] pool@[u] < self.nodes@.len(),
                        self.open_list@ == open1 + pool@.subrange(0, t as int),
                {
                    let ghost me = *self;
                    self.open_list.push(pool[t]);
                    proof {
                        assert(open1 + pool@.subrange(0, t + 1) =~= self.open_list@);
                        assert forall|u: int| 0 <= u < self.open_list@.len() implies #[trigger] self.open_list@[u] < self.nodes@.len() by {
                            if u < me.open_list@.len() {
                                assert(self.open_list@[u] == me.open_list@[u]);
                            }
                        }
                        me.lemma_wf_frontier(self);
                    }
                }
                proof {
                    assert(pool@.subrange(0, plen as int) =~= pool@);
                    vstd::seq_lib::lemma_multiset_commutative(open1, pool@);
                    assert(next@.to_multiset().add(self.open_list@.to_multiset()) =~= total);
                    if next@.len() < len_f {
                        assert(!taken_open);
                        assert(self.open_list@.subrange(0, len_o as int) =~= s0.open_list@);
                        assert forall|s: int, u: int|
                            #![trigger self.open_list@[u], next@[s]]
                            0 <= s < next@.len() && len_o <= u < self.open_list@.len() implies !self.nodes@[self.open_list@[u] as int].before(
                                &self.nodes@[next@[s] as int],
                            ) by {
                            assert(self.open_list@[u] == pool@[u - len_o]);
                        }
                    }
                    if next@.len() > len_f {
                        assert(taken_open);
                        assert(self.open_list@ =~= open1);
                    }
                }
            },
            _ => {
                let ghost open0 = self.open_list@;
                for t in 0..len_f
                    invariant
                        self.wf(),
                        self.nodes == s0.nodes,
                        self.close_list == s0.close_list,
                        self.same_setup(&s0),
                        len_f == fresh@.len(),
                        forall|u: int| 0 <= u < fresh@.len() ==> #[trigger] fresh@[u] < self.nodes@.len(),
                        self.open_list@ == open0 + fresh@.subrange(0, t as int),
                {
                    let ghost me = *self;
                    self.open_list.push(fresh[t]);
                    proof {
                        assert(open0 + fresh@.subrange(0, t + 1) =~= self.open_list@);
                        assert forall|u: int| 0 <= u < self.open_list@.len() implies #[trigger] self.open_list@[u] < self.nodes@.len() by {
                            if u < me.open_list@.len() {
                                assert(self.open_list@[u] == me.open_list@[u]);
                            }
                        }
                        me.lemma_wf_frontier(self);
                    }
                }
                proof {
                    assert(fresh@.subrange(0, len_f as int) =~= fresh@);
                    vstd::seq_lib::lemma_multiset_commutative(open0, fresh@);
                    assert(next@.to_multiset().add(self.open_list@.to_multiset()) =~= total);
                }
                let mut k: usize = 0;
                while k < self.thread
                    invariant
                        self.wf(),
                        self.nodes == s0.nodes,
                        self.close_list == s0.close_list,
                        self.same_setup(&s0),
                        self.algorithm != Algorithm::Greedy,
                        total.len() == len_f + len_o,
                        k <= self.thread,
                        next@.len() == k,
                        forall|t: int| 0 <= t < next@.len() ==> #[trigger] next@[t] < self.nodes@.len(),
                        next@.to_multiset().add(self.open_list@.to_multiset()) == total,
                        forall|s: int, t: int|
                            #![trigger self.open_list@[t], next@[s]]
                            0 <= s < next@.len() && 0 <= t < self.open_list@.len() ==> !self.nodes@[self.open_list@[t] as int].before(
                                &self.nodes@[next@[s] as int],
                            ),
                    ensures
                        self.wf(),
                        self.nodes == s0.nodes,
                        self.close_list == s0.close_list,
                        self.same_setup(&s0),
                        forall|t: int| 0 <= t < next@.len() ==> #[trigger] next@[t] < self.nodes@.len(),
                        next@.to_multiset().add(self.open_list@.to_multiset()) == total,
                        next@.len() == self.thread || next@.len() == len_f + len_o,
                        next@.len() <= self.thread,
                        forall|s: int, t: int|
                            #![trigger self.open_list@[t], next@[s]]
                            0 <= s < next@.len() && 0 <= t < self.open_list@.len() ==> !self.nodes@[self.open_list@[t] as int].before(
                                &self.nodes@[next@[s] as int],
                            ),
                    decreases self.thread - k,
                {
                    let ghost open1 = self.open_list@;
                    let ghost next0 = next@;
                    let ghost me = *self;
                    match take_best(&mut self.open_list, &self.nodes) {
                        Some(v) => {
                            next.push(v);
                            proof {
                                let kk = choose|kk: int| 0 <= kk < open1.len() && Some(v) == Some(open1[kk]) && self.open_list@ == open1.remove(kk) && is_first(self.nodes@, open1, self.nodes@[open1[kk] as int]);
                                lemma_move_one(next0, open1, kk);
                                assert(next@ == next0.push(open1[kk]));
                                assert forall|s: int, t: int|
                                    #![trigger self.open_list@[t], next@[s]]
                                    0 <= s < next@.len() && 0 <= t < self.open_list@.len() implies !self.nodes@[self.open_list@[t] as int].before(
                                        &self.nodes@[next@[s] as int],
                                    ) by {
                                    let t0 = if t < kk { t } else { t + 1 };
                                    assert(self.open_list@[t] == open1[t0]);
                                    if s < next0.len() {
                                        assert(next@[s] == next0[s]);
                                    }
                                }
                                assert forall|t: int| 0 <= t < self.open_list@.len() implies #[trigger] self.open_list@[t] < self.nodes@.len() by {
                                    let t0 = if t < kk { t } else { t + 1 };
                                    assert(self.open_list@[t] == open1[t0]);
                                }
                                me.lemma_wf_frontier(self);
                            }
                        },
                        None => {
                            proof {
                                me.lemma_wf_frontier(self);
                                assert(open1.len() == 0);
                                self.open_list@.to_multiset_ensures();
                                assert(self.open_list@.to_multiset().len() == 0);
                                assert(self.open_list@.to_multiset() =~= Multiset::empty());
                                assert(next@.to_multiset() =~= total);
                                next@.to_multiset_ensures();
                                assert(next@.to_multiset().len() == total.len());
                            }
                            break;
                        },
                    }
                    k = k + 1;
                }
            },
        }
        if self.open_list.len() > self.max_state {
            self.max_state = self.open_list.len();
        }
        proof {
            assert(next@.len() <= len_f + len_o) by {
                assert(next@.to_multiset().add(self.open_list@.to_multiset()).len() == total.len());
            }
            s0.lemma_wf_frontier(self);
        }
        next
    }

    /// The listed node holding the goal grid with the lowest priority, and
    /// among those the most moves (the first such in `currents`), if any.
    pub fn best_goal(&self, currents: &Vec<usize>) -> (r: Option<usize>)
        requires
            self.wf(),
            forall|t: int| 0 <= t < currents@.len() ==> #[trigger] currents@[t] < self.nodes@.len(),
        ensures
            r is None <==> forall|t: int|
                0 <= t < currents@.len() ==> grid_view(self.nodes@[#[trigger] currents@[t] as int].grid@)
                    != grid_view(self.goal@),
            r matches Some(c) ==> {
                &&& currents@.contains(c)
                &&& grid_view(self.nodes@[c as int].grid@) == grid_view(self.goal@)
                &&& forall|t: int|
                    0 <= t < currents@.len() && grid_view(
                        self.nodes@[#[trigger] currents@[t] as int].grid@,
                    ) == grid_view(self.goal@) ==> !self.goal_preferred(
                        self.nodes@[currents@[t] as int],
                        self.nodes@[c as int],
                    )
            },
    {
        let mut best: Option<usize> = None;
        let len = currents.len();
        for t in 0..len
            invariant
                self.wf(),
                len == currents@.len(),
                forall|u: int| 0 <= u < currents@.len() ==> #[trigger] currents@[u] < self.nodes@.len(),
                best is None <==> forall|u: int|
                    0 <= u < t ==> grid_view(self.nodes@[#[trigger] currents@[u] as int].grid@)
                        != grid_view(self.goal@),
                best matches Some(c) ==> {
                    &&& currents@.subrange(0, t as int).contains(c)
                    &&& grid_view(self.nodes@[c as int].grid@) == grid_view(self.goal@)
                    &&& forall|u: int|
                        0 <= u < t && grid_view(
                            self.nodes@[#[trigger] currents@[u] as int].grid@,
                        ) == grid_view(self.goal@) ==> !self.goal_preferred(
                            self.nodes@[currents@[u] as int],
                            self.nodes@[c as int],
                        )
                },
        {
            let c = currents[t];
            let ghost before = best;
            if same_grid(self.nodes[c].grid.as_slice(), self.goal.as_slice()) {
                let take = match best {
                    None => true,
                    Some(b) => self.nodes[c].f < self.nodes[b].f || (self.nodes[c].f
                        == self.nodes[b].f && self.nodes[c].g > self.nodes[b].g),
                };
                if take {
                    best = Some(c);
                }
            }
            proof {
                let s0 = currents@.subrange(0, t as int);
                let s1 = currents@.subrange(0, t + 1);
                assert(s1 =~= s0.push(c));
                if let Some(b2) = best {
                    if before == Some(b2) {
                        let w = choose|w: int| 0 <= w < s0.len() && s0[w] == b2;
                        assert(s1[w] == b2);
                    } else {
                        assert(b2 == c);
                        assert(s1[t as int] == c);
                    }
                }
            }
        }
        proof {
            assert(currents@.subrange(0, len as int) =~= currents@);
        }
        best
    }

    /// Goal node `a` is preferred to goal node `b`: a lower priority, or an
    /// equal one with more moves.
    pub open spec fn goal_preferred(&self, a: Node, b: Node) -> bool {
        a.f < b.f || (a.f == b.f && a.g > b.g)
    }

    /// The grids from the root to node `id`, following parent links.
    pub fn path_to(&self, id: usize) -> (path: Vec<Vec<Vec<i64>>>)
        requires
            self.wf(),
            id < self.nodes@.len(),
        ensures
            path@.len() == self.nodes@[id as int].g + 1,
            grid_view(path@[0]@) == grid_view(self.nodes@[0].grid@),
            grid_view(path@[path@.len() - 1]@) == grid_view(self.nodes@[id as int].grid@),
            forall|t: int|
                0 <= t < path@.len() - 1 ==> one_slide(
                    grid_view(#[trigger] path@[t]@),
                    grid_view(path@[t + 1]@),
                ),
    {
        // walk up from `id` to the root
        let mut chain: Vec<usize> = Vec::new();
        chain.push(id);
        let mut cur = id;
        proof {
            assert(self.node_ok(id as int));
        }
        while self.nodes[cur].parent.is_some()
            invariant
                self.wf(),
                cur < self.nodes@.len(),
                chain@.len() >= 1,
                chain@[0] == id,
                chain@[chain@.len() - 1] == cur,
                forall|t: int| 0 <= t < chain@.len() ==> #[trigger] chain@[t] < self.nodes@.len(),
                forall|t: int|
                    0 <= t < chain@.len() - 1 ==> self.nodes@[#[trigger] chain@[t] as int].parent
                        == Some(chain@[t + 1]),
                self.nodes@[cur as int].g + chain@.len() - 1 == self.nodes@[id as int].g,
            decreases cur,
        {
            proof {
                assert(self.node_ok(cur as int));
            }
            let p = match self.nodes[cur].parent {
                Some(p) => p,
                None => cur,
            };
            chain.push(p);
            cur = p;
        }
        proof {
            assert(self.node_ok(cur as int));
        }
        // the grids, root first
        let len = chain.len();
        let mut path: Vec<Vec<Vec<i64>>> = Vec::new();
        let mut k: usize = 0;
        while k < len
            invariant
                self.wf(),
                len == chain@.len(),
                len >= 1,
                k <= len,
                chain@[0] == id,
                chain@[len - 1] == 0,
                forall|t: int| 0 <= t < chain@.len() ==> #[trigger] chain@[t] < self.nodes@.len(),
                forall|t: int|
                    0 <= t < chain@.len() - 1 ==> self.nodes@[#[trigger] chain@[t] as int].parent
                        == Some(chain@[t + 1]),
                path@.len() == k,
                forall|t: int|
                    0 <= t < k ==> grid_view(#[trigger] path@[t]@) == grid_view(
                        self.nodes@[chain@[len - 1 - t] as int].grid@,
                    ),
            decreases len - k,
        {
            let node_id = chain[len - 1 - k];
            path.push(copy_grid(&self.nodes[node_id].grid));
            k = k + 1;
        }
        proof {
            assert forall|t: int| 0 <= t < path@.len() - 1 implies one_slide(
                grid_view(#[trigger] path@[t]@),
                grid_view(path@[t + 1]@),
            ) by {
                let c = chain@[len - 2 - t];
                assert(self.nodes@[c as int].parent == Some(chain@[len - 1 - t]));
                assert(self.node_ok(c as int));
            }
        }
        path
    }

    /// Runs rounds until a goal node is among the selected nodes, the frontier
    /// runs dry, or `max_iteration` rounds have passed. A solution holds the
    /// grids from the root to the goal, each one slide from the previous one.
    /// When the rounds run out, the nodes selected for the next round go back
    /// to the frontier, so the frontier is empty exactly when the search is
    /// exhausted.
    pub fn run(&mut self) -> (r: Outcome)
        requires
            old(self).wf(),
        ensures
            final(self).wf(),
            final(self).nodes@[0] == old(self).nodes@[0],
            final(self).goal == old(self).goal,
            final(self).close_list@.subrange(0, old(self).close_list@.len() as int) == old(
                self,
            ).close_list@,
            r matches Outcome::Solved(s) ==> {
                &&& s.path@.len() == s.moves + 1
                &&& grid_view(s.path@[0]@) == grid_view(old(self).nodes@[0].grid@)
                &&& grid_view(s.path@[s.path@.len() - 1]@) == grid_view(old(self).goal@)
                &&& forall|t: int|
                    0 <= t < s.path@.len() - 1 ==> one_slide(
                        grid_view(#[trigger] s.path@[t]@),
                        grid_view(s.path@[t + 1]@),
                    )
                &&& 1 <= s.iterations <= old(self).max_iteration
                &&& s.max_state == final(self).max_state
                &&& final(self).close_list@.len() >= old(self).close_list@.len() + s.iterations - 1
                &&& exists|c: int|
                    0 <= c < final(self).nodes@.len() && grid_view(final(self).nodes@[c].grid@)
                        == grid_view(old(self).goal@) && s.moves == final(self).nodes@[c].g
            },
            r is IterationLimit ==> final(self).close_list@.len() >= old(self).close_list@.len()
                + old(self).max_iteration,
            r is IterationLimit || r is Exhausted ==> forall|t: int|
                old(self).close_list@.len() <= t < final(self).close_list@.len() ==> grid_view(
                    final(self).nodes@[#[trigger] final(self).close_list@[t] as int].grid@,
                ) != grid_view(old(self).goal@),
            !(r is Solved) ==> (r is Exhausted <==> final(self).open_list@.len() == 0),
    {
        let ghost root = self.nodes@[0];
        let ghost goal0 = self.goal@;
        let ghost close0 = self.close_list@;
        let mut epochs: u64 = 0;
        let mut next: Vec<usize> = Vec::new();
        let ghost me = *self;
        match take_best(&mut self.open_list, &self.nodes) {
            Some(v) => {
                next.push(v);
            },
            None => {},
        }
        proof {
            assert forall|t: int| 0 <= t < self.open_list@.len() implies #[trigger] self.open_list@[t] < self.nodes@.len() by {
                let kk = choose|kk: int| 0 <= kk < me.open_list@.len() && self.open_list@ == me.open_list@.remove(kk);
                let t0 = if t < kk { t } else { t + 1 };
                assert(self.open_list@[t] == me.open_list@[t0]);
            }
            me.lemma_wf_frontier(self);
            assert(self.close_list@.subrange(0, close0.len() as int) =~= close0);
        }
        loop
            invariant
                self.wf(),
                self.nodes@[0] == root,
                self.goal@ == goal0,
                self.goal == old(self).goal,
                epochs <= self.max_iteration,
                self.max_iteration == old(self).max_iteration,
                root == old(self).nodes@[0],
                goal0 == old(self).goal@,
                close0 == old(self).close_list@,
                self.close_list@.subrange(0, close0.len() as int) == close0,
                self.close_list@.len() >= close0.len() + epochs,
                forall|t: int|
                    close0.len() <= t < self.close_list@.len() ==> grid_view(
                        self.nodes@[#[trigger] self.close_list@[t] as int].grid@,
                    ) != grid_view(goal0),
                forall|t: int| 0 <= t < next@.len() ==> #[trigger] next@[t] < self.nodes@.len(),
                next@.len() == 0 ==> self.open_list@.len() == 0,
            decreases self.max_iteration - epochs,
        {
            if next.len() == 0 {
                return Outcome::Exhausted;
            }
            if epochs >= self.max_iteration {
                // the selected nodes go back to the frontier
                let ghost open0 = self.open_list@;
                let ghost close_b = self.close_list@;
                let ghost nodes_b = self.nodes@;
                let nlen = next.len();
                for t in 0..nlen
                    invariant
                        self.wf(),
                        self.close_list@ == close_b,
                        self.nodes@ == nodes_b,
                        self.max_iteration == old(self).max_iteration,
                        close0 == old(self).close_list@,
                        goal0 == old(self).goal@,
                        close_b.len() >= close0.len() + self.max_iteration,
                        forall|u: int|
                            close0.len() <= u < close_b.len() ==> grid_view(
                                nodes_b[#[trigger] close_b[u] as int].grid@,
                            ) != grid_view(goal0),
                        self.nodes@[0] == root,
                        self.goal == old(self).goal,
                        self.close_list@.subrange(0, close0.len() as int) == close0,
                        nlen == next@.len(),
                        nlen > 0,
                        forall|u: int| 0 <= u < next@.len() ==> #[trigger] next@[u] < self.nodes@.len(),
                        self.open_list@ == open0 + next@.subrange(0, t as int),
                {
                    let ghost me2 = *self;
                    self.open_list.push(next[t]);
                    proof {
                        assert(open0 + next@.subrange(0, t + 1) =~= self.open_list@);
                        assert forall|u: int| 0 <= u < self.open_list@.len() implies #[trigger] self.open_list@[u] < self.nodes@.len() by {
                            if u < me2.open_list@.len() {
                                assert(self.open_list@[u] == me2.open_list@[u]);
                            }
                        }
                        me2.lemma_wf_frontier(self);
                    }
                }
                proof {
                    assert(self.open_list@.len() == open0.len() + nlen);
                }
                return Outcome::IterationLimit;
            }
            epochs = epochs + 1;
            match self.best_goal(&next) {
                Some(c) => {
                    let path = self.path_to(c);
                    let moves = self.nodes[c].g;
                    return Outcome::Solved(
                        Solution { path, moves, iterations: epochs, max_state: self.max_state },
                    );
                },
                None => {},
            }
            let ghost close_pre = self.close_list@;
            let ghost nodes_pre = self.nodes@;
            let fresh = self.expand(&next);
            proof {
                assert(self.nodes@[0] == nodes_pre[0]);
                assert(self.close_list@.subrange(0, close0.len() as int) =~= close0) by {
                    assert(close_pre.subrange(0, close0.len() as int) == close0);
                }
                assert forall|t: int|
                    close0.len() <= t < self.close_list@.len() implies grid_view(
                    self.nodes@[#[trigger] self.close_list@[t] as int].grid@,
                ) != grid_view(goal0) by {
                    let id = self.close_list@[t];
                    if t < close_pre.len() {
                        assert(id == close_pre[t]);
                    } else {
                        assert(id == next@[t - close_pre.len()]);
                    }
                    assert(id < nodes_pre.len());
                    assert(self.nodes@[id as int] == self.nodes@.subrange(0, nodes_pre.len() as int)[id as int]);
                }
            }
            let ghost open_pre = self.open_list@;
            let ghost fresh_v = fresh@;
            next = self.select(fresh);
            proof {
                broadcast use vstd::multiset::group_multiset_axioms;

                if next@.len() == 0 {
                    self.open_list@.to_multiset_ensures();
                    next@.to_multiset_ensures();
                    open_pre.to_multiset_ensures();
                    fresh_v.to_multiset_ensures();
                    assert(open_pre.len() + fresh_v.len() == 0);
                    assert(next@.to_multiset().add(self.open_list@.to_multiset()).len() == 0);
                }
            }
        }
    }

    /// Sets up a search: reads the board text `arg`, builds the goal, checks
    /// that the goal can be reached, prepares the strategy and puts the root
    /// node, the board itself, alone on the frontier.
    pub fn new(
        arg: String,
        heuristique: Heuristique,
        algorithm: Algorithm,
        strategy: String,
        goal: Goal,
        max_iteration: u64,
        debug: bool,
        thread: usize,
    ) -> (r: Result<NPuzzle, PuzzleError>)
        requires
            thread >= 1,
        ensures
            board_of(arg@) is Err <==> r matches Err(PuzzleError::File(_)),
            r matches Err(PuzzleError::File(e)) ==> board_of(arg@) == Err::<
                (i64, Seq<Seq<i64>>),
                FileParsingError,
            >(e),
            r == Err::<NPuzzle, PuzzleError>(PuzzleError::TooLarge) <==> (board_of(arg@) matches Ok(
                (n, _),
            ) && n > MAX_SIDE),
            setup_possible(arg@, goal, lower_of(strategy@)) ==> r is Ok,
            r matches Ok(p) ==> {
                &&& p.wf()
                &&& board_of(arg@) == Ok::<(i64, Seq<Seq<i64>>), FileParsingError>(
                    (p.size, grid_view(p.nodes@[0].grid@)),
                )
                &&& goal.layout(p.size as int, p.nodes@[0].grid@) == Some(grid_view(p.goal@))
                &&& solvable_law(p.nodes@[0].grid@, p.goal@)
                &&& p.nodes@.len() == 1
                &&& p.nodes@[0].parent is None
                &&& p.nodes@[0].g == 0
                &&& p.nodes@[0].h == p.strategy.score(p.nodes@[0].grid@, p.goal@)
                &&& p.open_list@ == seq![0usize]
                &&& p.close_list@.len() == 0
                &&& p.algorithm == algorithm
                &&& p.strategy.heuristic() == heuristique
                &&& kind_named(lower_of(strategy@), p.strategy)
                &&& match p.strategy {
                    Strategy::Standard(_) => true,
                    Strategy::Sandwich(w, _) => is_weight_table(
                        w@,
                        p.size as int,
                        |i: int, j: int| sandwich_weight(p.goal@, i, j),
                    ),
                    Strategy::Cross(w, _) => is_weight_table(
                        w@,
                        p.size as int,
                        |i: int, j: int| cross_weight(p.goal@, i, j),
                    ),
                }
                &&& p.max_state == 0
                &&& p.max_iteration == max_iteration
                &&& p.debug == debug
                &&& p.thread == thread
            },
            r == Err::<NPuzzle, PuzzleError>(PuzzleError::GoalMismatch) ==> exists|m: Seq<Vec<i64>>|
                board_of(arg@) == Ok::<(i64, Seq<Seq<i64>>), FileParsingError>(
                    (m.len() as i64, grid_view(m)),
                ) && m.len() <= MAX_SIDE && !(goal.layout(m.len() as int, m) matches Some(l)
                    && flat(l).to_multiset() == cells(m).to_multiset()),
            r == Err::<NPuzzle, PuzzleError>(PuzzleError::Unsolvable) ==> exists|
                m: Seq<Vec<i64>>,
                g: Seq<Vec<i64>>,
            |
                board_of(arg@) == Ok::<(i64, Seq<Seq<i64>>), FileParsingError>(
                    (m.len() as i64, grid_view(m)),
                ) && m.len() <= MAX_SIDE && goal.layout(m.len() as int, m) == Some(grid_view(g))
                    && flat(grid_view(g)).to_multiset() == cells(m).to_multiset() && !solvable_law(
                    m,
                    g,
                ),
            r == Err::<NPuzzle, PuzzleError>(PuzzleError::UnknownStrategy) ==> !known_strategy(
                lower_of(strategy@),
            ),
    {
        let (size, initial) = match parse_file(arg) {
            Ok(v) => v,
            Err(e) => {
                return Err(PuzzleError::File(e));
            },
        };
        if size > MAX_SIDE as i64 {
            return Err(PuzzleError::TooLarge);
        }
        proof {
            let b = grid_view(initial@);
            assert(b.len() == initial@.len());
            assert forall|i: int| 0 <= i < initial@.len() implies #[trigger] initial@[i]@.len()
                == initial@.len() by {
                assert(b[i] == initial@[i]@);
                assert(b[i].len() == size);
            }
            assert(well_sized(initial@));
        }
        let goal_grid = match goal.generate(size, &initial) {
            Some(g) => g,
            None => {
                proof {
                    let b = board_of(arg@)->Ok_0.1;
                    assert forall|m: Seq<Vec<i64>>, g: Seq<Vec<i64>>|
                        grid_view(m) == b implies !(goal.layout(m.len() as int, m) == Some(
                        grid_view(g),
                    ) && flat(grid_view(g)).to_multiset() == cells(m).to_multiset()) by {
                        lemma_cells_by_contents(m, initial@);
                        assert(m.len() == grid_view(m).len());
                        assert(goal.layout(m.len() as int, m) == goal.layout(
                            size as int,
                            initial@,
                        ));
                    }
                    assert(!setup_possible(arg@, goal, lower_of(strategy@)));
                }
                return Err(PuzzleError::GoalMismatch);
            },
        };
        proof {
            lemma_cells_flat(goal_grid@);
            lemma_same_tiles(initial@, goal_grid@);
        }
        if !solvable(initial.as_slice(), goal_grid.as_slice()) {
            proof {
                let b = board_of(arg@)->Ok_0.1;
                assert forall|m: Seq<Vec<i64>>, g: Seq<Vec<i64>>|
                    grid_view(m) == b && goal.layout(m.len() as int, m) == Some(grid_view(g))
                        implies !solvable_law(m, g) by {
                    lemma_cells_by_contents(m, initial@);
                    assert(m.len() == grid_view(m).len());
                    assert(goal.layout(m.len() as int, m) == goal.layout(size as int, initial@));
                    lemma_solvable_by_contents(m, g, initial@, goal_grid@);
                }
                assert(!setup_possible(arg@, goal, lower_of(strategy@)));
            }
            return Err(PuzzleError::Unsolvable);
        }
        let mut strat = match Strategy::parse(strategy, heuristique) {
            Some(st) => st,
            None => {
                return Err(PuzzleError::UnknownStrategy);
            },
        };
        strat.init(&goal_grid);
        let ghost init_cells = initial@;
        proof {
            assert forall|i: int, j: int|
                0 <= i < initial@.len() && 0 <= j < initial@.len() implies holds(
                goal_grid@,
                #[trigger] initial@[i]@[j],
            ) by {
                let v = initial@[i]@[j];
                assert(holds(initial@, v));
                lemma_cells_contains(initial@, v);
                cells(initial@).to_multiset_ensures();
                cells(goal_grid@).to_multiset_ensures();
                assert(cells(goal_grid@).to_multiset().count(v) > 0);
                lemma_cells_contains(goal_grid@, v);
            }
        }
        let arena: Vec<Node> = Vec::new();
        let root = Node::new(initial, None, &arena, &goal_grid, &algorithm, &strat);
        let mut nodes: Vec<Node> = Vec::new();
        nodes.push(root);
        let mut open_list: Vec<usize> = Vec::new();
        open_list.push(0);
        let p = NPuzzle {
            size,
            goal: goal_grid,
            algorithm,
            strategy: strat,
            nodes,
            open_list,
            close_list: Vec::new(),
            max_state: 0,
            max_iteration,
            debug,
            thread,
        };
        proof {
            assert(p.node_ok(0));
            assert(p.open_list@ =~= seq![0usize]);
        }
        Ok(p)
    }
}

/// The lists of `b`, one after the other.
pub open spec fn laid_end_to_end(b: Seq<Seq<Node>>) -> Seq<Node>
    decreases b.len(),
{
    if b.len() == 0 {
        seq![]
    } else {
        laid_end_to_end(b.drop_last()) + b.last()
    }
}

/// Node `nd` comes strictly before no node of `list`.
pub open spec fn is_first(nodes: Seq<Node>, list: Seq<usize>, nd: Node) -> bool {
    forall|t: int| 0 <= t < list.len() ==> !(#[trigger] nodes[list[t] as int]).before(&nd)
}

/// Takes out of `list` the first of its nodes in frontier order (the earliest
/// entry among equals), if `list` is not empty.
pub fn take_best(list: &mut Vec<usize>, nodes: &Vec<Node>) -> (r: Option<usize>)
    requires
        forall|t: int| 0 <= t < old(list)@.len() ==> #[trigger] old(list)@[t] < nodes@.len(),
    ensures
        old(list)@.len() == 0 ==> r is None && final(list)@ == old(list)@,
        old(list)@.len() > 0 ==> exists|k: int|
            0 <= k < old(list)@.len() && r == Some(old(list)@[k]) && final(list)@ == old(
                list,
            )@.remove(k) && is_first(nodes@, old(list)@, nodes@[old(list)@[k] as int]),
{
    if list.len() == 0 {
        return None;
    }
    let mut best: usize = 0;
    let len = list.len();
    for t in 1..len
        invariant
            len == list@.len(),
            list@ == old(list)@,
            best < len,
            forall|u: int| 0 <= u < old(list)@.len() ==> #[trigger] old(list)@[u] < nodes@.len(),
            forall|u: int|
                0 <= u < t ==> !(#[trigger] nodes@[list@[u] as int]).before(
                    &nodes@[list@[best as int] as int],
                ),
    {
        if nodes[list[t]].is_before(&nodes[list[best]]) {
            best = t;
        }
    }
    let v = list.remove(best);
    Some(v)
}


/// Moving the entry at `kk` of `b` to the end of `a` keeps the two lists'
/// entries together.
proof fn lemma_move_one(a: Seq<usize>, b: Seq<usize>, kk: int)
    requires
        0 <= kk < b.len(),
    ensures
        a.push(b[kk]).to_multiset().add(b.remove(kk).to_multiset()) == a.to_multiset().add(
            b.to_multiset(),
        ),
{
    broadcast use vstd::seq_lib::group_to_multiset_ensures;
    broadcast use vstd::multiset::group_multiset_axioms;

    assert(b.to_multiset().count(b[kk]) > 0) by {
        assert(b.contains(b[kk]));
    }
    assert(a.push(b[kk]).to_multiset().add(b.remove(kk).to_multiset()) =~= a.to_multiset().add(
        b.to_multiset(),
    ));
}

} // verus!
