//! Heuristic evaluators: per-cell estimates of the distance between a grid
//! and the goal grid.

use vstd::prelude::*;

use crate::strategy::{lemma_goal_scores_zero, lemma_score_by_contents, Strategy};
use crate::utils::{
    distinct_values, find_nb, grid_view, holds, is_text, locate, lower_of, lowercase, well_sized,
};

verus! {

/// The heuristic that scores a grid against the goal.
#[derive(Clone, Copy, Debug, PartialEq, Eq, Structural)]
pub enum Heuristique {
    Hamming,
    Manhattan,
    LinearConflict,
}

pub open spec fn abs(x: int) -> int {
    if x < 0 {
        -x
    } else {
        x
    }
}

/// Taxicab distance from cell `(i, j)` to where the goal holds `y`.
pub open spec fn goal_distance(goal: Seq<Vec<i64>>, i: int, j: int, y: i64) -> int {
    abs(i - locate(goal, y).0) + abs(j - locate(goal, y).1)
}

/// Every value of `grid` occurs in `goal`, and both have the same side.
pub open spec fn comparable(grid: Seq<Vec<i64>>, goal: Seq<Vec<i64>>) -> bool {
    &&& well_sized(grid)
    &&& well_sized(goal)
    &&& grid.len() == goal.len()
    &&& forall|i: int, j: int|
        0 <= i < grid.len() && 0 <= j < grid.len() ==> holds(goal, #[trigger] grid[i]@[j])
}

/// Hamming share of cell `(i, j)`: 1 for a tile not where the goal has it.
pub open spec fn hamming_cell(grid: Seq<Vec<i64>>, goal: Seq<Vec<i64>>, i: int, j: int) -> int {
    let y = grid[i]@[j];
    if y != 0 && goal[i]@[j] != y {
        1
    } else {
        0
    }
}

/// Manhattan share of cell `(i, j)`: the tile's taxicab distance to its goal cell.
pub open spec fn manhattan_cell(grid: Seq<Vec<i64>>, goal: Seq<Vec<i64>>, i: int, j: int) -> int {
    let y = grid[i]@[j];
    if y != 0 {
        goal_distance(goal, i, j, y)
    } else {
        0
    }
}

/// Linear-conflict share of cell `(i, j)`: the Manhattan share, plus one for a
/// tile that sits on exactly one of its goal row and goal column, more than one
/// step away from its goal cell.
pub open spec fn conflict_cell(grid: Seq<Vec<i64>>, goal: Seq<Vec<i64>>, i: int, j: int) -> int {
    let y = grid[i]@[j];
    let (a, b) = locate(goal, y);
    manhattan_cell(grid, goal, i, j) + if y != 0 && ((i == a) != (j == b)) && goal_distance(
        goal,
        i,
        j,
        y,
    ) != 1 {
        1int
    } else {
        0int
    }
}

/// Share of cell `(i, j)` under heuristic `h`.
pub open spec fn cell_cost(
    h: Heuristique,
    grid: Seq<Vec<i64>>,
    goal: Seq<Vec<i64>>,
    i: int,
    j: int,
) -> int {
    match h {
        Heuristique::Hamming => hamming_cell(grid, goal, i, j),
        Heuristique::Manhattan => manhattan_cell(grid, goal, i, j),
        Heuristique::LinearConflict => conflict_cell(grid, goal, i, j),
    }
}

/// `m` is an `n` by `n` table whose cell `(i, j)` is `h`'s share of that cell.
pub open spec fn is_cost_table(
    m: Seq<Vec<u64>>,
    h: Heuristique,
    grid: Seq<Vec<i64>>,
    goal: Seq<Vec<i64>>,
) -> bool {
    &&& m.len() == grid.len()
    &&& forall|i: int| 0 <= i < m.len() ==> #[trigger] m[i]@.len() == grid.len()
    &&& forall|i: int, j: int|
        0 <= i < m.len() && 0 <= j < grid.len() ==> #[trigger] m[i]@[j] == cell_cost(
            h,
            grid,
            goal,
            i,
            j,
        )
}

/// Every entry of the table is at most `bound`.
pub open spec fn bounded_table(m: Seq<Vec<u64>>, bound: int) -> bool {
    forall|i: int, j: int| 0 <= i < m.len() && 0 <= j < m[i]@.len() ==> #[trigger] m[i]@[j] <= bound
}

/// `|i - a|` for a cell index and a coordinate found in the goal.
fn gap(i: usize, a: i32) -> (r: u64)
    requires
        i <= crate::utils::MAX_SIDE,
        0 <= a <= crate::utils::MAX_SIDE,
    ensures
        r as int == abs(i - a),
{
    let d = i as i64 - a as i64;
    if d < 0 {
        (-d) as u64
    } else {
        d as u64
    }
}

/// The heuristic a lower-case name stands for.
pub open spec fn heuristic_named(l: Seq<char>) -> Option<Heuristique> {
    if l == "hamming"@ {
        Some(Heuristique::Hamming)
    } else if l == "std"@ || l == "manhattan"@ {
        Some(Heuristique::Manhattan)
    } else if l == "linearconflict"@ {
        Some(Heuristique::LinearConflict)
    } else {
        None
    }
}

proof fn lemma_table_zero_on_goal(
    m: Seq<Vec<u64>>,
    h: Heuristique,
    grid: Seq<Vec<i64>>,
    goal: Seq<Vec<i64>>,
)
    requires
        is_cost_table(m, h, grid, goal),
        comparable(grid, goal),
        grid_view(grid) == grid_view(goal),
        distinct_values(goal),
    ensures
        bounded_table(m, 0),
{
    lemma_score_by_contents(Strategy::Standard(h), grid, goal, goal, goal);
    lemma_goal_scores_zero(Strategy::Standard(h), goal);
    assert forall|i: int, j: int| 0 <= i < m.len() && 0 <= j < m[i]@.len() implies #[trigger] m[i]@[j]
        <= 0 by {
        assert(cell_cost(h, grid, goal, i, j) == cell_cost(h, goal, goal, i, j));
    }
}

impl Heuristique {
    /// The heuristic named `l` (already in lower case), if any.
    pub fn from_name(l: &String) -> (r: Option<Heuristique>)
        ensures
            r == heuristic_named(l@),
    {
        if is_text(l, "hamming") {
            Some(Heuristique::Hamming)
        } else if is_text(l, "std") || is_text(l, "manhattan") {
            Some(Heuristique::Manhattan)
        } else if is_text(l, "linearconflict") {
            Some(Heuristique::LinearConflict)
        } else {
            None
        }
    }

    /// The heuristic named `s`, in any case, if any.
    pub fn parse(s: String) -> (r: Option<Heuristique>)
        ensures
            r == heuristic_named(lower_of(s@)),
    {
        let l = lowercase(s.as_str());
        Self::from_name(&l)
    }

    /// Table of every cell's share of the estimate for `grid` against `goal`.
    pub fn process_h(&self, goal: &[Vec<i64>], grid: &[Vec<i64>]) -> (r: Vec<Vec<u64>>)
        requires
            comparable(grid@, goal@),
        ensures
            is_cost_table(r@, *self, grid@, goal@),
            bounded_table(r@, 2 * crate::utils::MAX_SIDE + 1),
            grid_view(grid@) == grid_view(goal@) && distinct_values(goal@) ==> bounded_table(r@, 0),
    {
        match self {
            Heuristique::Hamming => Self::process_hamming(grid, goal),
            Heuristique::Manhattan => Self::process_manhattan(grid, goal),
            Heuristique::LinearConflict => Self::process_linearconflict(grid, goal),
        }
    }

    /// Hamming shares: 1 for each non-empty tile not where the goal has it.
    pub fn process_hamming(grid: &[Vec<i64>], goal: &[Vec<i64>]) -> (r: Vec<Vec<u64>>)
        requires
            comparable(grid@, goal@),
        ensures
            is_cost_table(r@, Heuristique::Hamming, grid@, goal@),
            bounded_table(r@, 1),
            grid_view(grid@) == grid_view(goal@) && distinct_values(goal@) ==> bounded_table(r@, 0),
    {
        let n = grid.len();
        let mut res: Vec<Vec<u64>> = Vec::new();
        for i in 0..n
            invariant
                n == grid@.len(),
                comparable(grid@, goal@),
                res@.len() == i,
                forall|k: int| 0 <= k < i ==> #[trigger] res@[k]@.len() == n,
                forall|k: int, j: int|
                    0 <= k < i && 0 <= j < n ==> #[trigger] res@[k]@[j] == cell_cost(
                        Heuristique::Hamming,
                        grid@,
                        goal@,
                        k,
                        j,
                    ),
                forall|k: int, j: int| 0 <= k < i && 0 <= j < n ==> #[trigger] res@[k]@[j] <= 1,
        {
            let mut row: Vec<u64> = Vec::new();
            for j in 0..n
                invariant
                    n == grid@.len(),
                    i < n,
                    comparable(grid@, goal@),
                    row@.len() == j,
                    forall|l: int|
                        0 <= l < j ==> #[trigger] row@[l] == cell_cost(
                            Heuristique::Hamming,
                            grid@,
                            goal@,
                            i as int,
                            l,
                        ),
                    forall|l: int| 0 <= l < j ==> #[trigger] row@[l] <= 1,
            {
                let y = grid[i][j];
                if y != 0 && goal[i][j] != y {
                    row.push(1);
                } else {
                    row.push(0);
                }
            }
            res.push(row);
        }
        proof {
            if grid_view(grid@) == grid_view(goal@) && distinct_values(goal@) {
                lemma_table_zero_on_goal(res@, Heuristique::Hamming, grid@, goal@);
            }
        }
        res
    }

    /// Manhattan shares: each tile's taxicab distance to its goal cell.
    pub fn process_manhattan(grid: &[Vec<i64>], goal: &[Vec<i64>]) -> (r: Vec<Vec<u64>>)
        requires
            comparable(grid@, goal@),
        ensures
            is_cost_table(r@, Heuristique::Manhattan, grid@, goal@),
            forall|i: int, j: int|
                0 <= i < grid@.len() && 0 <= j < grid@.len() ==> #[trigger] r@[i]@[j] <= 2
                    * crate::utils::MAX_SIDE,
            grid_view(grid@) == grid_view(goal@) && distinct_values(goal@) ==> bounded_table(r@, 0),
    {
        let n = grid.len();
        let mut res: Vec<Vec<u64>> = Vec::new();
        for i in 0..n
            invariant
                n == grid@.len(),
                comparable(grid@, goal@),
                res@.len() == i,
                forall|k: int| 0 <= k < i ==> #[trigger] res@[k]@.len() == n,
                forall|k: int, j: int|
                    0 <= k < i && 0 <= j < n ==> #[trigger] res@[k]@[j] == cell_cost(
                        Heuristique::Manhattan,
                        grid@,
                        goal@,
                        k,
                        j,
                    ),
                forall|k: int, j: int|
                    0 <= k < i && 0 <= j < n ==> #[trigger] res@[k]@[j] <= 2
                        * crate::utils::MAX_SIDE,
        {
            let mut row: Vec<u64> = Vec::new();
            for j in 0..n
                invariant
                    n == grid@.len(),
                    i < n,
                    comparable(grid@, goal@),
                    row@.len() == j,
                    forall|l: int|
                        0 <= l < j ==> #[trigger] row@[l] == cell_cost(
                            Heuristique::Manhattan,
                            grid@,
                            goal@,
                            i as int,
                            l,
                        ),
                    forall|l: int| 0 <= l < j ==> #[trigger] row@[l] <= 2 * crate::utils::MAX_SIDE,
            {
                let y = grid[i][j];
                if y != 0 {
                    let (a, b) = find_nb(y, goal);
                    proof {
                        assert(holds(goal@, grid@[i as int]@[j as int]));
                    }
                    row.push(gap(i, a) + gap(j, b));
                } else {
                    row.push(0);
                }
            }
            res.push(row);
        }
        proof {
            if grid_view(grid@) == grid_view(goal@) && distinct_values(goal@) {
                lemma_table_zero_on_goal(res@, Heuristique::Manhattan, grid@, goal@);
            }
        }
        res
    }

    /// Linear-conflict shares: the Manhattan share, plus one for a tile on
    /// exactly one of its goal row and column, more than one step away.
    pub fn process_linearconflict(grid: &[Vec<i64>], goal: &[Vec<i64>]) -> (r: Vec<Vec<u64>>)
        requires
            comparable(grid@, goal@),
        ensures
            is_cost_table(r@, Heuristique::LinearConflict, grid@, goal@),
            bounded_table(r@, 2 * crate::utils::MAX_SIDE + 1),
            grid_view(grid@) == grid_view(goal@) && distinct_values(goal@) ==> bounded_table(r@, 0),
            forall|i: int, j: int|
                0 <= i < grid@.len() && 0 <= j < grid@.len() ==> #[trigger] r@[i]@[j] >= manhattan_cell(
                    grid@,
                    goal@,
                    i,
                    j,
                ),
    {
        let tmp_vec = Self::process_manhattan(grid, goal);
        let n = grid.len();
        let mut res: Vec<Vec<u64>> = Vec::new();
        for i in 0..n
            invariant
                n == grid@.len(),
                comparable(grid@, goal@),
                is_cost_table(tmp_vec@, Heuristique::Manhattan, grid@, goal@),
                forall|i: int, j: int|
                    0 <= i < n && 0 <= j < n ==> #[trigger] tmp_vec@[i]@[j] <= 2
                        * crate::utils::MAX_SIDE,
                res@.len() == i,
                forall|k: int| 0 <= k < i ==> #[trigger] res@[k]@.len() == n,
                forall|k: int, j: int|
                    0 <= k < i && 0 <= j < n ==> #[trigger] res@[k]@[j] == cell_cost(
                        Heuristique::LinearConflict,
                        grid@,
                        goal@,
                        k,
                        j,
                    ),
                forall|k: int, j: int|
                    0 <= k < i && 0 <= j < n ==> #[trigger] res@[k]@[j] <= 2
                        * crate::utils::MAX_SIDE + 1,
        {
            let mut row: Vec<u64> = Vec::new();
            for j in 0..n
                invariant
                    n == grid@.len(),
                    i < n,
                    comparable(grid@, goal@),
                    is_cost_table(tmp_vec@, Heuristique::Manhattan, grid@, goal@),
                    forall|i: int, j: int|
                        0 <= i < n && 0 <= j < n ==> #[trigger] tmp_vec@[i]@[j] <= 2
                            * crate::utils::MAX_SIDE,
                    row@.len() == j,
                    forall|l: int|
                        0 <= l < j ==> #[trigger] row@[l] == cell_cost(
                            Heuristique::LinearConflict,
                            grid@,
                            goal@,
                            i as int,
                            l,
                        ),
                    forall|l: int|
                        0 <= l < j ==> #[trigger] row@[l] <= 2 * crate::utils::MAX_SIDE + 1,
            {
                let y = grid[i][j];
                let base = tmp_vec[i][j];
                proof {
                    assert(holds(goal@, grid@[i as int]@[j as int]));
                }
                let (a, b) = find_nb(y, goal);
                if y != 0 && ((i as i64 == a as i64) != (j as i64 == b as i64)) {
                    if gap(i, a) + gap(j, b) != 1 {
                        row.push(1 + base);
                    } else {
                        row.push(base);
                    }
                } else {
                    row.push(base);
                }
            }
            res.push(row);
        }
        proof {
            if grid_view(grid@) == grid_view(goal@) && distinct_values(goal@) {
                lemma_table_zero_on_goal(res@, Heuristique::LinearConflict, grid@, goal@);
            }
        }
        res
    }
}

} // verus!
