//! Scoring strategies: a heuristic, optionally weighted per cell by the
//! cell's ring distance from the goal's empty cell.

use vstd::prelude::*;

use crate::heuristique::{
    abs, bounded_table, cell_cost, comparable, conflict_cell, is_cost_table, manhattan_cell,
    Heuristique,
};
use crate::utils::{
    distinct_values, find_nb, grid_view, is_text, lemma_locate_by_contents,
    lemma_locate_own, locate, lower_of, lowercase, well_sized, MAX_SIDE,
};

verus! {

/// How a heuristic's per-cell shares are combined into one estimate.
#[derive(Debug)]
pub enum Strategy {
    /// The plain sum of the shares.
    Standard(Heuristique),
    /// Each share times the square of the cell's weight (Chebyshev rings).
    Sandwich(Vec<Vec<u64>>, Heuristique),
    /// Each share times the cell's weight (Manhattan rings).
    Cross(Vec<Vec<u64>>, Heuristique),
}

/// Largest weight a table can hold.
pub open spec fn max_weight() -> int {
    2 * MAX_SIDE + 1
}

/// Largest share a single cell can add to an estimate.
pub open spec fn max_term() -> int {
    max_weight() * max_weight() * max_weight()
}

proof fn lemma_max_term()
    ensures
        max_weight() == 511,
        max_term() == 133432831,
{
    assert(max_weight() * max_weight() * max_weight() == 133432831) by (nonlinear_arith)
        requires
            max_weight() == 511,
    ;
}

/// Chebyshev ring weight of cell `(i, j)`: one more than its ring distance from
/// the goal's empty cell.
pub open spec fn sandwich_weight(goal: Seq<Vec<i64>>, i: int, j: int) -> int {
    let (x, y) = locate(goal, 0);
    1 + if abs(i - x) >= abs(j - y) {
        abs(i - x)
    } else {
        abs(j - y)
    }
}

/// Manhattan ring weight of cell `(i, j)`: one more than its taxicab distance
/// from the goal's empty cell.
pub open spec fn cross_weight(goal: Seq<Vec<i64>>, i: int, j: int) -> int {
    let (x, y) = locate(goal, 0);
    1 + abs(i - x) + abs(j - y)
}

/// `w` is the `n` by `n` table of `weight` over the goal.
pub open spec fn is_weight_table(
    w: Seq<Vec<u64>>,
    n: int,
    weight: spec_fn(int, int) -> int,
) -> bool {
    &&& w.len() == n
    &&& forall|i: int| 0 <= i < n ==> #[trigger] w[i]@.len() == n
    &&& forall|i: int, j: int| 0 <= i < n && 0 <= j < n ==> #[trigger] w[i]@[j] == weight(i, j)
}

/// The lower-case name `l` names a strategy.
pub open spec fn known_strategy(l: Seq<char>) -> bool {
    l == "standard"@ || l == "std"@ || l == "sandwich"@ || l == "cross"@
}

/// `st` is of the kind that the lower-case name `l` names.
pub open spec fn kind_named(l: Seq<char>, st: Strategy) -> bool {
    match st {
        Strategy::Standard(_) => l == "standard"@ || l == "std"@,
        Strategy::Sandwich(_, _) => l == "sandwich"@,
        Strategy::Cross(_, _) => l == "cross"@,
    }
}

impl Strategy {
    /// The strategy named `l` (already in lower case) around heuristic `h`,
    /// with an empty weight table, if any.
    pub fn from_name(l: &String, h: Heuristique) -> (r: Option<Strategy>)
        ensures
            r is Some <==> known_strategy(l@),
            r matches Some(st) ==> kind_named(l@, st) && st.heuristic() == h && st.ready(0),
    {
        if is_text(l, "standard") || is_text(l, "std") {
            Some(Strategy::Standard(h))
        } else if is_text(l, "sandwich") {
            Some(Strategy::Sandwich(Vec::new(), h))
        } else if is_text(l, "cross") {
            Some(Strategy::Cross(Vec::new(), h))
        } else {
            None
        }
    }

    /// The strategy named `s`, in any case, around heuristic `heuristique`.
    pub fn parse(s: String, heuristique: Heuristique) -> (r: Option<Strategy>)
        ensures
            r is Some <==> known_strategy(lower_of(s@)),
            r matches Some(st) ==> kind_named(lower_of(s@), st) && st.heuristic() == heuristique
                && st.ready(0),
    {
        let l = lowercase(s.as_str());
        Self::from_name(&l, heuristique)
    }

    /// The heuristic this strategy wraps.
    pub open spec fn heuristic(&self) -> Heuristique {
        match self {
            Strategy::Standard(h) => *h,
            Strategy::Sandwich(_, h) => *h,
            Strategy::Cross(_, h) => *h,
        }
    }

    /// The weight table has been computed for grids of side `n`.
    pub open spec fn ready(&self, n: int) -> bool {
        match self {
            Strategy::Standard(_) => true,
            Strategy::Sandwich(w, _) => w@.len() == n && (forall|i: int|
                0 <= i < n ==> #[trigger] w@[i]@.len() == n) && bounded_table(w@, max_weight()),
            Strategy::Cross(w, _) => w@.len() == n && (forall|i: int|
                0 <= i < n ==> #[trigger] w@[i]@.len() == n) && bounded_table(w@, max_weight()),
        }
    }

    /// Multiplier applied to the share of cell `(i, j)`.
    pub open spec fn factor(&self, i: int, j: int) -> int {
        match self {
            Strategy::Standard(_) => 1,
            Strategy::Sandwich(w, _) => w@[i]@[j] * w@[i]@[j],
            Strategy::Cross(w, _) => w@[i]@[j] as int,
        }
    }

    /// Weighted share of cell `(i, j)`.
    pub open spec fn term(&self, current: Seq<Vec<i64>>, goal: Seq<Vec<i64>>, i: int, j: int) -> int {
        cell_cost(self.heuristic(), current, goal, i, j) * self.factor(i, j)
    }

    /// Sum of the weighted shares of the first `j` cells of row `i`.
    pub open spec fn row_score(
        &self,
        current: Seq<Vec<i64>>,
        goal: Seq<Vec<i64>>,
        i: int,
        j: int,
    ) -> int
        decreases j,
    {
        if j <= 0 {
            0
        } else {
            self.row_score(current, goal, i, j - 1) + self.term(current, goal, i, j - 1)
        }
    }

    /// Sum of the weighted shares of the first `i` rows.
    pub open spec fn rows_score(&self, current: Seq<Vec<i64>>, goal: Seq<Vec<i64>>, i: int) -> int
        decreases i,
    {
        if i <= 0 {
            0
        } else {
            self.rows_score(current, goal, i - 1) + self.row_score(
                current,
                goal,
                i - 1,
                current.len() as int,
            )
        }
    }

    /// The estimate for `current` against `goal`: the sum over all cells.
    pub open spec fn score(&self, current: Seq<Vec<i64>>, goal: Seq<Vec<i64>>) -> int {
        self.rows_score(current, goal, current.len() as int)
    }

    /// Computes the weight table from the goal grid (nothing to do for
    /// `Standard`).
    pub fn init(&mut self, goal: &Vec<Vec<i64>>)
        requires
            well_sized(goal@),
        ensures
            final(self).heuristic() == old(self).heuristic(),
            final(self).ready(goal@.len() as int),
            match *final(self) {
                Strategy::Standard(_) => *old(self) is Standard,
                Strategy::Sandwich(w, _) => *old(self) is Sandwich && is_weight_table(
                    w@,
                    goal@.len() as int,
                    |i: int, j: int| sandwich_weight(goal@, i, j),
                ),
                Strategy::Cross(w, _) => *old(self) is Cross && is_weight_table(
                    w@,
                    goal@.len() as int,
                    |i: int, j: int| cross_weight(goal@, i, j),
                ),
            },
    {
        match self {
            Strategy::Standard(_) => {},
            Strategy::Sandwich(weight, _) => Self::init_sandwich(weight, goal),
            Strategy::Cross(weight, _) => Self::init_cross(weight, goal),
        };
    }

    fn init_sandwich(weight: &mut Vec<Vec<u64>>, goal: &Vec<Vec<i64>>)
        requires
            well_sized(goal@),
        ensures
            is_weight_table(
                final(weight)@,
                goal@.len() as int,
                |i: int, j: int| sandwich_weight(goal@, i, j),
            ),
            bounded_table(final(weight)@, max_weight()),
    {
        *weight = Vec::new();
        let (x, y) = find_nb(0, goal.as_slice());
        let n = goal.len();
        for i in 0..n
            invariant
                n == goal@.len(),
                well_sized(goal@),
                x as int == locate(goal@, 0).0,
                y as int == locate(goal@, 0).1,
                -1 <= x < n,
                -1 <= y < n,
                weight@.len() == i,
                forall|k: int| 0 <= k < i ==> #[trigger] weight@[k]@.len() == n,
                forall|k: int, j: int|
                    0 <= k < i && 0 <= j < n ==> #[trigger] weight@[k]@[j] == sandwich_weight(
                        goal@,
                        k,
                        j,
                    ),
                bounded_table(weight@, max_weight()),
        {
            let mut new_grid: Vec<u64> = Vec::new();
            for j in 0..n
                invariant
                    n == goal@.len(),
                    i < n,
                    well_sized(goal@),
                    x as int == locate(goal@, 0).0,
                    y as int == locate(goal@, 0).1,
                    -1 <= x < n,
                    -1 <= y < n,
                    new_grid@.len() == j,
                    forall|l: int|
                        0 <= l < j ==> #[trigger] new_grid@[l] == sandwich_weight(
                            goal@,
                            i as int,
                            l,
                        ),
                    forall|l: int| 0 <= l < j ==> #[trigger] new_grid@[l] <= max_weight(),
            {
                let di = ring_gap(i, x);
                let dj = ring_gap(j, y);
                let max = if di >= dj {
                    di
                } else {
                    dj
                };
                new_grid.push(max + 1);
            }
            weight.push(new_grid);
        }
    }

    fn init_cross(weight: &mut Vec<Vec<u64>>, goal: &Vec<Vec<i64>>)
        requires
            well_sized(goal@),
        ensures
            is_weight_table(
                final(weight)@,
                goal@.len() as int,
                |i: int, j: int| cross_weight(goal@, i, j),
            ),
            bounded_table(final(weight)@, max_weight()),
    {
        *weight = Vec::new();
        let (x, y) = find_nb(0, goal.as_slice());
        let n = goal.len();
        for i in 0..n
            invariant
                n == goal@.len(),
                well_sized(goal@),
                x as int == locate(goal@, 0).0,
                y as int == locate(goal@, 0).1,
                -1 <= x < n,
                -1 <= y < n,
                weight@.len() == i,
                forall|k: int| 0 <= k < i ==> #[trigger] weight@[k]@.len() == n,
                forall|k: int, j: int|
                    0 <= k < i && 0 <= j < n ==> #[trigger] weight@[k]@[j] == cross_weight(
                        goal@,
                        k,
                        j,
                    ),
                bounded_table(weight@, max_weight()),
        {
            let mut new_grid: Vec<u64> = Vec::new();
            for j in 0..n
                invariant
                    n == goal@.len(),
                    i < n,
                    well_sized(goal@),
                    x as int == locate(goal@, 0).0,
                    y as int == locate(goal@, 0).1,
                    -1 <= x < n,
                    -1 <= y < n,
                    new_grid@.len() == j,
                    forall|l: int|
                        0 <= l < j ==> #[trigger] new_grid@[l] == cross_weight(goal@, i as int, l),
                    forall|l: int| 0 <= l < j ==> #[trigger] new_grid@[l] <= max_weight(),
            {
                let di = ring_gap(i, x);
                let dj = ring_gap(j, y);
                new_grid.push(di + dj + 1);
            }
            weight.push(new_grid);
        }
    }
}

impl Strategy {
    /// The weighted estimate of `current` against `goal`: each cell's share
    /// under the wrapped heuristic, times the cell's factor, summed over the
    /// grid.
    pub fn process(&self, current: &Vec<Vec<i64>>, goal: &Vec<Vec<i64>>) -> (r: u64)
        requires
            comparable(current@, goal@),
            self.ready(current@.len() as int),
        ensures
            r == self.score(current@, goal@),
    {
        let heuristique = match self {
            Strategy::Standard(h) => *h,
            Strategy::Sandwich(_, h) => *h,
            Strategy::Cross(_, h) => *h,
        };
        let table = heuristique.process_h(goal.as_slice(), current.as_slice());
        let n = current.len();
        let mut total: u64 = 0;
        for i in 0..n
            invariant
                n == current@.len(),
                n <= MAX_SIDE,
                comparable(current@, goal@),
                self.ready(n as int),
                heuristique == self.heuristic(),
                is_cost_table(table@, heuristique, current@, goal@),
                bounded_table(table@, 2 * MAX_SIDE + 1),
                total == self.rows_score(current@, goal@, i as int),
                total <= i * n * max_term(),
        {
            let mut row_total: u64 = 0;
            for j in 0..n
                invariant
                    n == current@.len(),
                    n <= MAX_SIDE,
                    i < n,
                    comparable(current@, goal@),
                    self.ready(n as int),
                    heuristique == self.heuristic(),
                    is_cost_table(table@, heuristique, current@, goal@),
                    bounded_table(table@, 2 * MAX_SIDE + 1),
                    row_total == self.row_score(current@, goal@, i as int, j as int),
                    row_total <= j * max_term(),
            {
                let share = table[i][j];
                let f = self.factor_at(i, j, Ghost(n as int));
                proof {
                    lemma_max_term();
                    assert(share <= 2 * MAX_SIDE + 1);
                    assert(share * f <= max_term()) by (nonlinear_arith)
                        requires
                            share <= max_weight(),
                            f <= max_weight() * max_weight(),
                    ;
                    assert(row_total + share * f <= (j + 1) * max_term()) by (nonlinear_arith)
                        requires
                            row_total <= j * max_term(),
                            share * f <= max_term(),
                    ;
                    assert((j + 1) * max_term() <= MAX_SIDE * max_term()) by (nonlinear_arith)
                        requires
                            j < MAX_SIDE,
                    ;
                }
                row_total = row_total + share * f;
            }
            proof {
                lemma_max_term();
                assert(total + row_total <= (i + 1) * n * max_term()) by (nonlinear_arith)
                    requires
                        total <= i * n * max_term(),
                        row_total <= n * max_term(),
                ;
                assert((i + 1) * n * max_term() <= MAX_SIDE * MAX_SIDE * max_term())
                    by (nonlinear_arith)
                    requires
                        i < n,
                        n <= MAX_SIDE,
                ;
            }
            total = total + row_total;
        }
        total
    }

    /// Multiplier of cell `(i, j)`.
    fn factor_at(&self, i: usize, j: usize, n: Ghost<int>) -> (r: u64)
        requires
            self.ready(n@),
            i < n@,
            j < n@,
        ensures
            r == self.factor(i as int, j as int),
            r <= max_weight() * max_weight(),
    {
        proof {
            lemma_max_term();
        }
        match self {
            Strategy::Standard(_) => 1,
            Strategy::Sandwich(w, _) => {
                let v = w[i][j];
                proof {
                    lemma_max_term();
                    assert(v <= max_weight());
                    assert(v * v <= max_weight() * max_weight()) by (nonlinear_arith)
                        requires
                            v <= max_weight(),
                    ;
                }
                v * v
            },
            Strategy::Cross(w, _) => {
                let v = w[i][j];
                assert(v <= max_weight());
                v
            },
        }
    }
}

/// A sum of shares over the first `j` cells of a row is no larger than
/// another when each share is no larger.
proof fn lemma_row_le(
    s1: Strategy,
    c1: Seq<Vec<i64>>,
    g1: Seq<Vec<i64>>,
    s2: Strategy,
    c2: Seq<Vec<i64>>,
    g2: Seq<Vec<i64>>,
    i: int,
    j: int,
)
    requires
        forall|l: int| 0 <= l < j ==> #[trigger] s1.term(c1, g1, i, l) <= s2.term(c2, g2, i, l),
    ensures
        s1.row_score(c1, g1, i, j) <= s2.row_score(c2, g2, i, j),
    decreases j,
{
    if j > 0 {
        lemma_row_le(s1, c1, g1, s2, c2, g2, i, j - 1);
        assert(s1.term(c1, g1, i, j - 1) <= s2.term(c2, g2, i, j - 1));
    }
}

/// The estimate of one strategy is no larger than another's on grids of the
/// same side when each cell's weighted share is no larger.
proof fn lemma_score_le(
    s1: Strategy,
    c1: Seq<Vec<i64>>,
    g1: Seq<Vec<i64>>,
    s2: Strategy,
    c2: Seq<Vec<i64>>,
    g2: Seq<Vec<i64>>,
    i: int,
)
    requires
        c1.len() == c2.len(),
        forall|k: int, l: int|
            0 <= k < i && 0 <= l < c1.len() ==> #[trigger] s1.term(c1, g1, k, l) <= s2.term(
                c2,
                g2,
                k,
                l,
            ),
    ensures
        s1.rows_score(c1, g1, i) <= s2.rows_score(c2, g2, i),
    decreases i,
{
    if i > 0 {
        lemma_score_le(s1, c1, g1, s2, c2, g2, i - 1);
        assert forall|l: int| 0 <= l < c1.len() implies #[trigger] s1.term(c1, g1, i - 1, l)
            <= s2.term(c2, g2, i - 1, l) by {}
        lemma_row_le(s1, c1, g1, s2, c2, g2, i - 1, c1.len() as int);
    }
}

/// On the goal itself every heuristic gives every cell a share of zero, so
/// every strategy estimates zero, whatever its weights.
pub proof fn lemma_goal_scores_zero(s: Strategy, goal: Seq<Vec<i64>>)
    requires
        well_sized(goal),
        distinct_values(goal),
    ensures
        forall|h: Heuristique, i: int, j: int|
            0 <= i < goal.len() && 0 <= j < goal.len() ==> #[trigger] cell_cost(h, goal, goal, i, j)
                == 0,
        s.score(goal, goal) == 0,
{
    assert forall|h: Heuristique, i: int, j: int|
        0 <= i < goal.len() && 0 <= j < goal.len() implies #[trigger] cell_cost(
        h,
        goal,
        goal,
        i,
        j,
    ) == 0 by {
        lemma_locate_own(goal, i, j);
    }
    let zero = Strategy::Standard(Heuristique::Hamming);
    assert forall|k: int, l: int| 0 <= k < goal.len() && 0 <= l < goal.len() implies #[trigger] s.term(
        goal,
        goal,
        k,
        l,
    ) == 0 && zero.term(goal, goal, k, l) == 0 by {
        assert(cell_cost(s.heuristic(), goal, goal, k, l) == 0);
        assert(cell_cost(zero.heuristic(), goal, goal, k, l) == 0);
    }
    lemma_score_le(s, goal, goal, zero, goal, goal, goal.len() as int);
    lemma_score_le(zero, goal, goal, s, goal, goal, goal.len() as int);
    lemma_zero_score(zero, goal, goal.len() as int);
}

proof fn lemma_zero_score(s: Strategy, goal: Seq<Vec<i64>>, i: int)
    requires
        forall|k: int, l: int| 0 <= k < goal.len() && 0 <= l < goal.len() ==> #[trigger] s.term(
            goal,
            goal,
            k,
            l,
        ) == 0,
        i <= goal.len(),
    ensures
        s.rows_score(goal, goal, i) == 0,
    decreases i,
{
    if i > 0 {
        lemma_zero_score(s, goal, i - 1);
        lemma_zero_row(s, goal, i - 1, goal.len() as int);
    }
}

proof fn lemma_zero_row(s: Strategy, goal: Seq<Vec<i64>>, i: int, j: int)
    requires
        forall|k: int, l: int| 0 <= k < goal.len() && 0 <= l < goal.len() ==> #[trigger] s.term(
            goal,
            goal,
            k,
            l,
        ) == 0,
        0 <= i < goal.len(),
        j <= goal.len(),
    ensures
        s.row_score(goal, goal, i, j) == 0,
    decreases j,
{
    if j > 0 {
        lemma_zero_row(s, goal, i, j - 1);
    }
}

/// Linear conflict never estimates less than Manhattan distance: cell by
/// cell, and in total under the standard strategy.
pub proof fn lemma_manhattan_le_conflict(current: Seq<Vec<i64>>, goal: Seq<Vec<i64>>)
    ensures
        forall|i: int, j: int|
            0 <= i < current.len() && 0 <= j < current.len() ==> #[trigger] manhattan_cell(
                current,
                goal,
                i,
                j,
            ) <= conflict_cell(current, goal, i, j),
        Strategy::Standard(Heuristique::Manhattan).score(current, goal) <= Strategy::Standard(
            Heuristique::LinearConflict,
        ).score(current, goal),
{
    let m = Strategy::Standard(Heuristique::Manhattan);
    let lc = Strategy::Standard(Heuristique::LinearConflict);
    lemma_score_le(m, current, goal, lc, current, goal, current.len() as int);
}

/// Every estimate is a function of the two grids' contents: computed again on
/// the same contents it is the same.
pub proof fn lemma_score_by_contents(
    s: Strategy,
    c1: Seq<Vec<i64>>,
    g1: Seq<Vec<i64>>,
    c2: Seq<Vec<i64>>,
    g2: Seq<Vec<i64>>,
)
    requires
        grid_view(c1) == grid_view(c2),
        grid_view(g1) == grid_view(g2),
        c1.len() == g1.len(),
    ensures
        forall|h: Heuristique, i: int, j: int|
            0 <= i < c1.len() && 0 <= j < c1.len() ==> #[trigger] cell_cost(h, c1, g1, i, j)
                == cell_cost(h, c2, g2, i, j),
        s.score(c1, g1) == s.score(c2, g2),
{
    assert(c1.len() == grid_view(c1).len());
    assert(c2.len() == grid_view(c2).len());
    assert(g1.len() == grid_view(g1).len());
    assert(g2.len() == grid_view(g2).len());
    assert forall|h: Heuristique, i: int, j: int|
        0 <= i < c1.len() && 0 <= j < c1.len() implies #[trigger] cell_cost(h, c1, g1, i, j)
        == cell_cost(h, c2, g2, i, j) by {
        assert(grid_view(c1)[i] == c1[i]@);
        assert(grid_view(c2)[i] == c2[i]@);
        assert(grid_view(g1)[i] == g1[i]@);
        assert(grid_view(g2)[i] == g2[i]@);
        lemma_locate_by_contents(g1, g2, c1[i]@[j]);
    }
    lemma_score_le(s, c1, g1, s, c2, g2, c1.len() as int);
    lemma_score_le(s, c2, g2, s, c1, g1, c1.len() as int);
}

/// `|i - x|` for a cell index and a coordinate that may be -1.
fn ring_gap(i: usize, x: i32) -> (r: u64)
    requires
        i < MAX_SIDE,
        -1 <= x < MAX_SIDE,
    ensures
        r as int == abs(i - x),
        r <= MAX_SIDE,
{
    let d = i as i64 - x as i64;
    if d < 0 {
        (-d) as u64
    } else {
        d as u64
    }
}

} // verus!
