//! Goal layouts: the values of the initial grid, smallest first with the
//! smallest (the empty cell) moved last, laid out row-major ("standard") or
//! in a clockwise spiral from the top-left corner ("snail"), or a board given
//! in the file format.

use vstd::prelude::*;
use vstd::relations::sorted_by;

use crate::file::{board_of, parse_file};
use crate::utils::{cells, grid_view, is_text, lower_of, lowercase, well_sized, MAX_SIDE};

verus! {

/// Where the goal grid comes from.
pub enum Goal {
    /// Clockwise spiral from the top-left corner.
    Snail,
    /// Row-major order.
    Standard,
    /// The text of a board file.
    Custom(String),
}

/// `s` in ascending order.
pub open spec fn ascending(s: Seq<i64>) -> Seq<i64> {
    s.sort_by(|a: i64, b: i64| a <= b)
}

/// `s` with its first value moved to the end.
pub open spec fn first_to_end(s: Seq<i64>) -> Seq<i64> {
    s.drop_first().push(s[0])
}

/// The goal's values in the order a layout reads them: the values of `map`
/// ascending, with the smallest moved to the end.
pub open spec fn goal_values(map: Seq<Vec<i64>>) -> Seq<i64> {
    first_to_end(ascending(cells(map)))
}

pub open spec fn min(a: int, b: int) -> int {
    if a <= b {
        a
    } else {
        b
    }
}

/// Position of cell `(i, j)` along the clockwise spiral of an `n` by `n`
/// board: the rings outside the cell's ring come first, then the cell's ring
/// is walked along its top row, down its right column, back along its bottom
/// row and up its left column.
pub open spec fn spiral_index(n: int, i: int, j: int) -> int {
    let d = min(min(i, j), min(n - 1 - i, n - 1 - j));
    let m = n - 2 * d;
    let r = i - d;
    let c = j - d;
    let before = 4 * d * (n - d);
    before + if r == 0 {
        c
    } else if c == m - 1 {
        (m - 1) + r
    } else if r == m - 1 {
        2 * (m - 1) + (m - 1 - c)
    } else {
        3 * (m - 1) + (m - 1 - r)
    }
}

/// Sorts `v` in ascending order.
/// Relies on `slice::sort`: the result is sorted and holds the same values.
#[verifier::external_body]
fn sort_values(v: &mut Vec<i64>)
    ensures
        sorted_by(final(v)@, |a: i64, b: i64| a <= b),
        final(v)@.to_multiset() == old(v)@.to_multiset(),
{
    v.sort();
}

/// The values of `map`, row-major.
fn flatten(map: &Vec<Vec<i64>>) -> (r: Vec<i64>)
    ensures
        r@ == cells(map@),
{
    let n = map.len();
    let mut r: Vec<i64> = Vec::new();
    for x in 0..n
        invariant
            n == map@.len(),
            r@ == cells(map@.subrange(0, x as int)),
    {
        let w = map[x].len();
        for y in 0..w
            invariant
                n == map@.len(),
                x < n,
                w == map@[x as int]@.len(),
                r@ == cells(map@.subrange(0, x as int)) + map@[x as int]@.subrange(0, y as int),
        {
            r.push(map[x][y]);
            proof {
                assert(cells(map@.subrange(0, x as int)) + map@[x as int]@.subrange(0, y + 1)
                    =~= r@);
            }
        }
        proof {
            assert(map@[x as int]@.subrange(0, w as int) =~= map@[x as int]@);
            assert(map@.subrange(0, x + 1).drop_last() =~= map@.subrange(0, x as int));
        }
    }
    proof {
        assert(map@.subrange(0, n as int) =~= map@);
    }
    r
}

/// The values of `map` ascending, with the smallest moved to the end.
fn ordered_values(map: &Vec<Vec<i64>>) -> (r: Vec<i64>)
    requires
        cells(map@).len() > 0,
    ensures
        r@ == goal_values(map@),
        r@.len() == cells(map@).len(),
{
    let mut f = flatten(map);
    let ghost before = f@;
    sort_values(&mut f);
    proof {
        let leq = |a: i64, b: i64| a <= b;
        before.lemma_sort_by_ensures(leq);
        vstd::seq_lib::lemma_sorted_unique(f@, before.sort_by(leq), leq);
        f@.to_multiset_ensures();
        before.to_multiset_ensures();
    }
    let zero = f.remove(0);
    f.push(zero);
    f
}

/// The cells of a grid given by its rows, row-major.
pub open spec fn flat(m: Seq<Seq<i64>>) -> Seq<i64>
    decreases m.len(),
{
    if m.len() == 0 {
        seq![]
    } else {
        flat(m.drop_last()) + m.last()
    }
}

pub proof fn lemma_cells_flat(m: Seq<Vec<i64>>)
    ensures
        cells(m) == flat(grid_view(m)),
    decreases m.len(),
{
    if m.len() > 0 {
        lemma_cells_flat(m.drop_last());
        assert(grid_view(m).drop_last() =~= grid_view(m.drop_last()));
    }
}

impl Goal {
    /// The goal named `l` (already in lower case): `snail`, `standard` or
    /// `std`, and otherwise a custom goal with the board text `file`.
    pub fn from_name(l: &String, file: String) -> (r: Goal)
        ensures
            l@ == "snail"@ ==> r is Snail,
            l@ != "snail"@ && (l@ == "standard"@ || l@ == "std"@) ==> r is Standard,
            l@ != "snail"@ && l@ != "standard"@ && l@ != "std"@ ==> r == Goal::Custom(file),
    {
        if is_text(l, "snail") {
            Goal::Snail
        } else if is_text(l, "standard") || is_text(l, "std") {
            Goal::Standard
        } else {
            Goal::Custom(file)
        }
    }

    /// The goal named `s`, in any case; `file` is the text of the board
    /// file used by a custom goal.
    pub fn parse(s: String, file: String) -> (r: Goal)
        ensures
            lower_of(s@) == "snail"@ ==> r is Snail,
            lower_of(s@) != "snail"@ && (lower_of(s@) == "standard"@ || lower_of(s@) == "std"@)
                ==> r is Standard,
            lower_of(s@) != "snail"@ && lower_of(s@) != "standard"@ && lower_of(s@) != "std"@
                ==> r == Goal::Custom(file),
    {
        let l = lowercase(s.as_str());
        Self::from_name(&l, file)
    }

    /// The goal layout for a board of side `n` holding the values of `map`:
    /// for a custom goal, the board its text describes, when that text is a
    /// board of side `n`.
    pub open spec fn layout(&self, n: int, map: Seq<Vec<i64>>) -> Option<Seq<Seq<i64>>> {
        match self {
            Goal::Snail => Some(
                Seq::new(
                    n as nat,
                    |i: int| Seq::new(n as nat, |j: int| goal_values(map)[spiral_index(n, i, j)]),
                ),
            ),
            Goal::Standard => Some(
                Seq::new(n as nat, |i: int| Seq::new(n as nat, |j: int| goal_values(map)[i * n + j])),
            ),
            Goal::Custom(text) => match board_of(text@) {
                Ok((_, b)) => if b.len() == n {
                    Some(b)
                } else {
                    None
                },
                Err(_) => None,
            },
        }
    }

    /// The goal grid for a board of side `size` whose cells are `map`, when
    /// the goal holds the same values as `map`, as many times each.
    pub fn generate(&self, size: i64, map: &Vec<Vec<i64>>) -> (r: Option<Vec<Vec<i64>>>)
        requires
            well_sized(map@),
            size == map@.len(),
            size >= 1,
        ensures
            r is Some <==> (self.layout(size as int, map@) matches Some(l) && flat(l).to_multiset()
                == cells(map@).to_multiset()),
            r matches Some(g) ==> self.layout(size as int, map@) == Some(grid_view(g@))
                && well_sized(g@) && g@.len() == size,
    {
        proof {
            lemma_cells_len(map@, map@.len() as int);
            assert(map@.len() * map@.len() >= 1) by (nonlinear_arith)
                requires
                    map@.len() >= 1,
            ;
        }
        let f = ordered_values(map);
        let n = size as usize;
        let res = match self {
            Goal::Snail => Self::generate_snail(n, &f),
            Goal::Standard => Self::generate_std(n, &f),
            Goal::Custom(text) => {
                match parse_file(text.clone()) {
                    Ok((_, v)) => {
                        if v.len() != n {
                            proof {
                                assert(grid_view(v@).len() == v@.len());
                            }
                            return None;
                        }
                        proof {
                            let b = board_of(text@)->Ok_0.1;
                            assert(grid_view(v@) == b);
                            assert forall|i: int| 0 <= i < v@.len() implies #[trigger] v@[i]@.len()
                                == v@.len() by {
                                assert(grid_view(v@)[i] == v@[i]@);
                            }
                        }
                        v
                    },
                    Err(_) => {
                        return None;
                    },
                }
            },
        };
        proof {
            lemma_cells_len(res@, n as int);
            assert(n * n >= 1) by (nonlinear_arith)
                requires
                    n >= 1,
            ;
            lemma_cells_flat(res@);
            assert(self.layout(size as int, map@) == Some(grid_view(res@))) by {
                match self {
                    Goal::Custom(text) => {},
                    _ => {
                        let l = self.layout(size as int, map@)->Some_0;
                        assert forall|i: int| 0 <= i < n implies #[trigger] grid_view(res@)[i] == l[i] by {
                            assert(grid_view(res@)[i] =~= l[i]);
                        }
                        assert(grid_view(res@) =~= l);
                    },
                }
            }
        }
        let tmp = ordered_values(&res);
        let same = same_values(&tmp, &f);
        proof {
            let leq = |a: i64, b: i64| a <= b;
            let x = cells(res@);
            let y = cells(map@);
            x.lemma_sort_by_ensures(leq);
            y.lemma_sort_by_ensures(leq);
            if x.to_multiset() == y.to_multiset() {
                vstd::seq_lib::lemma_sorted_unique(x.sort_by(leq), y.sort_by(leq), leq);
            }
            if same {
                let a = ascending(x);
                let b = ascending(y);
                x.sort_by(leq).to_multiset_ensures();
                y.sort_by(leq).to_multiset_ensures();
                x.to_multiset_ensures();
                y.to_multiset_ensures();
                assert(a.len() == b.len());
                assert(a[0] == first_to_end(a)[a.len() - 1]);
                assert forall|k: int| 0 <= k < a.len() implies a[k] == b[k] by {
                    if k > 0 {
                        assert(a[k] == first_to_end(a)[k - 1]);
                        assert(b[k] == first_to_end(b)[k - 1]);
                    } else {
                        assert(b[0] == first_to_end(b)[b.len() - 1]);
                    }
                }
                assert(a =~= b);
            }
        }
        if same {
            Some(res)
        } else {
            None
        }
    }

    /// The values `f` laid out row-major on an `n` by `n` board.
    fn generate_std(n: usize, f: &Vec<i64>) -> (r: Vec<Vec<i64>>)
        requires
            1 <= n <= MAX_SIDE,
            f@.len() == n * n,
        ensures
            r@.len() == n,
            forall|i: int| 0 <= i < n ==> #[trigger] r@[i]@.len() == n,
            forall|i: int, j: int| 0 <= i < n && 0 <= j < n ==> #[trigger] r@[i]@[j] == f@[i * n + j],
    {
        proof {
            assert(n * n <= MAX_SIDE * MAX_SIDE) by (nonlinear_arith)
                requires
                    n <= MAX_SIDE,
            ;
        }
        let mut res: Vec<Vec<i64>> = Vec::new();
        for i in 0..n
            invariant
                1 <= n <= MAX_SIDE,
                n * n <= MAX_SIDE * MAX_SIDE,
                f@.len() == n * n,
                res@.len() == i,
                forall|k: int| 0 <= k < i ==> #[trigger] res@[k]@.len() == n,
                forall|k: int, j: int| 0 <= k < i && 0 <= j < n ==> #[trigger] res@[k]@[j] == f@[k * n + j],
        {
            let mut row: Vec<i64> = Vec::new();
            for j in 0..n
                invariant
                    1 <= n <= MAX_SIDE,
                    n * n <= MAX_SIDE * MAX_SIDE,
                    i < n,
                    f@.len() == n * n,
                    row@.len() == j,
                    forall|l: int| 0 <= l < j ==> #[trigger] row@[l] == f@[i * n + l],
            {
                proof {
                    assert(i * n + j < n * n) by (nonlinear_arith)
                        requires
                            i < n,
                            j < n,
                    ;
                }
                row.push(f[i * n + j]);
            }
            res.push(row);
        }
        res
    }

    /// The values `f` laid out along the clockwise spiral of an `n` by `n`
    /// board.
    fn generate_snail(n: usize, f: &Vec<i64>) -> (r: Vec<Vec<i64>>)
        requires
            1 <= n <= MAX_SIDE,
            f@.len() == n * n,
        ensures
            r@.len() == n,
            forall|i: int| 0 <= i < n ==> #[trigger] r@[i]@.len() == n,
            forall|i: int, j: int|
                0 <= i < n && 0 <= j < n ==> #[trigger] r@[i]@[j] == f@[spiral_index(
                    n as int,
                    i,
                    j,
                )],
    {
        let mut res: Vec<Vec<i64>> = Vec::new();
        for i in 0..n
            invariant
                1 <= n <= MAX_SIDE,
                f@.len() == n * n,
                res@.len() == i,
                forall|k: int| 0 <= k < i ==> #[trigger] res@[k]@.len() == n,
                forall|k: int, j: int|
                    0 <= k < i && 0 <= j < n ==> #[trigger] res@[k]@[j] == f@[spiral_index(
                        n as int,
                        k,
                        j,
                    )],
        {
            let mut row: Vec<i64> = Vec::new();
            for j in 0..n
                invariant
                    1 <= n <= MAX_SIDE,
                    i < n,
                    f@.len() == n * n,
                    row@.len() == j,
                    forall|l: int|
                        0 <= l < j ==> #[trigger] row@[l] == f@[spiral_index(n as int, i as int, l)],
            {
                let k = spiral_pos(n, i, j);
                row.push(f[k]);
            }
            res.push(row);
        }
        res
    }
}

/// Position of cell `(i, j)` along the spiral of an `n` by `n` board.
fn spiral_pos(n: usize, i: usize, j: usize) -> (r: usize)
    requires
        1 <= n <= MAX_SIDE,
        i < n,
        j < n,
    ensures
        r == spiral_index(n as int, i as int, j as int),
        r < n * n,
{
    let a = if i <= j {
        i
    } else {
        j
    };
    let b = if n - 1 - i <= n - 1 - j {
        n - 1 - i
    } else {
        n - 1 - j
    };
    let d = if a <= b {
        a
    } else {
        b
    };
    let m = n - 2 * d;
    let r = i - d;
    let c = j - d;
    proof {
        assert(2 * d <= n - 1);
        assert(4 * d * (n - d) + 4 * m - 4 <= n * n) by (nonlinear_arith)
            requires
                m == n - 2 * d,
                m >= 1,
                d >= 0,
        ;
        assert(4 * d * (n - d) <= n * n - 1) by (nonlinear_arith)
            requires
                m == n - 2 * d,
                m >= 1,
                d >= 0,
        ;
        assert(d * (n - d) <= MAX_SIDE * MAX_SIDE) by (nonlinear_arith)
            requires
                d <= n,
                n <= MAX_SIDE,
        ;
        assert(r < m && c < m);
        assert(n * n <= MAX_SIDE * MAX_SIDE) by (nonlinear_arith)
            requires
                n <= MAX_SIDE,
        ;
        assert(4 * d <= 4 * MAX_SIDE);
        assert(4 * d * (n - d) == (4 * d) * (n - d));
    }
    let before = 4 * d * (n - d);
    let pos = if r == 0 {
        c
    } else if c == m - 1 {
        (m - 1) + r
    } else if r == m - 1 {
        2 * (m - 1) + (m - 1 - c)
    } else {
        3 * (m - 1) + (m - 1 - r)
    };
    before + pos
}

/// Whether the two lists hold the same values in the same order.
fn same_values(a: &Vec<i64>, b: &Vec<i64>) -> (r: bool)
    ensures
        r == (a@ == b@),
{
    if a.len() != b.len() {
        return false;
    }
    let n = a.len();
    for k in 0..n
        invariant
            n == a@.len(),
            n == b@.len(),
            forall|t: int| 0 <= t < k ==> a@[t] == b@[t],
    {
        if a[k] != b[k] {
            return false;
        }
    }
    proof {
        assert(a@ =~= b@);
    }
    true
}

/// Rows that all have `w` cells hold `w` cells each in `cells`.
proof fn lemma_cells_len(m: Seq<Vec<i64>>, w: int)
    requires
        forall|i: int| 0 <= i < m.len() ==> #[trigger] m[i]@.len() == w,
    ensures
        cells(m).len() == m.len() * w,
    decreases m.len(),
{
    if m.len() > 0 {
        lemma_cells_len(m.drop_last(), w);
        assert(m.len() * w == (m.len() - 1) * w + w) by (nonlinear_arith);
    }
}

} // verus!
