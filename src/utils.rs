//! Pure functions over square grids of tiles: locating a value, counting
//! inversions, the parity test for solvability and duplicate detection.

use vstd::prelude::*;
use vstd::string::StringExecFns;

use rand::Rng;

verus! {

/// The largest board side the library handles. The inversion count of a
/// board of side `n` is below `(n * n) * (n * n)`, which must fit a `usize`
/// of 32 bits: `255^4 < 2^32 <= 256^4`. The weighted estimates, below
/// `n * n * (2 * n + 1)^3`, then fit a `u64` with room to spare.
pub const MAX_SIDE: usize = 255;

/// The rows of a grid as sequences.
pub open spec fn grid_view(m: Seq<Vec<i64>>) -> Seq<Seq<i64>> {
    m.map_values(|r: Vec<i64>| r@)
}

/// Every row has as many cells as the grid has rows.
pub open spec fn is_square(m: Seq<Vec<i64>>) -> bool {
    forall|i: int| 0 <= i < m.len() ==> #[trigger] m[i]@.len() == m.len()
}

/// A square grid whose side fits the library's bound.
pub open spec fn well_sized(m: Seq<Vec<i64>>) -> bool {
    is_square(m) && m.len() <= MAX_SIDE
}

/// `v` occurs somewhere in the grid.
pub open spec fn holds(m: Seq<Vec<i64>>, v: i64) -> bool {
    exists|i: int, j: int| 0 <= i < m.len() && 0 <= j < m[i]@.len() && m[i]@[j] == v
}

/// `(x, y)` is the first cell holding `v` in row-major order.
pub open spec fn first_at(m: Seq<Vec<i64>>, v: i64, x: int, y: int) -> bool {
    &&& 0 <= x < m.len()
    &&& 0 <= y < m[x]@.len()
    &&& m[x]@[y] == v
    &&& forall|i: int, j: int|
        0 <= i < m.len() && 0 <= j < m[i]@.len() && (i < x || (i == x && j < y)) ==> m[i]@[j]
            != v
}

/// Coordinates of the first cell holding `v`, or `(-1, -1)` when there is none.
pub open spec fn locate(m: Seq<Vec<i64>>, v: i64) -> (int, int) {
    if exists|x: int, y: int| first_at(m, v, x, y) {
        choose|x: int, y: int| first_at(m, v, x, y)
    } else {
        (-1, -1)
    }
}

proof fn lemma_first_at_unique(m: Seq<Vec<i64>>, v: i64, x1: int, y1: int, x2: int, y2: int)
    requires
        first_at(m, v, x1, y1),
        first_at(m, v, x2, y2),
    ensures
        x1 == x2 && y1 == y2,
{
}

proof fn lemma_locate_found(m: Seq<Vec<i64>>, v: i64, x: int, y: int)
    requires
        first_at(m, v, x, y),
    ensures
        locate(m, v) == (x, y),
{
    let p = locate(m, v);
    assert(first_at(m, v, p.0, p.1));
    lemma_first_at_unique(m, v, x, y, p.0, p.1);
}

/// Coordinates of the first cell of `map` (row-major) holding `nb`, or
/// `(-1, -1)` when no cell holds it.
pub fn find_nb(nb: i64, map: &[Vec<i64>]) -> (r: (i32, i32))
    requires
        is_square(map@),
        map@.len() <= i32::MAX,
    ensures
        r.0 as int == locate(map@, nb).0,
        r.1 as int == locate(map@, nb).1,
        holds(map@, nb) ==> first_at(map@, nb, r.0 as int, r.1 as int),
        !holds(map@, nb) ==> r == (-1i32, -1i32),
{
    let n = map.len();
    for x in 0..n
        invariant
            n == map@.len(),
            is_square(map@),
            n <= i32::MAX,
            forall|i: int, j: int| 0 <= i < x && 0 <= j < map@[i]@.len() ==> map@[i]@[j] != nb,
    {
        for y in 0..n
            invariant
                n == map@.len(),
                x < n,
                is_square(map@),
            n <= i32::MAX,
                forall|i: int, j: int|
                    0 <= i < x && 0 <= j < map@[i]@.len() ==> map@[i]@[j] != nb,
                forall|j: int| 0 <= j < y ==> map@[x as int]@[j] != nb,
        {
            if nb == map[x][y] {
                proof {
                    assert(first_at(map@, nb, x as int, y as int));
                    lemma_locate_found(map@, nb, x as int, y as int);
                }
                return (x as i32, y as i32);
            }
        }
    }
    proof {
        assert(!exists|x: int, y: int| first_at(map@, nb, x, y));
        assert(!holds(map@, nb));
    }
    (-1, -1)
}


/// The cells of a grid in row-major order.
pub open spec fn cells(m: Seq<Vec<i64>>) -> Seq<i64>
    decreases m.len(),
{
    if m.len() == 0 {
        seq![]
    } else {
        cells(m.drop_last()) + m.last()@
    }
}

/// The non-empty tiles (every value but 0) of a sequence of cells, in order.
pub open spec fn tiles(s: Seq<i64>) -> Seq<i64>
    decreases s.len(),
{
    if s.len() == 0 {
        seq![]
    } else if s.last() == 0 {
        tiles(s.drop_last())
    } else {
        tiles(s.drop_last()).push(s.last())
    }
}

/// Index of the first occurrence of `v` in `s`, or -1.
pub open spec fn first_index(s: Seq<i64>, v: i64) -> int {
    if exists|p: int| 0 <= p < s.len() && s[p] == v && forall|q: int| 0 <= q < p ==> s[q] != v {
        choose|p: int| 0 <= p < s.len() && s[p] == v && forall|q: int| 0 <= q < p ==> s[q] != v
    } else {
        -1
    }
}

/// Number of adjacent swaps that reorder `init` into the order of `goal`:
/// bring the first value of `goal` to the front of `init`, then reorder the
/// rest the same way.
pub open spec fn swap_count(init: Seq<i64>, goal: Seq<i64>) -> int
    decreases goal.len(),
{
    if goal.len() == 0 {
        0
    } else {
        let p = first_index(init, goal[0]);
        p + swap_count(init.remove(p), goal.drop_first())
    }
}

/// How many values of `rest` come before `v` in `init`.
pub open spec fn placed_before(init: Seq<i64>, v: i64, rest: Seq<i64>) -> int
    decreases rest.len(),
{
    if rest.len() == 0 {
        0
    } else {
        placed_before(init, v, rest.drop_last()) + if first_index(init, rest.last()) < first_index(
            init,
            v,
        ) {
            1int
        } else {
            0int
        }
    }
}

/// Pairs of values in opposite order: `a` before `b` in `goal` but `b`
/// before `a` in `init`.
pub open spec fn opposite_pairs(init: Seq<i64>, goal: Seq<i64>) -> int
    decreases goal.len(),
{
    if goal.len() == 0 {
        0
    } else {
        placed_before(init, goal[0], goal.drop_first()) + opposite_pairs(init, goal.drop_first())
    }
}

proof fn lemma_placed_concat(init: Seq<i64>, v: i64, a: Seq<i64>, b: Seq<i64>)
    ensures
        placed_before(init, v, a + b) == placed_before(init, v, a) + placed_before(init, v, b),
    decreases b.len(),
{
    if b.len() == 0 {
        assert(a + b =~= a);
    } else {
        lemma_placed_concat(init, v, a, b.drop_last());
        assert((a + b).drop_last() =~= a + b.drop_last());
    }
}

proof fn lemma_placed_remove(init: Seq<i64>, v: i64, t: Seq<i64>, k: int)
    requires
        0 <= k < t.len(),
    ensures
        placed_before(init, v, t) == placed_before(init, v, t.remove(k)) + if first_index(
            init,
            t[k],
        ) < first_index(init, v) {
            1int
        } else {
            0int
        },
{
    let a = t.take(k);
    let c = t.skip(k + 1);
    assert(t =~= a + seq![t[k]] + c);
    assert(t.remove(k) =~= a + c);
    lemma_placed_concat(init, v, a + seq![t[k]], c);
    lemma_placed_concat(init, v, a, seq![t[k]]);
    lemma_placed_concat(init, v, a, c);
    assert(seq![t[k]].drop_last() =~= Seq::<i64>::empty());
    assert(placed_before(init, v, Seq::<i64>::empty()) == 0);
    assert(seq![t[k]].last() == t[k]);
}

proof fn lemma_placed_multiset(init: Seq<i64>, v: i64, s1: Seq<i64>, s2: Seq<i64>)
    requires
        s1.to_multiset() == s2.to_multiset(),
    ensures
        placed_before(init, v, s1) == placed_before(init, v, s2),
    decreases s1.len(),
{
    s1.to_multiset_ensures();
    s2.to_multiset_ensures();
    if s1.len() == 0 {
        assert(s2.len() == 0);
    } else {
        let x = s1.last();
        let p1 = s1.drop_last();
        assert(s1 =~= p1.push(x));
        p1.to_multiset_ensures();
        assert(s1.contains(x));
        assert(s1.to_multiset().count(x) > 0);
        assert(s2.to_multiset().count(x) > 0);
        assert(s2.contains(x));
        let k = choose|k: int| 0 <= k < s2.len() && s2[k] == x;
        assert(s2.remove(k).to_multiset() =~= s2.to_multiset().remove(x));
        assert(p1.to_multiset() =~= s1.to_multiset().remove(x));
        lemma_placed_multiset(init, v, p1, s2.remove(k));
        lemma_placed_remove(init, v, s2, k);
    }
}

proof fn lemma_index_of_distinct(s: Seq<i64>, a: int)
    requires
        s.no_duplicates(),
        0 <= a < s.len(),
    ensures
        first_index(s, s[a]) == a,
{
    lemma_first_index(s, s[a], a);
}

/// All values of `t` come before `v` in `init`, or none does.
proof fn lemma_placed_all(init: Seq<i64>, v: i64, t: Seq<i64>, below: bool)
    requires
        forall|i: int|
            0 <= i < t.len() ==> (first_index(init, #[trigger] t[i]) < first_index(init, v))
                == below,
    ensures
        placed_before(init, v, t) == if below {
            t.len() as int
        } else {
            0
        },
    decreases t.len(),
{
    if t.len() > 0 {
        lemma_placed_all(init, v, t.drop_last(), below);
    }
}

/// Removing `init[p]` keeps the order of every other value.
proof fn lemma_remove_keeps_order(init: Seq<i64>, p: int, w: i64)
    requires
        init.no_duplicates(),
        0 <= p < init.len(),
        init.remove(p).contains(w),
    ensures
        first_index(init, w) == first_index(init.remove(p), w) + if first_index(init, w) > p {
            1int
        } else {
            0int
        },
        first_index(init, w) != p,
        0 <= first_index(init.remove(p), w),
{
    let r = init.remove(p);
    let a = choose|a: int| 0 <= a < r.len() && r[a] == w;
    assert(r.no_duplicates()) by {
        assert forall|i: int, j: int| 0 <= i < r.len() && 0 <= j < r.len() && i != j implies r[i]
            != r[j] by {
            let i0 = if i < p { i } else { i + 1 };
            let j0 = if j < p { j } else { j + 1 };
            assert(r[i] == init[i0] && r[j] == init[j0]);
        }
    }
    lemma_index_of_distinct(r, a);
    let a0 = if a < p { a } else { a + 1 };
    assert(init[a0] == w);
    lemma_index_of_distinct(init, a0);
}

proof fn lemma_placed_after_remove(init: Seq<i64>, p: int, v: i64, t: Seq<i64>)
    requires
        init.no_duplicates(),
        0 <= p < init.len(),
        init.remove(p).contains(v),
        forall|i: int| 0 <= i < t.len() ==> init.remove(p).contains(#[trigger] t[i]),
    ensures
        placed_before(init.remove(p), v, t) == placed_before(init, v, t),
    decreases t.len(),
{
    if t.len() > 0 {
        lemma_placed_after_remove(init, p, v, t.drop_last());
        assert(init.remove(p).contains(t[t.len() - 1]));
        lemma_remove_keeps_order(init, p, v);
        lemma_remove_keeps_order(init, p, t.last());
    }
}

proof fn lemma_pairs_after_remove(init: Seq<i64>, p: int, g: Seq<i64>)
    requires
        init.no_duplicates(),
        0 <= p < init.len(),
        forall|i: int| 0 <= i < g.len() ==> init.remove(p).contains(#[trigger] g[i]),
    ensures
        opposite_pairs(init.remove(p), g) == opposite_pairs(init, g),
    decreases g.len(),
{
    if g.len() > 0 {
        let rest = g.drop_first();
        assert forall|i: int| 0 <= i < rest.len() implies init.remove(p).contains(
            #[trigger] rest[i],
        ) by {
            assert(rest[i] == g[i + 1]);
        }
        assert(init.remove(p).contains(g[0]));
        lemma_pairs_after_remove(init, p, rest);
        lemma_placed_after_remove(init, p, g[0], rest);
    }
}

/// For distinct values, the adjacent swaps that reorder `init` into the order
/// of `goal` are as many as the pairs of values in opposite order.
pub proof fn lemma_swaps_are_pairs(init: Seq<i64>, goal: Seq<i64>)
    requires
        init.no_duplicates(),
        init.to_multiset() == goal.to_multiset(),
    ensures
        swap_count(init, goal) == opposite_pairs(init, goal),
    decreases goal.len(),
{
    init.to_multiset_ensures();
    goal.to_multiset_ensures();
    if goal.len() > 0 {
        let g0 = goal[0];
        let rest = goal.drop_first();
        assert(goal.contains(g0));
        assert(goal.to_multiset().count(g0) > 0);
        assert(init.to_multiset().count(g0) > 0);
        assert(init.contains(g0));
        let p0 = choose|i: int| 0 <= i < init.len() && init[i] == g0;
        lemma_index_of_distinct(init, p0);
        let p = first_index(init, g0);
        let r = init.remove(p);
        assert(rest.to_multiset() =~= goal.to_multiset().remove(g0)) by {
            assert(goal.remove(0) =~= rest);
        }
        assert(r.to_multiset() =~= init.to_multiset().remove(g0));
        assert(r.no_duplicates()) by {
            assert forall|i: int, j: int| 0 <= i < r.len() && 0 <= j < r.len() && i != j implies r[i]
                != r[j] by {
                let i0 = if i < p { i } else { i + 1 };
                let j0 = if j < p { j } else { j + 1 };
                assert(r[i] == init[i0] && r[j] == init[j0]);
            }
        }
        lemma_swaps_are_pairs(r, rest);
        r.to_multiset_ensures();
        rest.to_multiset_ensures();
        assert forall|i: int| 0 <= i < rest.len() implies r.contains(#[trigger] rest[i]) by {
            assert(rest.contains(rest[i]));
            assert(rest.to_multiset().count(rest[i]) > 0);
            assert(r.to_multiset().count(rest[i]) > 0);
        }
        lemma_pairs_after_remove(init, p, rest);
        // the values placed before g0 in init are exactly the first p
        lemma_placed_multiset(init, g0, rest, r);
        let a = init.take(p);
        let c = init.skip(p + 1);
        assert(r =~= a + c);
        lemma_placed_concat(init, g0, a, c);
        assert forall|i: int| 0 <= i < a.len() implies (first_index(init, #[trigger] a[i])
            < first_index(init, g0)) == true by {
            lemma_index_of_distinct(init, i);
        }
        assert forall|i: int| 0 <= i < c.len() implies (first_index(init, #[trigger] c[i])
            < first_index(init, g0)) == false by {
            lemma_index_of_distinct(init, i + p + 1);
        }
        lemma_placed_all(init, g0, a, true);
        lemma_placed_all(init, g0, c, false);
    }
}

/// Inversions between the non-empty tiles of two grids, each read row-major.
pub open spec fn inversions(map: Seq<Vec<i64>>, goal: Seq<Vec<i64>>) -> int {
    swap_count(tiles(cells(map)), tiles(cells(goal)))
}

/// Both grids hold the same non-empty tiles, as many times each.
pub open spec fn same_tiles(map: Seq<Vec<i64>>, goal: Seq<Vec<i64>>) -> bool {
    tiles(cells(map)).to_multiset() == tiles(cells(goal)).to_multiset()
}

proof fn lemma_first_index(s: Seq<i64>, v: i64, p: int)
    requires
        0 <= p < s.len(),
        s[p] == v,
        forall|q: int| 0 <= q < p ==> s[q] != v,
    ensures
        first_index(s, v) == p,
{
    let f = first_index(s, v);
    assert(0 <= f < s.len() && s[f] == v && forall|q: int| 0 <= q < f ==> s[q] != v);
    if f < p {
    } else if p < f {
    }
}

proof fn lemma_cells_step(m: Seq<Vec<i64>>, x: int)
    requires
        0 <= x < m.len(),
    ensures
        cells(m.subrange(0, x + 1)) == cells(m.subrange(0, x)) + m[x]@,
{
    assert(m.subrange(0, x + 1).drop_last() =~= m.subrange(0, x));
}

proof fn lemma_tiles_push(s: Seq<i64>, a: i64)
    ensures
        tiles(s.push(a)) == if a == 0 {
            tiles(s)
        } else {
            tiles(s).push(a)
        },
{
    assert(s.push(a).drop_last() =~= s);
}

proof fn lemma_swap_count_bound(init: Seq<i64>, goal: Seq<i64>)
    requires
        init.to_multiset() == goal.to_multiset(),
    ensures
        0 <= swap_count(init, goal) <= init.len() * goal.len(),
    decreases goal.len(),
{
    broadcast use vstd::seq_lib::group_to_multiset_ensures;

    if goal.len() > 0 {
        assert(goal.contains(goal[0]));
        assert(goal.to_multiset().count(goal[0]) > 0);
        assert(init.to_multiset().count(goal[0]) > 0);
        assert(init.contains(goal[0]));
        let p0 = choose|i: int| 0 <= i < init.len() && init[i] == goal[0];
        lemma_has_first(init, goal[0], p0);
        let p = first_index(init, goal[0]);
        assert(goal =~= seq![goal[0]] + goal.drop_first());
        assert(goal.drop_first().to_multiset() =~= goal.to_multiset().remove(goal[0])) by {
            assert(goal.remove(0).to_multiset() =~= goal.to_multiset().remove(goal[0]));
            assert(goal.remove(0) =~= goal.drop_first());
        }
        lemma_swap_count_bound(init.remove(p), goal.drop_first());
        let a = init.len() - 1;
        let b = goal.len() - 1;
        assert(p + a * b <= (a + 1) * (b + 1)) by (nonlinear_arith)
            requires
                0 <= p <= a,
                0 <= b,
        ;
    }
}

proof fn lemma_has_first(s: Seq<i64>, v: i64, p0: int)
    requires
        0 <= p0 < s.len(),
        s[p0] == v,
    ensures
        0 <= first_index(s, v) <= p0,
        s[first_index(s, v)] == v,
        forall|q: int| 0 <= q < first_index(s, v) ==> s[q] != v,
    decreases p0,
{
    if exists|q: int| 0 <= q < p0 && s[q] == v {
        let q = choose|q: int| 0 <= q < p0 && s[q] == v;
        lemma_has_first(s, v, q);
    } else {
        lemma_first_index(s, v, p0);
    }
}

/// The non-empty tiles of `map`, row-major.
fn tiles_of(map: &[Vec<i64>]) -> (r: Vec<i64>)
    requires
        well_sized(map@),
    ensures
        r@ == tiles(cells(map@)),
        r@.len() <= map@.len() * map@.len(),
{
    let n = map.len();
    let mut r: Vec<i64> = Vec::new();
    for x in 0..n
        invariant
            n == map@.len(),
            well_sized(map@),
            r@ == tiles(cells(map@.subrange(0, x as int))),
            r@.len() <= x * n,
    {
        for y in 0..n
            invariant
                n == map@.len(),
                x < n,
                well_sized(map@),
                r@ == tiles(cells(map@.subrange(0, x as int)) + map@[x as int]@.subrange(0, y as int)),
                r@.len() <= x * n + y,
        {
            let v = map[x][y];
            proof {
                let pre = cells(map@.subrange(0, x as int)) + map@[x as int]@.subrange(0, y as int);
                assert(cells(map@.subrange(0, x as int)) + map@[x as int]@.subrange(0, y + 1)
                    =~= pre.push(v));
                lemma_tiles_push(pre, v);
            }
            if v != 0 {
                r.push(v);
            }
        }
        proof {
            assert(map@[x as int]@.subrange(0, n as int) =~= map@[x as int]@);
            lemma_cells_step(map@, x as int);
            assert((x + 1) * n == x * n + n) by (nonlinear_arith);
        }
    }
    proof {
        assert(map@.subrange(0, n as int) =~= map@);
    }
    r
}

/// Number of inversions between the non-empty tiles of `map` and those of
/// `goal`, both read row-major: the adjacent swaps that reorder the first into
/// the order of the second.
pub fn interversion(map: &[Vec<i64>], goal: &[Vec<i64>]) -> (r: usize)
    requires
        well_sized(map@),
        well_sized(goal@),
        same_tiles(map@, goal@),
    ensures
        r as int == inversions(map@, goal@),
        tiles(cells(map@)).no_duplicates() ==> r as int == opposite_pairs(
            tiles(cells(map@)),
            tiles(cells(goal@)),
        ),
{
    broadcast use vstd::seq_lib::group_to_multiset_ensures;

    let mut initial = tiles_of(map);
    let gt = tiles_of(goal);
    let ghost init0 = initial@;
    let len = gt.len();
    let ghost bound = initial@.len() as int;
    proof {
        assert(gt@.subrange(0, len as int) =~= gt@);
        init0.to_multiset_ensures();
        gt@.to_multiset_ensures();
        assert(bound <= MAX_SIDE * MAX_SIDE) by (nonlinear_arith)
            requires
                bound <= map@.len() * map@.len(),
                map@.len() <= MAX_SIDE,
        ;
    }
    let mut res: usize = 0;
    for k in 0..len
        invariant
            len == gt@.len(),
            init0 == tiles(cells(map@)),
            gt@ == tiles(cells(goal@)),
            bound == init0.len(),
            bound == len,
            initial@.len() + k == len,
            bound <= MAX_SIDE * MAX_SIDE,
            initial@.to_multiset() == gt@.subrange(k as int, len as int).to_multiset(),
            res + swap_count(initial@, gt@.subrange(k as int, len as int)) == swap_count(init0, gt@),
            res <= k * bound,
    {
        let g = gt[k];
        let ghost rest = gt@.subrange(k as int, len as int);
        proof {
            assert(rest[0] == g);
            assert(rest.contains(g));
            rest.to_multiset_ensures();
            initial@.to_multiset_ensures();
            assert(rest.to_multiset().count(g) > 0);
            assert(initial@.to_multiset().count(g) > 0);
            assert(initial@.contains(g));
            assert(rest.drop_first() =~= gt@.subrange(k + 1, len as int));
            assert(rest.drop_first().to_multiset() =~= rest.to_multiset().remove(g)) by {
                assert(rest.remove(0).to_multiset() =~= rest.to_multiset().remove(rest[0]));
                assert(rest.remove(0) =~= rest.drop_first());
            }
        }
        let mut pos: usize = 0;
        while initial[pos] != g
            invariant
                0 <= pos < initial@.len(),
                initial@.len() <= bound,
                bound <= MAX_SIDE * MAX_SIDE,
                initial@.contains(g),
                forall|q: int| 0 <= q < pos ==> initial@[q] != g,
            decreases initial@.len() - pos,
        {
            pos = pos + 1;
            proof {
                if pos == initial@.len() {
                    let q = choose|q: int| 0 <= q < initial@.len() && initial@[q] == g;
                    assert(initial@[q] != g);
                }
            }
        }
        proof {
            lemma_first_index(initial@, g, pos as int);
            assert(res + pos <= (k + 1) * bound) by (nonlinear_arith)
                requires
                    res <= k * bound,
                    pos < bound,
            ;
            assert((k + 1) * bound <= MAX_SIDE * MAX_SIDE * MAX_SIDE * MAX_SIDE) by (nonlinear_arith)
                requires
                    k < len,
                    len <= bound,
                    bound <= MAX_SIDE * MAX_SIDE,
            ;
        }
        res = res + pos;
        initial.remove(pos);
    }
    proof {
        if init0.no_duplicates() {
            lemma_swaps_are_pairs(init0, gt@);
        }
    }
    res
}


/// The parity law for the sliding-tile move graph: identical grids are
/// solvable; otherwise on an odd side the inversion count must be even, and on
/// an even side its parity must differ from that of the empty cell's row.
pub open spec fn solvable_law(initial: Seq<Vec<i64>>, goal: Seq<Vec<i64>>) -> bool {
    if grid_view(initial) == grid_view(goal) {
        true
    } else {
        let k = inversions(initial, goal);
        if goal.len() % 2 == 1 {
            k % 2 == 0
        } else {
            let x = locate(initial, 0).0;
            x >= 0 && ((x % 2 == 0 && k % 2 == 1) || (x % 2 == 1 && k % 2 == 0))
        }
    }
}

/// Whether the two grids hold the same rows.
pub fn same_grid(a: &[Vec<i64>], b: &[Vec<i64>]) -> (r: bool)
    ensures
        r == (grid_view(a@) == grid_view(b@)),
{
    if a.len() != b.len() {
        proof {
            assert(grid_view(a@).len() != grid_view(b@).len());
        }
        return false;
    }
    let n = a.len();
    for i in 0..n
        invariant
            n == a@.len(),
            n == b@.len(),
            forall|k: int| 0 <= k < i ==> a@[k]@ == b@[k]@,
    {
        if a[i].len() != b[i].len() {
            proof {
                assert(grid_view(a@)[i as int] != grid_view(b@)[i as int]);
            }
            return false;
        }
        let m = a[i].len();
        for j in 0..m
            invariant
                n == a@.len(),
                n == b@.len(),
                i < n,
                m == a@[i as int]@.len(),
                m == b@[i as int]@.len(),
                forall|k: int| 0 <= k < j ==> a@[i as int]@[k] == b@[i as int]@[k],
        {
            if a[i][j] != b[i][j] {
                proof {
                    assert(grid_view(a@)[i as int][j as int] != grid_view(b@)[i as int][j as int]);
                }
                return false;
            }
        }
        proof {
            assert(a@[i as int]@ =~= b@[i as int]@);
        }
    }
    proof {
        assert(grid_view(a@) =~= grid_view(b@));
    }
    true
}

/// Whether `initial` can be turned into `goal` by sliding tiles, by the parity
/// law on inversions and on the empty cell's row.
pub fn solvable(initial: &[Vec<i64>], goal: &[Vec<i64>]) -> (r: bool)
    requires
        well_sized(initial@),
        well_sized(goal@),
        same_tiles(initial@, goal@),
    ensures
        r == solvable_law(initial@, goal@),
{
    if same_grid(initial, goal) {
        return true;
    }
    let interv = interversion(initial, goal);
    let size = goal.len();
    if size % 2 == 1 {
        interv % 2 == 0
    } else {
        let (x, _y) = find_nb(0, initial);
        if x < 0 {
            false
        } else {
            (x % 2 == 0 && interv % 2 == 1) || (x % 2 == 1 && interv % 2 == 0)
        }
    }
}

/// The cells of `map`, row-major.
fn cells_of(map: &[Vec<i64>]) -> (r: Vec<i64>)
    requires
        well_sized(map@),
    ensures
        r@ == cells(map@),
{
    let n = map.len();
    let mut r: Vec<i64> = Vec::new();
    for x in 0..n
        invariant
            n == map@.len(),
            well_sized(map@),
            r@ == cells(map@.subrange(0, x as int)),
    {
        for y in 0..n
            invariant
                n == map@.len(),
                x < n,
                well_sized(map@),
                r@ == cells(map@.subrange(0, x as int)) + map@[x as int]@.subrange(0, y as int),
        {
            r.push(map[x][y]);
            proof {
                assert(cells(map@.subrange(0, x as int)) + map@[x as int]@.subrange(0, y + 1)
                    =~= r@);
            }
        }
        proof {
            assert(map@[x as int]@.subrange(0, n as int) =~= map@[x as int]@);
            lemma_cells_step(map@, x as int);
        }
    }
    proof {
        assert(map@.subrange(0, n as int) =~= map@);
    }
    r
}

/// Whether some value appears in two cells of `map`.
pub fn with_duplicate(map: &Vec<Vec<i64>>) -> (r: bool)
    requires
        well_sized(map@),
    ensures
        r == !cells(map@).no_duplicates(),
{
    let flat = cells_of(map.as_slice());
    let len = flat.len();
    for a in 0..len
        invariant
            len == flat@.len(),
            flat@ == cells(map@),
            forall|p: int, q: int| 0 <= p < a && p < q < len ==> flat@[p] != flat@[q],
    {
        for b in a + 1..len
            invariant
                len == flat@.len(),
                a < len,
                flat@ == cells(map@),
                forall|p: int, q: int| 0 <= p < a && p < q < len ==> flat@[p] != flat@[q],
                forall|q: int| a < q < b ==> flat@[a as int] != flat@[q],
        {
            if flat[a] == flat[b] {
                return true;
            }
        }
    }
    proof {
        assert forall|p: int, q: int| 0 <= p < len && 0 <= q < len && p != q implies flat@[p]
            != flat@[q] by {
            if p > q {
                assert(flat@[q] != flat@[p]);
            }
        }
    }
    false
}


/// A value occurs in a grid exactly when it occurs among its cells.
pub proof fn lemma_cells_contains(m: Seq<Vec<i64>>, v: i64)
    ensures
        cells(m).contains(v) <==> holds(m, v),
    decreases m.len(),
{
    if m.len() > 0 {
        let p = m.drop_last();
        lemma_cells_contains(p, v);
        let a = cells(p);
        let b = m.last()@;
        if cells(m).contains(v) {
            let k = choose|k: int| 0 <= k < cells(m).len() && cells(m)[k] == v;
            if k < a.len() {
                assert(a[k] == v);
                assert(a.contains(v));
                let (i, j) = choose|i: int, j: int|
                    0 <= i < p.len() && 0 <= j < p[i]@.len() && p[i]@[j] == v;
                assert(m[i] == p[i]);
            } else {
                assert(b[k - a.len()] == v);
                assert(m[m.len() - 1]@[k - a.len()] == v);
            }
        }
        if holds(m, v) {
            let (i, j) = choose|i: int, j: int|
                0 <= i < m.len() && 0 <= j < m[i]@.len() && m[i]@[j] == v;
            if i < p.len() {
                assert(p[i] == m[i]);
                assert(holds(p, v));
                let k = choose|k: int| 0 <= k < a.len() && a[k] == v;
                assert(cells(m)[k] == v);
            } else {
                assert(cells(m)[a.len() + j] == v);
            }
        }
    }
}

/// Removing the empty cells keeps every other value as many times.
pub proof fn lemma_tiles_count(s: Seq<i64>, v: i64)
    ensures
        tiles(s).to_multiset().count(v) == if v == 0 {
            0
        } else {
            s.to_multiset().count(v)
        },
    decreases s.len(),
{
    broadcast use vstd::seq_lib::group_to_multiset_ensures;
    broadcast use vstd::multiset::group_multiset_axioms;

    if s.len() == 0 {
        assert(tiles(s) =~= seq![]);
        assert(s.to_multiset().len() == 0);
        assert(tiles(s).to_multiset().len() == 0);
        vstd::multiset::lemma_multiset_empty_len(s.to_multiset());
        vstd::multiset::lemma_multiset_empty_len(tiles(s).to_multiset());
    } else {
        let p = s.drop_last();
        lemma_tiles_count(p, v);
        assert(s =~= p.push(s.last()));
        lemma_tiles_push(p, s.last());
    }
}

/// Grids whose cells hold the same values hold the same tiles.
pub proof fn lemma_same_tiles(a: Seq<Vec<i64>>, b: Seq<Vec<i64>>)
    requires
        cells(a).to_multiset() == cells(b).to_multiset(),
    ensures
        same_tiles(a, b),
{
    assert forall|v: i64| #[trigger] tiles(cells(a)).to_multiset().count(v) == tiles(
        cells(b),
    ).to_multiset().count(v) by {
        lemma_tiles_count(cells(a), v);
        lemma_tiles_count(cells(b), v);
    }
    assert(tiles(cells(a)).to_multiset() =~= tiles(cells(b)).to_multiset());
}

/// No two cells of the grid hold the same value.
pub open spec fn distinct_values(m: Seq<Vec<i64>>) -> bool {
    forall|i: int, j: int, a: int, b: int|
        0 <= i < m.len() && 0 <= j < m[i]@.len() && 0 <= a < m.len() && 0 <= b < m[a]@.len() && (
        i != a || j != b) ==> #[trigger] m[i]@[j] != #[trigger] m[a]@[b]
}

/// In a grid of distinct values, each cell's value is located at that cell.
pub proof fn lemma_locate_own(m: Seq<Vec<i64>>, i: int, j: int)
    requires
        distinct_values(m),
        0 <= i < m.len(),
        0 <= j < m[i]@.len(),
    ensures
        locate(m, m[i]@[j]) == (i, j),
{
    lemma_locate_found(m, m[i]@[j], i, j);
}

/// Every grid can reach itself: the solvability check accepts a grid paired
/// with itself.
pub proof fn lemma_solvable_self(grid: Seq<Vec<i64>>)
    ensures
        solvable_law(grid, grid),
{
}

/// The cells of a grid depend on its contents alone.
pub proof fn lemma_cells_by_contents(a: Seq<Vec<i64>>, b: Seq<Vec<i64>>)
    requires
        grid_view(a) == grid_view(b),
    ensures
        cells(a) == cells(b),
    decreases a.len(),
{
    assert(a.len() == grid_view(a).len());
    assert(b.len() == grid_view(b).len());
    if a.len() > 0 {
        assert(grid_view(a.drop_last()) =~= grid_view(a).drop_last());
        assert(grid_view(b.drop_last()) =~= grid_view(b).drop_last());
        lemma_cells_by_contents(a.drop_last(), b.drop_last());
        assert(a.last()@ == grid_view(a)[a.len() - 1]);
        assert(b.last()@ == grid_view(b)[b.len() - 1]);
    }
}

/// Where a value is located depends on the grid's contents alone.
pub proof fn lemma_locate_by_contents(a: Seq<Vec<i64>>, b: Seq<Vec<i64>>, v: i64)
    requires
        grid_view(a) == grid_view(b),
    ensures
        locate(a, v) == locate(b, v),
{
    assert(a.len() == grid_view(a).len());
    assert(b.len() == grid_view(b).len());
    assert forall|i: int| #![trigger a[i]] #![trigger b[i]] 0 <= i < a.len() implies a[i]@ == b[i]@ by {
        assert(grid_view(a)[i] == a[i]@);
        assert(grid_view(b)[i] == b[i]@);
    }
    if exists|x: int, y: int| first_at(a, v, x, y) {
        let (x, y) = locate(a, v);
        assert(first_at(a, v, x, y));
        assert(first_at(b, v, x, y));
        lemma_locate_found(b, v, x, y);
    } else if exists|x: int, y: int| first_at(b, v, x, y) {
        let (x, y) = locate(b, v);
        assert(first_at(b, v, x, y));
        assert(first_at(a, v, x, y));
    }
}

/// The solvability check is a function of the two grids' contents: run again
/// on the same contents it gives the same answer.
pub proof fn lemma_solvable_by_contents(
    a1: Seq<Vec<i64>>,
    b1: Seq<Vec<i64>>,
    a2: Seq<Vec<i64>>,
    b2: Seq<Vec<i64>>,
)
    requires
        grid_view(a1) == grid_view(a2),
        grid_view(b1) == grid_view(b2),
    ensures
        solvable_law(a1, b1) == solvable_law(a2, b2),
{
    lemma_cells_by_contents(a1, a2);
    lemma_cells_by_contents(b1, b2);
    lemma_locate_by_contents(a1, a2, 0);
    assert(b1.len() == grid_view(b1).len());
    assert(b2.len() == grid_view(b2).len());
}

/// The text that `str::to_lowercase` makes of `s`.
pub uninterp spec fn lower_of(s: Seq<char>) -> Seq<char>;

/// `s` in lower case.
/// Relies on `str::to_lowercase`, whose result depends on the characters of
/// `s` alone.
#[verifier::external_body]
pub(crate) fn lowercase(s: &str) -> (r: String)
    ensures
        r@ == lower_of(s@),
{
    s.to_lowercase()
}

/// Whether `s` holds exactly the text `w`.
pub(crate) fn is_text(s: &String, w: &str) -> (r: bool)
    ensures
        r == (s@ == w@),
{
    *s == w.to_owned()
}


/// The digit that writes `d`, for `d` below ten.
pub open spec fn digit_char(d: int) -> char {
    seq!['0', '1', '2', '3', '4', '5', '6', '7', '8', '9'][d]
}

/// The decimal digits of `v`.
pub open spec fn digits_text(v: nat) -> Seq<char>
    decreases v,
{
    if v < 10 {
        seq![digit_char(v as int)]
    } else {
        digits_text(v / 10).push(digit_char((v % 10) as int))
    }
}

/// `v` in decimal, with a leading `-` when negative.
pub open spec fn int_text(v: int) -> Seq<char> {
    if v < 0 {
        seq!['-'] + digits_text((-v) as nat)
    } else {
        digits_text(v as nat)
    }
}

/// The values of `row` in decimal, separated by single spaces.
pub open spec fn row_text(row: Seq<i64>) -> Seq<char>
    decreases row.len(),
{
    if row.len() == 0 {
        seq![]
    } else if row.len() == 1 {
        int_text(row[0] as int)
    } else {
        row_text(row.drop_last()) + seq![' '] + int_text(row.last() as int)
    }
}

/// The first `k` rows of the `n` by `n` board `values` (row-major), each
/// after a newline.
pub open spec fn rows_text(n: nat, values: Seq<i64>, k: nat) -> Seq<char>
    decreases k,
{
    if k == 0 {
        seq![]
    } else {
        rows_text(n, values, (k - 1) as nat) + seq!['\n'] + row_text(
            values.subrange(((k - 1) * n) as int, (k * n) as int),
        )
    }
}

/// A board file for the `n` by `n` board `values`: the side, a blank line,
/// then one line per row.
pub open spec fn board_text(n: nat, values: Seq<i64>) -> Seq<char> {
    int_text(n as int) + seq!['\n'] + rows_text(n, values, n)
}

/// `v` in decimal.
/// Relies on `ToString` for `i64`, which writes the decimal digits with a
/// leading `-` for a negative value.
#[verifier::external_body]
fn int_to_text(v: i64) -> (r: String)
    ensures
        r@ == int_text(v as int),
{
    v.to_string()
}

/// A position drawn at random below `bound`.
/// Relies on `rand::thread_rng` and `Rng::gen_range(low, high)`, which
/// returns a value in `[low, high)` and panics when `low >= high`.
#[verifier::external_body]
fn random_below(bound: usize) -> (r: usize)
    requires
        bound > 0,
    ensures
        r < bound,
{
    rand::thread_rng().gen_range(0, bound)
}

/// The values `0` to `n - 1`.
pub open spec fn first_values(n: nat) -> Seq<i64> {
    Seq::new(n, |k: int| k as i64)
}

/// A board file for a random arrangement of the values `0` to
/// `size * size - 1` on a `size` by `size` board.
pub fn creat_new_rand(size: usize) -> (r: String)
    requires
        1 <= size <= MAX_SIDE,
    ensures
        exists|values: Seq<i64>|
            values.to_multiset() == first_values((size * size) as nat).to_multiset() && r@
                == board_text(size as nat, values),
{
    broadcast use vstd::seq_lib::group_to_multiset_ensures;
    broadcast use vstd::seq_lib::lemma_multiset_commutative;

    proof {
        assert(size * size <= MAX_SIDE * MAX_SIDE) by (nonlinear_arith)
            requires
                size <= MAX_SIDE,
        ;
    }
    let total = size * size;
    let mut new_grid: Vec<i64> = Vec::new();
    new_grid.push(0);
    proof {
        assert(new_grid@ =~= first_values(1));
        assert(total >= 1) by (nonlinear_arith)
            requires
                size >= 1,
                total == size * size,
        ;
    }
    for i in 1..total
        invariant
            total == size * size,
            total <= MAX_SIDE * MAX_SIDE,
            new_grid@.len() == i,
            new_grid@.to_multiset() == first_values(i as nat).to_multiset(),
    {
        let at = random_below(i + 1);
        let ghost before = new_grid@;
        new_grid.insert(at, i as i64);
        proof {
            let a = before.subrange(0, at as int);
            let b = before.subrange(at as int, i as int);
            assert(before =~= a + b);
            assert(new_grid@ =~= a.push(i as i64) + b);
            assert(first_values((i + 1) as nat) =~= first_values(i as nat).push(i as i64));
            broadcast use vstd::multiset::group_multiset_axioms;

            vstd::seq_lib::lemma_multiset_commutative(a.push(i as i64), b);
            vstd::seq_lib::lemma_multiset_commutative(a, b);
            a.to_multiset_ensures();
            first_values(i as nat).to_multiset_ensures();
            assert(a.push(i as i64).to_multiset() == a.to_multiset().insert(i as i64));
            assert(new_grid@.to_multiset() =~= before.to_multiset().insert(i as i64));
            assert(first_values(i as nat).push(i as i64).to_multiset() == first_values(i as nat).to_multiset().insert(i as i64));
        }
    }
    let mut text = int_to_text(size as i64);
    text.append("\n");
    proof {
        reveal_strlit("\n");
        reveal_strlit(" ");
        assert(text@ =~= int_text(size as int) + seq!['\n'] + rows_text(size as nat, new_grid@, 0));
    }
    for row in 0..size
        invariant
            total == size * size,
            total <= MAX_SIDE * MAX_SIDE,
            new_grid@.len() == total,
            text@ == int_text(size as int) + seq!['\n'] + rows_text(size as nat, new_grid@, row as nat),
    {
        proof {
            reveal_strlit("\n");
            reveal_strlit(" ");
            assert((row + 1) * size <= size * size) by (nonlinear_arith)
                requires
                    row < size,
            ;
            assert(row * size + size == (row + 1) * size) by (nonlinear_arith);
        }
        let ghost row_vals = new_grid@.subrange(row * size, (row + 1) * size);
        let ghost head = text@;
        text.append("\n");
        let start = row * size;
        for col in 0..size
            invariant
                total == size * size,
                total <= MAX_SIDE * MAX_SIDE,
                new_grid@.len() == total,
                start == row * size,
                start + size <= total,
                row_vals == new_grid@.subrange(start as int, start + size),
                text@ == head + seq!['\n'] + row_text(row_vals.take(col as int)),
        {
            proof {
                reveal_strlit(" ");
                assert(row_vals.take(col + 1).drop_last() =~= row_vals.take(col as int));
            }
            if col > 0 {
                text.append(" ");
            }
            let piece = int_to_text(new_grid[start + col]);
            text.append(piece.as_str());
            proof {
                assert(row_vals.take(col + 1).last() == new_grid@[start + col]);
                if col == 0 {
                    assert(row_vals.take(0) =~= seq![]);
                    assert(text@ =~= head + seq!['\n'] + row_text(row_vals.take(col + 1)));
                } else {
                    assert(text@ =~= head + seq!['\n'] + row_text(row_vals.take(col + 1)));
                }
            }
        }
        proof {
            assert(row_vals.take(size as int) =~= row_vals);
        }
    }
    proof {
        assert(new_grid@.to_multiset() == first_values((size * size) as nat).to_multiset());
        assert(text@ == board_text(size as nat, new_grid@));
    }
    text
}

} // verus!
