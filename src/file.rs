//! The board file format: whitespace-separated integers, one board row per
//! line, `#` starting a comment that runs to the end of the line, blank lines
//! ignored; the first row holds the board's side alone.

use vstd::prelude::*;

verus! {

/// Why a board file was refused.
#[derive(Debug, PartialEq, Eq, Structural, Clone, Copy)]
pub enum FileParsingError {
    /// No line holds a number.
    EmptyMap,
    /// The side is not a single positive number matching the rows and columns.
    BadSize,
    /// No cell holds 0.
    NoEmptySpace,
    /// A word is not a decimal integer that fits in 64 bits.
    InvalidNumber,
}

impl FileParsingError {
    /// A sentence describing the error.
    pub fn message(&self) -> (r: &'static str)
        ensures
            r@ == match self {
                FileParsingError::EmptyMap => "It seems that the input file is empty"@,
                FileParsingError::BadSize => "Map size is incorrect."@,
                FileParsingError::NoEmptySpace => "The empty space (0) is missing"@,
                FileParsingError::InvalidNumber => "A value is not a valid integer."@,
            },
    {
        let r = match self {
            FileParsingError::EmptyMap => "It seems that the input file is empty",
            FileParsingError::BadSize => "Map size is incorrect.",
            FileParsingError::NoEmptySpace => "The empty space (0) is missing",
            FileParsingError::InvalidNumber => "A value is not a valid integer.",
        };
        r
    }
}

/// The characters that Unicode classes as white space.
pub open spec fn white(c: char) -> bool {
    let u = c as u32;
    (0x9 <= u <= 0xD) || u == 0x20 || u == 0x85 || u == 0xA0 || u == 0x1680 || (0x2000 <= u
        <= 0x200A) || u == 0x2028 || u == 0x2029 || u == 0x202F || u == 0x205F || u == 0x3000
}

/// The pieces of `s` between the characters for which `sep` holds (one more
/// piece than separators; pieces may be empty).
pub open spec fn split_by(s: Seq<char>, sep: spec_fn(char) -> bool) -> Seq<Seq<char>>
    decreases s.len(),
{
    if s.len() == 0 {
        seq![seq![]]
    } else {
        let p = split_by(s.drop_last(), sep);
        if sep(s.last()) {
            p.push(seq![])
        } else {
            p.update(p.len() - 1, p.last().push(s.last()))
        }
    }
}

/// `s` up to its first `#`.
pub open spec fn before_comment(s: Seq<char>) -> Seq<char> {
    split_by(s, |c: char| c == '#')[0]
}

/// The words of a line: the non-empty runs of non-white characters before
/// its comment.
pub open spec fn words(line: Seq<char>) -> Seq<Seq<char>> {
    split_by(before_comment(line), |c: char| white(c)).filter(|w: Seq<char>| w.len() > 0)
}

/// The words of each line of `s`.
pub open spec fn line_words(s: Seq<char>) -> Seq<Seq<Seq<char>>> {
    split_by(s, |c: char| c == '\n').map_values(|l: Seq<char>| words(l))
}

/// The words of each line of `s` that has some, line by line.
pub open spec fn text_rows(s: Seq<char>) -> Seq<Seq<Seq<char>>> {
    line_words(s).filter(|r: Seq<Seq<char>>| r.len() > 0)
}

pub open spec fn digit_value(c: char) -> int {
    (c as u32) - ('0' as u32)
}

pub open spec fn is_digit(c: char) -> bool {
    '0' as u32 <= c as u32 <= '9' as u32
}

/// Value of a run of decimal digits.
pub open spec fn digits_value(d: Seq<char>) -> int
    decreases d.len(),
{
    if d.len() == 0 {
        0
    } else {
        digits_value(d.drop_last()) * 10 + digit_value(d.last())
    }
}

/// `w` starts with a sign.
pub open spec fn has_sign(w: Seq<char>) -> bool {
    w.len() > 0 && (w[0] == '-' || w[0] == '+')
}

/// `w` without its sign, if any.
pub open spec fn unsigned_part(w: Seq<char>) -> Seq<char> {
    if has_sign(w) {
        w.drop_first()
    } else {
        w
    }
}

/// The integer that `w` writes in decimal, with an optional sign, when it
/// fits in an `i64`.
pub open spec fn decimal(w: Seq<char>) -> Option<i64> {
    let d = unsigned_part(w);
    let v = if w.len() > 0 && w[0] == '-' {
        -digits_value(d)
    } else {
        digits_value(d)
    };
    if d.len() > 0 && (forall|i: int| 0 <= i < d.len() ==> is_digit(#[trigger] d[i])) && i64::MIN
        <= v <= i64::MAX {
        Some(v as i64)
    } else {
        None
    }
}


/// Every word of every row is a number.
pub open spec fn all_numbers(rows: Seq<Seq<Seq<char>>>) -> bool {
    forall|i: int, j: int|
        0 <= i < rows.len() && 0 <= j < rows[i].len() ==> #[trigger] decimal(rows[i][j]) is Some
}

/// The numbers that the words of each row write.
pub open spec fn numbers(rows: Seq<Seq<Seq<char>>>) -> Seq<Seq<i64>> {
    Seq::new(rows.len(), |i: int| Seq::new(rows[i].len(), |j: int| decimal(rows[i][j])->0))
}

/// The side and the rows of the board that `s` describes, or why it is
/// refused: a word that is no number, no number at all, a first row that is
/// not a single positive side matching the number of rows and of columns,
/// or no empty cell.
pub open spec fn board_of(s: Seq<char>) -> Result<(i64, Seq<Seq<i64>>), FileParsingError> {
    let rows = text_rows(s);
    if !all_numbers(rows) {
        Err(FileParsingError::InvalidNumber)
    } else if rows.len() == 0 {
        Err(FileParsingError::EmptyMap)
    } else if rows[0].len() > 1 {
        Err(FileParsingError::BadSize)
    } else {
        let nums = numbers(rows);
        let size = nums[0][0];
        let board = nums.drop_first();
        if size <= 0 || size != board.len() || exists|i: int|
            0 <= i < board.len() && #[trigger] board[i].len() != size {
            Err(FileParsingError::BadSize)
        } else if !exists|i: int, j: int|
            0 <= i < board.len() && 0 <= j < board[i].len() && #[trigger] board[i][j] == 0 {
            Err(FileParsingError::NoEmptySpace)
        } else {
            Ok((size, board))
        }
    }
}

/// The contents of each vector of characters.
pub open spec fn texts(v: Seq<Vec<char>>) -> Seq<Seq<char>> {
    v.map_values(|x: Vec<char>| x@)
}

proof fn lemma_split_nonempty(s: Seq<char>, sep: spec_fn(char) -> bool)
    ensures
        split_by(s, sep).len() >= 1,
    decreases s.len(),
{
    if s.len() > 0 {
        lemma_split_nonempty(s.drop_last(), sep);
    }
}

proof fn lemma_digits_prefix(d: Seq<char>, m: int)
    requires
        0 <= m <= d.len(),
        forall|i: int| 0 <= i < d.len() ==> is_digit(#[trigger] d[i]),
    ensures
        0 <= digits_value(d.take(m)) <= digits_value(d),
    decreases d.len(),
{
    if m == d.len() {
        assert(d.take(m) =~= d);
        if d.len() > 0 {
            lemma_digits_prefix(d.drop_last(), 0);
        }
    } else {
        lemma_digits_prefix(d.drop_last(), m);
        assert(d.drop_last().take(m) =~= d.take(m));
        lemma_digits_prefix(d.drop_last(), 0);
    }
}

/// The characters of `s`.
fn chars_of(s: &str) -> (r: Vec<char>)
    ensures
        r@ == s@,
{
    broadcast use vstd::seq::Seq::lemma_take_len;

    let mut r: Vec<char> = Vec::new();
    for c in it: s.chars()
        invariant
            it.seq() == s@,
            r@ == s@.take(it.index() as int),
    {
        r.push(c);
        proof {
            assert(s@.take(it.index() + 1) =~= r@);
        }
    }
    r
}

/// The lines of `s`: its pieces between newlines.
fn split_lines(s: &Vec<char>) -> (r: Vec<Vec<char>>)
    ensures
        texts(r@) == split_by(s@, |c: char| c == '\n'),
{
    let n = s.len();
    let mut out: Vec<Vec<char>> = Vec::new();
    let mut cur: Vec<char> = Vec::new();
    for k in 0..n
        invariant
            n == s@.len(),
            texts(out@).push(cur@) == split_by(s@.take(k as int), |c: char| c == '\n'),
    {
        let c = s[k];
        proof {
            assert(s@.take(k + 1).drop_last() =~= s@.take(k as int));
            assert(s@.take(k + 1).last() == c);
        }
        if c == '\n' {
            out.push(cur);
            cur = Vec::new();
            proof {
                assert(texts(out@).push(cur@) =~= split_by(s@.take(k + 1), |c: char| c == '\n'));
            }
        } else {
            cur.push(c);
            proof {
                assert(texts(out@).push(cur@) =~= split_by(s@.take(k + 1), |c: char| c == '\n'));
            }
        }
    }
    out.push(cur);
    proof {
        assert(s@.take(n as int) =~= s@);
        assert(texts(out@) =~= split_by(s@, |c: char| c == '\n'));
    }
    out
}

/// Whether `c` is white space.
fn is_space(c: char) -> (r: bool)
    ensures
        r == white(c),
{
    let u = c as u32;
    (0x9 <= u && u <= 0xD) || u == 0x20 || u == 0x85 || u == 0xA0 || u == 0x1680 || (0x2000 <= u
        && u <= 0x200A) || u == 0x2028 || u == 0x2029 || u == 0x202F || u == 0x205F || u == 0x3000
}

/// `line` up to its first `#`.
fn cut_comment(line: &Vec<char>) -> (r: Vec<char>)
    ensures
        r@ == before_comment(line@),
{
    let n = line.len();
    let mut out: Vec<char> = Vec::new();
    let mut seen = false;
    proof {
        lemma_split_nonempty(line@.take(0), |c: char| c == '#');
    }
    for k in 0..n
        invariant
            n == line@.len(),
            out@ == split_by(line@.take(k as int), |c: char| c == '#')[0],
            seen == (split_by(line@.take(k as int), |c: char| c == '#').len() > 1),
            split_by(line@.take(k as int), |c: char| c == '#').len() >= 1,
    {
        let c = line[k];
        proof {
            assert(line@.take(k + 1).drop_last() =~= line@.take(k as int));
            assert(line@.take(k + 1).last() == c);
        }
        if c == '#' {
            seen = true;
        } else if !seen {
            out.push(c);
        }
        proof {
            let p = split_by(line@.take(k as int), |c: char| c == '#');
            let q = split_by(line@.take(k + 1), |c: char| c == '#');
            if c == '#' {
                assert(q == p.push(seq![]));
            } else {
                assert(q == p.update(p.len() - 1, p.last().push(c)));
                if !seen {
                    assert(p.len() == 1);
                    assert(out@ =~= q[0]);
                }
            }
        }
    }
    proof {
        assert(line@.take(n as int) =~= line@);
    }
    out
}

/// The non-empty runs of non-white characters of `s`.
fn split_words(s: &Vec<char>) -> (r: Vec<Vec<char>>)
    ensures
        texts(r@) == split_by(s@, |c: char| white(c)).filter(|w: Seq<char>| w.len() > 0),
{
    let n = s.len();
    let mut out: Vec<Vec<char>> = Vec::new();
    let mut cur: Vec<char> = Vec::new();
    let ghost nonempty = |w: Seq<char>| w.len() > 0;
    proof {
        lemma_split_nonempty(s@.take(0), |c: char| white(c));
    }
    for k in 0..n
        invariant
            n == s@.len(),
            nonempty == (|w: Seq<char>| w.len() > 0),
            split_by(s@.take(k as int), |c: char| white(c)).len() >= 1,
            texts(out@) == split_by(s@.take(k as int), |c: char| white(c)).drop_last().filter(
                nonempty,
            ),
            cur@ == split_by(s@.take(k as int), |c: char| white(c)).last(),
    {
        let c = s[k];
        let ghost p = split_by(s@.take(k as int), |c: char| white(c));
        proof {
            assert(s@.take(k + 1).drop_last() =~= s@.take(k as int));
            assert(s@.take(k + 1).last() == c);
            assert(p =~= p.drop_last().push(p.last()));
            reveal_with_fuel(Seq::filter, 1);
        }
        if is_space(c) {
            if cur.len() > 0 {
                out.push(cur);
            }
            cur = Vec::new();
            proof {
                let q = split_by(s@.take(k + 1), |c: char| white(c));
                assert(q == p.push(seq![]));
                assert(q.drop_last() =~= p);
                assert(texts(out@) =~= p.filter(nonempty));
            }
        } else {
            cur.push(c);
            proof {
                let q = split_by(s@.take(k + 1), |c: char| white(c));
                assert(q == p.update(p.len() - 1, p.last().push(c)));
                assert(q.drop_last() =~= p.drop_last());
            }
        }
    }
    proof {
        assert(s@.take(n as int) =~= s@);
        reveal_with_fuel(Seq::filter, 1);
        let p = split_by(s@, |c: char| white(c));
        assert(p =~= p.drop_last().push(p.last()));
    }
    if cur.len() > 0 {
        out.push(cur);
    }
    proof {
        assert(texts(out@) =~= split_by(s@, |c: char| white(c)).filter(nonempty));
    }
    out
}

/// The words of `line`.
fn words_of(line: &Vec<char>) -> (r: Vec<Vec<char>>)
    ensures
        texts(r@) == words(line@),
{
    let text = cut_comment(line);
    split_words(&text)
}

/// The integer that `w` writes in decimal, if it fits in an `i64`.
pub fn parse_int(w: &Vec<char>) -> (r: Option<i64>)
    ensures
        r == decimal(w@),
{
    let n = w.len();
    if n == 0 {
        return None;
    }
    let neg = w[0] == '-';
    let signed = neg || w[0] == '+';
    let start: usize = if signed {
        1
    } else {
        0
    };
    let ghost d = unsigned_part(w@);
    proof {
        assert(d =~= w@.subrange(start as int, n as int));
    }
    if start == n {
        return None;
    }
    let mut mag: u64 = 0;
    for k in start..n
        invariant
            n == w@.len(),
            start <= n,
            d == w@.subrange(start as int, n as int),
            d == unsigned_part(w@),
            mag == digits_value(d.take(k - start)),
            mag <= 9223372036854775809u64,
            forall|i: int| 0 <= i < k - start ==> is_digit(#[trigger] d[i]),
    {
        let c = w[k];
        proof {
            assert(d[k - start] == c);
            assert(d.take(k - start + 1).drop_last() =~= d.take(k - start));
        }
        let u = c as u32;
        if u < '0' as u32 || u > '9' as u32 {
            proof {
                assert(!is_digit(d[k - start]));
                assert(!(forall|i: int| 0 <= i < d.len() ==> is_digit(#[trigger] d[i])));
                assert(decimal(w@) is None);
            }
            return None;
        }
        let digit = (u - '0' as u32) as u64;
        if mag > 922337203685477580 {
            proof {
                if forall|i: int| 0 <= i < d.len() ==> is_digit(#[trigger] d[i]) {
                    lemma_digits_prefix(d, k - start + 1);
                    assert(d.take(k - start + 1).last() == c);
                    assert(digits_value(d.take(k - start + 1)) == mag * 10 + digit_value(c));
                    assert(mag * 10 >= 9223372036854775810) by (nonlinear_arith)
                        requires
                            mag > 922337203685477580,
                    ;
                    assert(digits_value(d) > 9223372036854775808);
                }
                assert(decimal(w@) is None);
            }
            return None;
        }
        mag = mag * 10 + digit;
    }
    proof {
        assert(d.take(n - start) =~= d);
    }
    if neg {
        if mag > 9223372036854775808u64 {
            None
        } else if mag == 9223372036854775808u64 {
            Some(i64::MIN)
        } else {
            Some(-(mag as i64))
        }
    } else {
        if mag > 9223372036854775807u64 {
            None
        } else {
            Some(mag as i64)
        }
    }
}

/// Reads a board file: its side and its rows.
#[verifier::loop_isolation(false)]
#[verifier::rlimit(40)]
pub fn parse_file(arg: String) -> (r: Result<(i64, Vec<Vec<i64>>), FileParsingError>)
    ensures
        r is Ok <==> board_of(arg@) is Ok,
        r matches Ok((n, g)) ==> board_of(arg@) == Ok::<(i64, Seq<Seq<i64>>), FileParsingError>(
            (n, crate::utils::grid_view(g@)),
        ),
        r matches Err(e) ==> board_of(arg@) == Err::<(i64, Seq<Seq<i64>>), FileParsingError>(e),
{
    let chars = chars_of(arg.as_str());
    let lines = split_lines(&chars);
    let ghost lw = line_words(chars@);
    let ghost nonempty = |r: Seq<Seq<char>>| r.len() > 0;
    let nl = lines.len();
    proof {
        assert(lw.len() == nl);
    }
    let mut rows: Vec<Vec<i64>> = Vec::new();
    for i in 0..nl
        invariant
            nl == lines@.len(),
            chars@ == arg@,
            texts(lines@) == split_by(chars@, |c: char| c == '\n'),
            lw == line_words(chars@),
            lw.len() == nl,
            nonempty == (|r: Seq<Seq<char>>| r.len() > 0),
            all_numbers(lw.take(i as int).filter(nonempty)),
            crate::utils::grid_view(rows@) == numbers(lw.take(i as int).filter(nonempty)),
    {
        let ws = words_of(&lines[i]);
        let ghost pre = lw.take(i as int).filter(nonempty);
        proof {
            assert(lw[i as int] == words(lines@[i as int]@));
            assert(texts(ws@) == lw[i as int]);
            assert(lw.take(i + 1).drop_last() =~= lw.take(i as int));
            reveal_with_fuel(Seq::filter, 1);
        }
        if ws.len() > 0 {
            let mut nums: Vec<i64> = Vec::new();
            let wl = ws.len();
            for j in 0..wl
                invariant
                    wl == ws@.len(),
                    texts(ws@) == lw[i as int],
                    i < nl,
                    lw.len() == nl,
                    lw == line_words(chars@),
                    chars@ == arg@,
                    nonempty == (|r: Seq<Seq<char>>| r.len() > 0),
                    nums@.len() == j,
                    forall|k: int| 0 <= k < j ==> decimal(#[trigger] lw[i as int][k]) == Some(nums@[k]),
            {
                match parse_int(&ws[j]) {
                    Some(v) => {
                        nums.push(v);
                    },
                    None => {
                        proof {
                            assert(nonempty(lw[i as int]));
                            lw.lemma_filter_contains(nonempty, i as int);
                            let t = text_rows(arg@);
                            assert(t.contains(lw[i as int]));
                            let q = choose|q: int| 0 <= q < t.len() && t[q] == lw[i as int];
                            assert(decimal(t[q][j as int]) is None);
                        }
                        return Err(FileParsingError::InvalidNumber);
                    },
                }
            }
            rows.push(nums);
            proof {
                let post = lw.take(i + 1).filter(nonempty);
                assert(post == pre.push(lw[i as int]));
                assert forall|a: int, b: int|
                    0 <= a < post.len() && 0 <= b < post[a].len() implies #[trigger] decimal(
                    post[a][b],
                ) is Some by {
                    if a < pre.len() {
                        assert(post[a] == pre[a]);
                    }
                }
                assert(lw[i as int].len() == wl);
                assert(nums@ =~= numbers(post)[post.len() - 1]);
                assert forall|k: int| 0 <= k < post.len() implies #[trigger] crate::utils::grid_view(rows@)[k] == numbers(post)[k] by {
                    if k < pre.len() {
                        assert(post[k] == pre[k]);
                        assert(crate::utils::grid_view(rows@)[k] == numbers(pre)[k]);
                    }
                }
                assert(crate::utils::grid_view(rows@) =~= numbers(post));
            }
        } else {
            proof {
                assert(lw.take(i + 1).filter(nonempty) == pre);
            }
        }
    }
    proof {
        assert(lw.take(nl as int) =~= lw);
    }
    let ghost t = text_rows(arg@);
    let ghost nums_all = numbers(t);
    if rows.len() == 0 {
        return Err(FileParsingError::EmptyMap);
    }
    proof {
        assert(rows@[0]@ == nums_all[0]);
        assert(t[0].len() > 0) by {
            lw.lemma_filter_pred(nonempty, 0);
        }
    }
    if rows[0].len() > 1 {
        return Err(FileParsingError::BadSize);
    }
    let size = rows[0][0];
    let first = rows.remove(0);
    let ghost board = nums_all.drop_first();
    proof {
        assert(crate::utils::grid_view(rows@) =~= board);
    }
    if size <= 0 || size as u64 != rows.len() as u64 {
        return Err(FileParsingError::BadSize);
    }
    let n = rows.len();
    for i in 0..n
        invariant
            n == rows@.len(),
            crate::utils::grid_view(rows@) == board,
            forall|k: int| 0 <= k < i ==> #[trigger] board[k].len() == size,
    {
        if rows[i].len() != n {
            proof {
                assert(board[i as int].len() != size);
            }
            return Err(FileParsingError::BadSize);
        }
    }
    let mut found = false;
    for i in 0..n
        invariant
            n == rows@.len(),
            crate::utils::grid_view(rows@) == board,
            forall|k: int| 0 <= k < n ==> #[trigger] board[k].len() == size,
            found == exists|a: int, b: int| 0 <= a < i && 0 <= b < n && #[trigger] board[a][b] == 0,
    {
        let w = rows[i].len();
        let ghost found0 = found;
        proof {
            assert(rows@[i as int]@ == board[i as int]);
        }
        for j in 0..w
            invariant
                n == rows@.len(),
                i < n,
                w == n,
                w == rows@[i as int]@.len(),
                crate::utils::grid_view(rows@) == board,
                found == (found0 || exists|b: int| 0 <= b < j && #[trigger] board[i as int][b] == 0),
        {
            if rows[i][j] == 0 {
                found = true;
                proof {
                    assert(board[i as int][j as int] == 0);
                }
            }
        }
        proof {
            if found && !found0 {
                let b = choose|b: int| 0 <= b < w && #[trigger] board[i as int][b] == 0;
                assert(board[i as int][b] == 0);
            }
            if found0 {
                let (a, b) = choose|a: int, b: int| 0 <= a < i && 0 <= b < n && #[trigger] board[a][b] == 0;
                assert(board[a][b] == 0);
            }
        }
    }
    proof {
        assert(t == text_rows(arg@));
        assert(all_numbers(t));
        assert(nums_all[0][0] == size);
        assert(forall|k: int| 0 <= k < n ==> #[trigger] board[k].len() == size);
        assert(!exists|k: int| 0 <= k < board.len() && #[trigger] board[k].len() != size);
        if found {
            let (a, b) = choose|a: int, b: int| 0 <= a < n && 0 <= b < n && #[trigger] board[a][b] == 0;
            assert(0 <= b < board[a].len());
        } else {
            assert forall|a: int, b: int| 0 <= a < board.len() && 0 <= b < board[a].len() implies #[trigger] board[a][b] != 0 by {
                assert(board[a].len() == n);
            }
        }
    }
    if !found {
        return Err(FileParsingError::NoEmptySpace);
    }
    Ok((size, rows))
}

} // verus!
