//! Reading Game of Life patterns from text, in run-length-encoded (RLE) or
//! plain-text grid form, and centring a pattern on the origin.

use crate::collections::{set_insert, set_members, Cell};
use crate::hud::{decimal, law_decimal_reads_back};
use crate::text::{
    chars_of, contains_run, contains_run_chars, lines, lines_upto, split_lines, starts_with,
    starts_with_chars, strip_cr, trim, trim_chars, trim_end, trim_start, views,
};
use rustc_hash::FxHashSet;
use vstd::prelude::*;

verus! {

/// Whether `c` is one of the ASCII digits `0`-`9`.
pub open spec fn is_digit(c: char) -> bool {
    48 <= c as u32 <= 57
}

/// The value of a run of decimal digits.
pub open spec fn digits_value(d: Seq<char>) -> int
    decreases d.len(),
{
    if d.len() == 0 {
        0
    } else {
        digits_value(d.drop_last()) * 10 + (d.last() as u32 - 48)
    }
}

/// A run count as the reader takes it: the digits read since the last
/// command, parsed as an `i32`, and 1 when there are none or they are out
/// of range (as `str::parse::<i32>` fails there).
pub open spec fn run_count(d: Seq<char>) -> int {
    if d.len() == 0 || digits_value(d) > i32::MAX {
        1
    } else {
        digits_value(d)
    }
}

/// Where the RLE reader stands: the current column and row, the digits of
/// a pending run count, the cells placed so far, whether it has reached the
/// closing `!`, and whether a coordinate has left the `i32` range.
pub struct RleState {
    pub x: int,
    pub y: int,
    pub count: Seq<char>,
    pub cells: Set<Cell>,
    pub done: bool,
    pub overflow: bool,
}

/// The RLE reader before any character.
pub open spec fn rle_start() -> RleState {
    RleState {
        x: 0,
        y: 0,
        count: seq![],
        cells: Set::empty(),
        done: false,
        overflow: false,
    }
}

/// The cells of a run of `r` live cells starting at column `x` of row `y`.
pub open spec fn run_cells(x: int, y: int, r: int) -> Set<Cell> {
    Set::new(|c: Cell| x <= c.0 < x + r && c.1 == y)
}

/// The RLE reader after one more character `c`: a digit extends the run
/// count; `b` skips that many dead cells; `o` places that many live cells;
/// `$` moves down that many rows to column 0; `!` ends the pattern; any
/// other character is ignored, keeping the pending count.
pub open spec fn rle_step(st: RleState, c: char) -> RleState {
    if st.done || st.overflow {
        st
    } else if is_digit(c) {
        RleState { count: st.count.push(c), ..st }
    } else if c == 'b' {
        let nx = st.x + run_count(st.count);
        if nx > i32::MAX {
            RleState { overflow: true, ..st }
        } else {
            RleState { x: nx, count: seq![], ..st }
        }
    } else if c == 'o' {
        let r = run_count(st.count);
        if st.x + r > i32::MAX {
            RleState { overflow: true, ..st }
        } else {
            RleState {
                x: st.x + r,
                count: seq![],
                cells: st.cells.union(run_cells(st.x, st.y, r)),
                ..st
            }
        }
    } else if c == '$' {
        let ny = st.y + run_count(st.count);
        if ny > i32::MAX {
            RleState { overflow: true, ..st }
        } else {
            RleState { x: 0, y: ny, count: seq![], ..st }
        }
    } else if c == '!' {
        RleState { done: true, ..st }
    } else {
        st
    }
}

/// The RLE reader after the first `n` characters of `data`.
pub open spec fn rle_run(data: Seq<char>, n: nat) -> RleState
    decreases n,
{
    if n == 0 {
        rle_start()
    } else {
        rle_step(rle_run(data, (n - 1) as nat), data[n - 1])
    }
}

/// `#`, which starts a comment line.
pub open spec fn comment_mark() -> Seq<char> {
    seq!['#']
}

/// `x = `, which starts an RLE header line.
pub open spec fn header_mark() -> Seq<char> {
    seq!['x', ' ', '=', ' ']
}

/// Whether an RLE line holds pattern data, not a comment or the header.
pub open spec fn is_data_line(line: Seq<char>) -> bool {
    !(starts_with(line, comment_mark()) || starts_with(line, header_mark()))
}

/// The pattern data of the lines `ls`: the data lines, trimmed and joined.
pub open spec fn rle_data(ls: Seq<Seq<char>>) -> Seq<char>
    decreases ls.len(),
{
    if ls.len() == 0 {
        seq![]
    } else {
        rle_data(ls.drop_last()) + if is_data_line(ls.last()) {
            trim(ls.last())
        } else {
            seq![]
        }
    }
}

/// Where the plain-text reader stands: the next row, the cells placed so
/// far, and whether the row number has left the `i32` range.
pub struct PlainState {
    pub y: int,
    pub cells: Set<Cell>,
    pub overflow: bool,
}

/// Whether a trimmed plain-text line is a grid row: not blank, and not a
/// `!` comment.
pub open spec fn is_grid_row(t: Seq<char>) -> bool {
    t.len() > 0 && t[0] != '!'
}

/// The live cells of grid row `t` placed at row `y`: one per `O` or `*`,
/// at its position in the row.
pub open spec fn row_cells(t: Seq<char>, y: int) -> Set<Cell> {
    Set::new(
        |c: Cell|
            exists|i: int|
                0 <= i < t.len() && (t[i] == 'O' || t[i] == '*') && c == (i as i32, y as i32),
    )
}

/// The plain-text reader after the first `n` lines of `ls`: each grid row
/// (trimmed) places its cells and moves down a row; other lines are
/// skipped.
pub open spec fn plain_run(ls: Seq<Seq<char>>, n: nat) -> PlainState
    decreases n,
{
    if n == 0 {
        PlainState { y: 0, cells: Set::empty(), overflow: false }
    } else {
        let st = plain_run(ls, (n - 1) as nat);
        let t = trim(ls[n - 1]);
        if st.overflow || !is_grid_row(t) {
            st
        } else if st.y + 1 > i32::MAX {
            PlainState { overflow: true, ..st }
        } else {
            PlainState { y: st.y + 1, cells: st.cells.union(row_cells(t, st.y)), ..st }
        }
    }
}

/// Whether text `s` is read as RLE: it holds `x =` or a `!`.
pub open spec fn is_rle(s: Seq<char>) -> bool {
    contains_run(s, seq!['x', ' ', '=']) || s.contains('!')
}

/// The live cells of the pattern in text `s`, or `None` when a coordinate
/// would leave the `i32` range.
pub open spec fn pattern_cells(s: Seq<char>) -> Option<Set<Cell>> {
    if is_rle(s) {
        let data = rle_data(lines(s));
        let st = rle_run(data, data.len());
        if st.overflow {
            None
        } else {
            Some(st.cells)
        }
    } else {
        let ls = lines(s);
        let st = plain_run(ls, ls.len());
        if st.overflow {
            None
        } else {
            Some(st.cells)
        }
    }
}

/// The text of a one-column RLE pattern: the header `x = 1, y = 1`, then a
/// live cell, the run count `count` before `$`, and another live cell.
pub open spec fn row_skip_text(count: Seq<char>) -> Seq<char> {
    seq!['x', ' ', '=', ' ', '1', ',', ' ', 'y', ' ', '=', ' ', '1', '\n', 'o'] + count + seq![
        '$',
        'o',
        '!',
    ]
}

/// Reading characters without a line break only extends the line in
/// progress.
proof fn lemma_lines_within_line(s: Seq<char>, a: nat, k: nat)
    requires
        a + k <= s.len(),
        lines_upto(s, a).1 == Seq::<char>::empty(),
        forall|i: int| a <= i < a + k ==> #[trigger] s[i] != '\n',
    ensures
        lines_upto(s, a + k) == (lines_upto(s, a).0, s.subrange(a as int, (a + k) as int)),
    decreases k,
{
    if k > 0 {
        lemma_lines_within_line(s, a, (k - 1) as nat);
        assert(s.subrange(a as int, (a + k) as int) =~= s.subrange(a as int, (a + k - 1) as int).push(
            s[a + k - 1],
        ));
    }
}

/// While the RLE reader reads the digits of a run count after a first live
/// cell, it only collects them.
proof fn lemma_rle_collects_count(data: Seq<char>, count: Seq<char>, k: nat)
    requires
        data.len() > count.len(),
        data[0] == 'o',
        forall|i: int| 0 <= i < count.len() ==> is_digit(#[trigger] count[i]),
        forall|i: int| 0 <= i < count.len() ==> data[i + 1] == count[i],
        k <= count.len(),
    ensures
        rle_run(data, k + 1) == (RleState {
            x: 1,
            y: 0,
            count: count.take(k as int),
            cells: run_cells(0, 0, 1),
            done: false,
            overflow: false,
        }),
    decreases k,
{
    if k == 0 {
        assert(rle_run(data, 0) == rle_start());
        assert(Set::<Cell>::empty().union(run_cells(0, 0, 1)) =~= run_cells(0, 0, 1));
        assert(count.take(0) =~= Seq::<char>::empty());
    } else {
        lemma_rle_collects_count(data, count, (k - 1) as nat);
        let c = count[k - 1];
        assert(data[k as int] == c);
        assert(is_digit(c));
        assert(count.take((k - 1) as int).push(c) =~= count.take(k as int));
    }
}

/// In RLE data a run count `n` before `$` moves the reader down `n` rows to
/// column 0: for every `n` from 1 to `i32::MAX`, the pattern
/// `x = 1, y = 1` / `o` `n` `$o!` holds exactly the cells `(0, 0)` and
/// `(0, n)`.
pub proof fn law_rle_row_skip(n: nat)
    requires
        1 <= n <= i32::MAX,
    ensures
        pattern_cells(row_skip_text(decimal(n))) == Some(set![(0i32, 0i32), (0i32, n as i32)]),
{
    law_decimal_reads_back(n);
    let ds = decimal(n);
    let s = row_skip_text(ds);
    let h = seq!['x', ' ', '=', ' ', '1', ',', ' ', 'y', ' ', '=', ' ', '1'];
    let l = seq!['o'] + ds + seq!['$', 'o', '!'];
    let len = s.len();
    assert(len == 13 + l.len());
    assert(forall|i: int| 0 <= i < ds.len() ==> #[trigger] s[14 + i] == ds[i] && l[1 + i] == ds[i]);
    // The lines: the header, then the data line.
    assert(lines_upto(s, 0).1 == Seq::<char>::empty());
    lemma_lines_within_line(s, 0, 12);
    assert(s.subrange(0, 12) =~= h);
    assert(s[12] == '\n');
    assert(strip_cr(h) == h);
    assert(lines_upto(s, 13) == (seq![h], Seq::<char>::empty()));
    assert forall|i: int| 13 <= i < 13 + l.len() implies #[trigger] s[i] != '\n' by {
        if 14 <= i < 14 + ds.len() {
            assert(s[i] == ds[i - 14]);
            assert(is_digit(ds[i - 14]));
        }
    }
    lemma_lines_within_line(s, 13, l.len());
    assert(s.subrange(13, len as int) =~= l);
    assert(lines(s) == seq![h, l]);
    // The data: the header is skipped, and the data line needs no trimming.
    assert(s[len - 1] == '!');
    assert(is_rle(s));
    assert(starts_with(h, header_mark())) by {
        assert(h.take(4) =~= header_mark());
    }
    assert(is_data_line(l)) by {
        assert(l.take(1)[0] == 'o');
        assert(l.take(4)[0] == 'o');
    }
    assert(trim_start(l) == l);
    assert(l.last() == '!');
    assert(trim_end(l) == l);
    assert(seq![h, l].drop_last() =~= seq![h]);
    assert(seq![h].drop_last() =~= Seq::<Seq<char>>::empty());
    assert(seq![h].last() == h);
    assert(!is_data_line(h));
    assert(rle_data(Seq::<Seq<char>>::empty()) == Seq::<char>::empty());
    assert(rle_data(seq![h]) == rle_data(Seq::<Seq<char>>::empty()) + Seq::<char>::empty());
    assert(rle_data(seq![h]) =~= Seq::<char>::empty());
    assert(rle_data(seq![h, l]) =~= l);
    // The run: a live cell, the count, the move down, a live cell, the end.
    lemma_rle_collects_count(l, ds, ds.len());
    assert(ds.take(ds.len() as int) =~= ds);
    let k = ds.len() + 1;
    assert(l[k as int] == '$');
    assert(run_count(ds) == n);
    assert(rle_run(l, k + 1) == (RleState {
        x: 0,
        y: n as int,
        count: seq![],
        cells: run_cells(0, 0, 1),
        done: false,
        overflow: false,
    }));
    assert(l[k as int + 1] == 'o');
    let cells = run_cells(0, 0, 1).union(run_cells(0, n as int, 1));
    assert(rle_run(l, k + 2).cells == cells);
    assert(l[k as int + 2] == '!');
    assert(l.len() == k + 3);
    assert(rle_run(l, k + 3).cells == cells && !rle_run(l, k + 3).overflow);
    assert(cells =~= set![(0i32, 0i32), (0i32, n as i32)]);
}

/// Digits have a non-negative value.
proof fn lemma_digits_nonneg(d: Seq<char>)
    requires
        forall|i: int| 0 <= i < d.len() ==> is_digit(#[trigger] d[i]),
    ensures
        digits_value(d) >= 0,
    decreases d.len(),
{
    if d.len() > 0 {
        lemma_digits_nonneg(d.drop_last());
    }
}

/// A run count read from pending digits `d`: their value as an `i32`, or 1
/// when there are none or the value is out of range.
fn parse_count(d: &Vec<char>) -> (r: i32)
    requires
        forall|i: int| 0 <= i < d@.len() ==> is_digit(#[trigger] d@[i]),
    ensures
        r == run_count(d@),
        r >= 0,
{
    proof {
        lemma_digits_nonneg(d@);
    }
    if d.len() == 0 {
        return 1;
    }
    let mut v: i64 = 0;
    let mut over = false;
    let mut i: usize = 0;
    while i < d.len()
        invariant
            i <= d@.len(),
            forall|k: int| 0 <= k < d@.len() ==> is_digit(#[trigger] d@[k]),
            over ==> digits_value(d@.take(i as int)) > i32::MAX,
            !over ==> v == digits_value(d@.take(i as int)) && 0 <= v <= i32::MAX,
        decreases d.len() - i,
    {
        let digit = (d[i] as u32 - 48) as i64;
        proof {
            assert(d@.take(i + 1).drop_last() =~= d@.take(i as int));
            assert(is_digit(d@[i as int]));
        }
        if !over {
            v = v * 10 + digit;
            if v > i32::MAX as i64 {
                over = true;
            }
        }
        i += 1;
    }
    proof {
        assert(d@.take(d@.len() as int) =~= d@);
    }
    if over {
        1
    } else {
        v as i32
    }
}

/// Once the RLE reader has finished or overflowed, later characters change
/// nothing.
proof fn lemma_rle_stays(data: Seq<char>, k: nat, m: nat)
    requires
        k <= m <= data.len(),
        rle_run(data, k).done || rle_run(data, k).overflow,
    ensures
        rle_run(data, m) == rle_run(data, k),
    decreases m - k,
{
    if m > k {
        lemma_rle_stays(data, k, (m - 1) as nat);
    }
}

/// Runs the RLE reader over `data`; `None` when a coordinate would leave
/// the `i32` range.
fn read_rle(data: &Vec<char>) -> (r: Option<FxHashSet<Cell>>)
    ensures
        match r {
            None => rle_run(data@, data@.len()).overflow,
            Some(cells) => !rle_run(data@, data@.len()).overflow && cells@ == rle_run(
                data@,
                data@.len(),
            ).cells,
        },
{
    let mut cells: FxHashSet<Cell> = FxHashSet::default();
    let mut x: i32 = 0;
    let mut y: i32 = 0;
    let mut count: Vec<char> = Vec::new();
    let mut i: usize = 0;
    while i < data.len()
        invariant
            i <= data@.len(),
            rle_run(data@, i as nat) == (RleState {
                x: x as int,
                y: y as int,
                count: count@,
                cells: cells@,
                done: false,
                overflow: false,
            }),
            0 <= x,
            0 <= y,
            forall|k: int| 0 <= k < count@.len() ==> is_digit(#[trigger] count@[k]),
        decreases data.len() - i,
    {
        let ch = data[i];
        let ghost before = rle_run(data@, i as nat);
        if 48 <= ch as u32 && ch as u32 <= 57 {
            count.push(ch);
        } else if ch == 'b' {
            let repeat = parse_count(&count);
            if x as i64 + repeat as i64 > i32::MAX as i64 {
                proof {
                    lemma_rle_stays(data@, (i + 1) as nat, data@.len());
                }
                return None;
            }
            x = x + repeat;
            count = Vec::new();
        } else if ch == 'o' {
            let repeat = parse_count(&count);
            if x as i64 + repeat as i64 > i32::MAX as i64 {
                proof {
                    lemma_rle_stays(data@, (i + 1) as nat, data@.len());
                }
                return None;
            }
            let ghost x0 = x;
            let ghost cells0 = cells@;
            let mut k: i32 = 0;
            while k < repeat
                invariant
                    0 <= k <= repeat,
                    x == x0 + k,
                    x0 + repeat <= i32::MAX,
                    cells@ == cells0.union(run_cells(x0 as int, y as int, k as int)),
                decreases repeat - k,
            {
                set_insert(&mut cells, (x, y));
                proof {
                    assert(cells@ =~= cells0.union(run_cells(x0 as int, y as int, k + 1)));
                }
                x = x + 1;
                k = k + 1;
            }
            count = Vec::new();
        } else if ch == '$' {
            let repeat = parse_count(&count);
            if y as i64 + repeat as i64 > i32::MAX as i64 {
                proof {
                    lemma_rle_stays(data@, (i + 1) as nat, data@.len());
                }
                return None;
            }
            y = y + repeat;
            x = 0;
            count = Vec::new();
        } else if ch == '!' {
            proof {
                lemma_rle_stays(data@, (i + 1) as nat, data@.len());
            }
            return Some(cells);
        }
        proof {
            assert(rle_run(data@, (i + 1) as nat) =~= (RleState {
                x: x as int,
                y: y as int,
                count: count@,
                cells: cells@,
                done: false,
                overflow: false,
            }));
        }
        i += 1;
    }
    Some(cells)
}

/// The pattern data of the lines `ls`: the data lines, trimmed and joined.
fn rle_data_of(ls: &Vec<Vec<char>>) -> (data: Vec<char>)
    ensures
        data@ == rle_data(views(ls@)),
{
    let comment: Vec<char> = vec!['#'];
    let header: Vec<char> = vec!['x', ' ', '=', ' '];
    proof {
        assert(comment@ =~= comment_mark());
        assert(header@ =~= header_mark());
    }
    let mut data: Vec<char> = Vec::new();
    let mut i: usize = 0;
    while i < ls.len()
        invariant
            i <= ls@.len(),
            comment@ == comment_mark(),
            header@ == header_mark(),
            data@ == rle_data(views(ls@).take(i as int)),
        decreases ls.len() - i,
    {
        let line = &ls[i];
        proof {
            assert(views(ls@).take(i + 1).drop_last() =~= views(ls@).take(i as int));
            assert(views(ls@).take(i + 1).last() == line@);
        }
        if !(starts_with_chars(line, &comment) || starts_with_chars(line, &header)) {
            let mut t = trim_chars(line);
            data.append(&mut t);
        } else {
            assert(data@ =~= data@ + Seq::<char>::empty());
        }
        i += 1;
    }
    proof {
        assert(views(ls@).take(ls@.len() as int) =~= views(ls@));
    }
    data
}

/// Whether `c` occurs in `s`.
fn contains_char(s: &Vec<char>, c: char) -> (b: bool)
    ensures
        b == s@.contains(c),
{
    let mut i: usize = 0;
    while i < s.len()
        invariant
            i <= s@.len(),
            forall|k: int| 0 <= k < i ==> s@[k] != c,
        decreases s.len() - i,
    {
        if s[i] == c {
            return true;
        }
        i += 1;
    }
    false
}

/// Once the plain-text reader has overflowed, later lines change nothing.
proof fn lemma_plain_stays(ls: Seq<Seq<char>>, k: nat, m: nat)
    requires
        k <= m <= ls.len(),
        plain_run(ls, k).overflow,
    ensures
        plain_run(ls, m) == plain_run(ls, k),
    decreases m - k,
{
    if m > k {
        lemma_plain_stays(ls, k, (m - 1) as nat);
    }
}

/// Runs the plain-text reader over the lines `ls`; `None` when the row
/// number would leave the `i32` range.
fn read_plain(ls: &Vec<Vec<char>>) -> (r: Option<FxHashSet<Cell>>)
    ensures
        match r {
            None => plain_run(views(ls@), ls@.len()).overflow,
            Some(cells) => !plain_run(views(ls@), ls@.len()).overflow && cells@ == plain_run(
                views(ls@),
                ls@.len(),
            ).cells,
        },
{
    let mut cells: FxHashSet<Cell> = FxHashSet::default();
    let mut y: i32 = 0;
    let mut i: usize = 0;
    while i < ls.len()
        invariant
            i <= ls@.len(),
            plain_run(views(ls@), i as nat) == (PlainState {
                y: y as int,
                cells: cells@,
                overflow: false,
            }),
            0 <= y,
        decreases ls.len() - i,
    {
        let t = trim_chars(&ls[i]);
        proof {
            assert(views(ls@)[i as int] == ls@[i as int]@);
        }
        if t.len() > 0 && t[0] != '!' {
            let ghost base = cells@;
            let mut x_pos: usize = 0;
            while x_pos < t.len()
                invariant
                    x_pos <= t@.len(),
                    cells@ == base.union(row_cells(t@.take(x_pos as int), y as int)),
                decreases t.len() - x_pos,
            {
                let ch = t[x_pos];
                if ch == 'O' || ch == '*' {
                    set_insert(&mut cells, (x_pos as i32, y));
                }
                proof {
                    let before = row_cells(t@.take(x_pos as int), y as int);
                    let after = row_cells(t@.take(x_pos + 1), y as int);
                    assert forall|c: Cell| after.contains(c) <==> (before.contains(c) || ((ch == 'O'
                        || ch == '*') && c == (x_pos as i32, y))) by {
                        if after.contains(c) {
                            let k = choose|k: int|
                                0 <= k < x_pos + 1 && (#[trigger] t@.take(x_pos + 1)[k] == 'O'
                                    || t@.take(x_pos + 1)[k] == '*') && c == (k as i32, y as i32);
                            if k < x_pos {
                                assert(t@.take(x_pos as int)[k] == t@[k]);
                            }
                        }
                        if before.contains(c) {
                            let k = choose|k: int|
                                0 <= k < x_pos && (#[trigger] t@.take(x_pos as int)[k] == 'O'
                                    || t@.take(x_pos as int)[k] == '*') && c == (k as i32, y as i32);
                            assert(t@.take(x_pos + 1)[k] == t@[k]);
                        }
                        if (ch == 'O' || ch == '*') && c == (x_pos as i32, y) {
                            assert(t@.take(x_pos + 1)[x_pos as int] == ch);
                        }
                    }
                    assert(cells@ =~= base.union(after));
                }
                x_pos += 1;
            }
            proof {
                assert(t@.take(t@.len() as int) =~= t@);
            }
            if y == i32::MAX {
                proof {
                    assert(plain_run(views(ls@), (i + 1) as nat).overflow);
                    lemma_plain_stays(views(ls@), (i + 1) as nat, ls@.len());
                }
                return None;
            }
            y = y + 1;
        }
        i += 1;
    }
    Some(cells)
}

/// Reads the pattern in `contents`, or `None` when a coordinate would leave
/// the `i32` range. Text holding `x =` or a `!` is read as RLE: lines
/// starting with `#` or `x = ` are skipped, the rest are trimmed and joined,
/// and the run-length commands are applied up to the first `!`. Other text
/// is read as a plain grid: each trimmed line that is neither blank nor a
/// `!` comment is a row, with a live cell at each `O` or `*`.
pub fn load_pattern_checked(contents: &str) -> (r: Option<FxHashSet<Cell>>)
    ensures
        match r {
            None => pattern_cells(contents@) is None,
            Some(cells) => pattern_cells(contents@) == Some(cells@),
        },
{
    let chars = chars_of(contents);
    let ls = split_lines(&chars);
    let x_eq: Vec<char> = vec!['x', ' ', '='];
    proof {
        assert(x_eq@ =~= seq!['x', ' ', '=']);
    }
    if contains_run_chars(&chars, &x_eq) || contains_char(&chars, '!') {
        let data = rle_data_of(&ls);
        read_rle(&data)
    } else {
        read_plain(&ls)
    }
}

/// The live cells of the pattern in `contents` (see
/// `load_pattern_checked`), for text whose coordinates stay within `i32`.
pub fn load_pattern_from_str(contents: &str) -> (cells: FxHashSet<Cell>)
    requires
        pattern_cells(contents@) is Some,
    ensures
        pattern_cells(contents@) == Some(cells@),
{
    match load_pattern_checked(contents) {
        Some(cells) => cells,
        None => FxHashSet::default(),
    }
}

/// Whether `m` is the least column of a cell of `s`.
pub open spec fn is_least_x(s: Set<Cell>, m: int) -> bool {
    &&& exists|c: Cell| s.contains(c) && c.0 == m
    &&& forall|c: Cell| #[trigger] s.contains(c) ==> m <= c.0
}

/// Whether `m` is the greatest column of a cell of `s`.
pub open spec fn is_greatest_x(s: Set<Cell>, m: int) -> bool {
    &&& exists|c: Cell| s.contains(c) && c.0 == m
    &&& forall|c: Cell| #[trigger] s.contains(c) ==> c.0 <= m
}

/// Whether `m` is the least row of a cell of `s`.
pub open spec fn is_least_y(s: Set<Cell>, m: int) -> bool {
    &&& exists|c: Cell| s.contains(c) && c.1 == m
    &&& forall|c: Cell| #[trigger] s.contains(c) ==> m <= c.1
}

/// Whether `m` is the greatest row of a cell of `s`.
pub open spec fn is_greatest_y(s: Set<Cell>, m: int) -> bool {
    &&& exists|c: Cell| s.contains(c) && c.1 == m
    &&& forall|c: Cell| #[trigger] s.contains(c) ==> c.1 <= m
}

/// The least column of a cell of `s`.
pub open spec fn least_x(s: Set<Cell>) -> int {
    choose|m: int| is_least_x(s, m)
}

/// The greatest column of a cell of `s`.
pub open spec fn greatest_x(s: Set<Cell>) -> int {
    choose|m: int| is_greatest_x(s, m)
}

/// The least row of a cell of `s`.
pub open spec fn least_y(s: Set<Cell>) -> int {
    choose|m: int| is_least_y(s, m)
}

/// The greatest row of a cell of `s`.
pub open spec fn greatest_y(s: Set<Cell>) -> int {
    choose|m: int| is_greatest_y(s, m)
}

/// `a / 2`, rounded toward zero as integer division does.
pub open spec fn half_toward_zero(a: int) -> int {
    if a >= 0 {
        a / 2
    } else {
        -((-a) / 2)
    }
}

/// The shift that centres the span `lo..=hi` on 0: `-(lo + hi) / 2`,
/// rounded toward zero.
pub open spec fn centring_shift(lo: int, hi: int) -> int {
    half_toward_zero(-(lo + hi))
}

/// `s` moved by `(dx, dy)`.
pub open spec fn shifted(s: Set<Cell>, dx: int, dy: int) -> Set<Cell> {
    s.map(|c: Cell| ((c.0 + dx) as i32, (c.1 + dy) as i32))
}

/// The horizontal shift that centres `s`.
pub open spec fn centring_dx(s: Set<Cell>) -> int {
    centring_shift(least_x(s), greatest_x(s))
}

/// The vertical shift that centres `s`.
pub open spec fn centring_dy(s: Set<Cell>) -> int {
    centring_shift(least_y(s), greatest_y(s))
}

/// `s` centred on the origin: moved so that the middle of its bounding box
/// (rounded toward zero) lands on `(0, 0)`; an empty set stays empty.
pub open spec fn centred(s: Set<Cell>) -> Set<Cell> {
    if s.is_empty() {
        s
    } else {
        shifted(s, centring_dx(s), centring_dy(s))
    }
}

/// Whether centring `s` keeps every sum, negation and moved coordinate
/// within `i32`.
pub open spec fn centring_fits(s: Set<Cell>) -> bool {
    s.is_empty() || {
        &&& i32::MIN < least_x(s) + greatest_x(s) <= i32::MAX
        &&& i32::MIN < least_y(s) + greatest_y(s) <= i32::MAX
        &&& forall|c: Cell|
            #[trigger] s.contains(c) ==> i32::MIN <= c.0 + centring_dx(s) <= i32::MAX && i32::MIN
                <= c.1 + centring_dy(s) <= i32::MAX
    }
}

/// The bounds of a set are unique.
proof fn lemma_bounds_unique(s: Set<Cell>, lx: int, hx: int, ly: int, hy: int)
    requires
        is_least_x(s, lx),
        is_greatest_x(s, hx),
        is_least_y(s, ly),
        is_greatest_y(s, hy),
    ensures
        least_x(s) == lx,
        greatest_x(s) == hx,
        least_y(s) == ly,
        greatest_y(s) == hy,
{
    let a = least_x(s);
    let b = greatest_x(s);
    let c = least_y(s);
    let d = greatest_y(s);
    let wa = choose|w: Cell| s.contains(w) && w.0 == a;
    let wl = choose|w: Cell| s.contains(w) && w.0 == lx;
    assert(a <= wl.0 && lx <= wa.0);
    let wb = choose|w: Cell| s.contains(w) && w.0 == b;
    let wh = choose|w: Cell| s.contains(w) && w.0 == hx;
    assert(wh.0 <= b && wb.0 <= hx);
    let wc = choose|w: Cell| s.contains(w) && w.1 == c;
    let wly = choose|w: Cell| s.contains(w) && w.1 == ly;
    assert(c <= wly.1 && ly <= wc.1);
    let wd = choose|w: Cell| s.contains(w) && w.1 == d;
    let why = choose|w: Cell| s.contains(w) && w.1 == hy;
    assert(why.1 <= d && wd.1 <= hy);
}

/// The bounding box of `cells`, as `(min_x, max_x, min_y, max_y)`, for a
/// non-empty set.
fn bounding_box(cells: &FxHashSet<Cell>) -> (b: (i32, i32, i32, i32))
    requires
        !cells@.is_empty(),
    ensures
        is_least_x(cells@, b.0 as int),
        is_greatest_x(cells@, b.1 as int),
        is_least_y(cells@, b.2 as int),
        is_greatest_y(cells@, b.3 as int),
{
    let members = set_members(cells);
    let mut mnx: i32 = i32::MAX;
    let mut mxx: i32 = i32::MIN;
    let mut mny: i32 = i32::MAX;
    let mut mxy: i32 = i32::MIN;
    let mut i: usize = 0;
    while i < members.len()
        invariant
            i <= members@.len(),
            members@.to_set() == cells@,
            forall|j: int|
                0 <= j < i ==> mnx <= (#[trigger] members@[j]).0 <= mxx && mny <= members@[j].1
                    <= mxy,
            i > 0 ==> exists|j: int| 0 <= j < i && members@[j].0 == mnx,
            i > 0 ==> exists|j: int| 0 <= j < i && members@[j].0 == mxx,
            i > 0 ==> exists|j: int| 0 <= j < i && members@[j].1 == mny,
            i > 0 ==> exists|j: int| 0 <= j < i && members@[j].1 == mxy,
        decreases members.len() - i,
    {
        let (x, y) = members[i];
        if i == 0 || x < mnx {
            mnx = x;
        }
        if i == 0 || x > mxx {
            mxx = x;
        }
        if i == 0 || y < mny {
            mny = y;
        }
        if i == 0 || y > mxy {
            mxy = y;
        }
        i += 1;
    }
    proof {
        let c0 = cells@.choose();
        assert(members@.to_set().contains(c0));
        assert(members@.len() > 0);
        assert forall|c: Cell| #[trigger] cells@.contains(c) implies mnx <= c.0 <= mxx && mny <= c.1
            <= mxy by {
            assert(members@.to_set().contains(c));
            let j = choose|j: int| 0 <= j < members@.len() && members@[j] == c;
            assert(mnx <= (members@[j]).0);
        }
        let j0 = choose|j: int| 0 <= j < i && members@[j].0 == mnx;
        assert(cells@.contains(members@[j0]));
        let j1 = choose|j: int| 0 <= j < i && members@[j].0 == mxx;
        assert(cells@.contains(members@[j1]));
        let j2 = choose|j: int| 0 <= j < i && members@[j].1 == mny;
        assert(cells@.contains(members@[j2]));
        let j3 = choose|j: int| 0 <= j < i && members@[j].1 == mxy;
        assert(cells@.contains(members@[j3]));
    }
    (mnx, mxx, mny, mxy)
}

/// `cells` centred on the origin, or `None` when a coordinate computed on
/// the way would leave `i32`.
pub fn centre_cells_checked(cells: &FxHashSet<Cell>) -> (r: Option<FxHashSet<Cell>>)
    ensures
        match r {
            None => !centring_fits(cells@),
            Some(c) => centring_fits(cells@) && c@ == centred(cells@),
        },
{
    if cells.is_empty() {
        let empty: FxHashSet<Cell> = FxHashSet::default();
        proof {
            assert(empty@ =~= cells@);
        }
        return Some(empty);
    }
    let (min_x, max_x, min_y, max_y) = bounding_box(cells);
    proof {
        lemma_bounds_unique(cells@, min_x as int, max_x as int, min_y as int, max_y as int);
    }
    let sum_x = min_x as i64 + max_x as i64;
    let sum_y = min_y as i64 + max_y as i64;
    if sum_x <= i32::MIN as i64 || sum_x > i32::MAX as i64 || sum_y <= i32::MIN as i64 || sum_y
        > i32::MAX as i64 {
        return None;
    }
    let shift_x = -(min_x + max_x) / 2;
    let shift_y = -(min_y + max_y) / 2;
    assert(shift_x == centring_dx(cells@));
    assert(shift_y == centring_dy(cells@));
    let members = set_members(cells);
    let mut out: FxHashSet<Cell> = FxHashSet::default();
    let mut i: usize = 0;
    while i < members.len()
        invariant
            i <= members@.len(),
            members@.to_set() == cells@,
            shift_x == centring_dx(cells@),
            shift_y == centring_dy(cells@),
            forall|j: int|
                0 <= j < i ==> i32::MIN <= (#[trigger] members@[j]).0 + shift_x <= i32::MAX
                    && i32::MIN <= members@[j].1 + shift_y <= i32::MAX,
            out@ == members@.subrange(0, i as int).to_set().map(
                |c: Cell| ((c.0 + shift_x) as i32, (c.1 + shift_y) as i32),
            ),
        decreases members.len() - i,
    {
        let (x, y) = members[i];
        if (x as i64 + shift_x as i64) < i32::MIN as i64 || (x as i64 + shift_x as i64) > i32::MAX
            as i64 || (y as i64 + shift_y as i64) < i32::MIN as i64 || (y as i64 + shift_y as i64)
            > i32::MAX as i64 {
            proof {
                assert(cells@.contains(members@[i as int]));
            }
            return None;
        }
        set_insert(&mut out, (x + shift_x, y + shift_y));
        proof {
            let f = |c: Cell| ((c.0 + shift_x) as i32, (c.1 + shift_y) as i32);
            assert(members@.subrange(0, i + 1) =~= members@.subrange(0, i as int).push((x, y)));
            members@.subrange(0, i as int).lemma_push_to_set_commute((x, y));
            members@.subrange(0, i as int).to_set().lemma_set_map_insert_commute((x, y), f);
            assert(out@ =~= members@.subrange(0, i + 1).to_set().map(f));
        }
        i += 1;
    }
    proof {
        assert(members@.subrange(0, members@.len() as int) =~= members@);
        assert forall|c: Cell| #[trigger] cells@.contains(c) implies i32::MIN <= c.0
            + centring_dx(cells@) <= i32::MAX && i32::MIN <= c.1 + centring_dy(cells@)
            <= i32::MAX by {
            assert(members@.to_set().contains(c));
            let j = choose|j: int| 0 <= j < members@.len() && members@[j] == c;
            assert(i32::MIN <= (members@[j]).0 + shift_x <= i32::MAX);
        }
    }
    Some(out)
}

/// `cells` centred on the origin: moved so that the middle of their
/// bounding box, rounded toward zero, lands on `(0, 0)`.
pub fn centre_cells(cells: &FxHashSet<Cell>) -> (r: FxHashSet<Cell>)
    requires
        centring_fits(cells@),
    ensures
        r@ == centred(cells@),
{
    match centre_cells_checked(cells) {
        Some(c) => c,
        None => FxHashSet::default(),
    }
}

/// Moving a set moves its bounds by the same amount, when no coordinate
/// leaves `i32`.
proof fn lemma_shifted_bounds(s: Set<Cell>, dx: int, dy: int)
    requires
        !s.is_empty(),
        is_least_x(s, least_x(s)),
        is_greatest_x(s, greatest_x(s)),
        is_least_y(s, least_y(s)),
        is_greatest_y(s, greatest_y(s)),
        forall|c: Cell|
            #[trigger] s.contains(c) ==> i32::MIN <= c.0 + dx <= i32::MAX && i32::MIN <= c.1 + dy
                <= i32::MAX,
    ensures
        !shifted(s, dx, dy).is_empty(),
        is_least_x(shifted(s, dx, dy), least_x(s) + dx),
        is_greatest_x(shifted(s, dx, dy), greatest_x(s) + dx),
        is_least_y(shifted(s, dx, dy), least_y(s) + dy),
        is_greatest_y(shifted(s, dx, dy), greatest_y(s) + dy),
        least_x(shifted(s, dx, dy)) == least_x(s) + dx,
        greatest_x(shifted(s, dx, dy)) == greatest_x(s) + dx,
        least_y(shifted(s, dx, dy)) == least_y(s) + dy,
        greatest_y(shifted(s, dx, dy)) == greatest_y(s) + dy,
{
    let t = shifted(s, dx, dy);
    let f = |c: Cell| ((c.0 + dx) as i32, (c.1 + dy) as i32);
    assert forall|d: Cell| #[trigger] t.contains(d) implies least_x(s) + dx <= d.0 <= greatest_x(s)
        + dx && least_y(s) + dy <= d.1 <= greatest_y(s) + dy by {
        let c = choose|c: Cell| s.contains(c) && f(c) == d;
        assert(s.contains(c));
    }
    let a = choose|c: Cell| s.contains(c) && c.0 == least_x(s);
    assert(t.contains(f(a)));
    let b = choose|c: Cell| s.contains(c) && c.0 == greatest_x(s);
    assert(t.contains(f(b)));
    let c2 = choose|c: Cell| s.contains(c) && c.1 == least_y(s);
    assert(t.contains(f(c2)));
    let d2 = choose|c: Cell| s.contains(c) && c.1 == greatest_y(s);
    assert(t.contains(f(d2)));
    lemma_bounds_unique(
        t,
        least_x(s) + dx,
        greatest_x(s) + dx,
        least_y(s) + dy,
        greatest_y(s) + dy,
    );
}

/// The remainder of `a` divided by 2, rounded toward zero: `a % 2` with
/// the sign of `a`, so -1, 0 or 1.
pub open spec fn parity_toward_zero(a: int) -> int {
    if a >= 0 {
        a % 2
    } else {
        -((-a) % 2)
    }
}

/// After centring, the middle of the bounding box sits on the origin: the
/// least and greatest column (and row) add up to the remainder of their
/// sum before centring divided by 2, rounded toward zero, so to -1, 0 or 1.
/// Centring a centred pattern changes nothing.
pub proof fn law_centring_centres(s: Set<Cell>)
    requires
        !s.is_empty(),
        s.finite(),
        centring_fits(s),
    ensures
        least_x(centred(s)) + greatest_x(centred(s)) == parity_toward_zero(
            least_x(s) + greatest_x(s),
        ),
        least_y(centred(s)) + greatest_y(centred(s)) == parity_toward_zero(
            least_y(s) + greatest_y(s),
        ),
        -1 <= least_x(centred(s)) + greatest_x(centred(s)) <= 1,
        -1 <= least_y(centred(s)) + greatest_y(centred(s)) <= 1,
        centred(centred(s)) == centred(s),
{
    lemma_finite_bounds(s);
    let dx = centring_dx(s);
    let dy = centring_dy(s);
    lemma_shifted_bounds(s, dx, dy);
    let t = centred(s);
    assert(centring_dx(t) == 0);
    assert(centring_dy(t) == 0);
    assert(shifted(t, 0, 0) =~= t) by {
        let f = |c: Cell| ((c.0 + 0) as i32, (c.1 + 0) as i32);
        assert forall|d: Cell| t.contains(d) implies shifted(t, 0, 0).contains(d) by {
            assert(f(d) == d);
        }
    }
}

/// A pattern whose coordinates all lie within `-2^29..=2^29` can be
/// centred without leaving `i32`.
pub proof fn law_small_patterns_centre(s: Set<Cell>)
    requires
        s.finite(),
        forall|c: Cell|
            #[trigger] s.contains(c) ==> -0x2000_0000 <= c.0 <= 0x2000_0000 && -0x2000_0000 <= c.1
                <= 0x2000_0000,
    ensures
        centring_fits(s),
{
    if !s.is_empty() {
        lemma_finite_bounds(s);
        let wx = choose|c: Cell| s.contains(c) && c.0 == least_x(s);
        let vx = choose|c: Cell| s.contains(c) && c.0 == greatest_x(s);
        let wy = choose|c: Cell| s.contains(c) && c.1 == least_y(s);
        let vy = choose|c: Cell| s.contains(c) && c.1 == greatest_y(s);
        assert(s.contains(wx) && s.contains(vx) && s.contains(wy) && s.contains(vy));
    }
}

/// A finite non-empty set of cells has a bounding box.
pub proof fn lemma_finite_bounds(s: Set<Cell>)
    requires
        !s.is_empty(),
        s.finite(),
    ensures
        is_least_x(s, least_x(s)),
        is_greatest_x(s, greatest_x(s)),
        is_least_y(s, least_y(s)),
        is_greatest_y(s, greatest_y(s)),
    decreases s.len(),
{
    let a = s.choose();
    let r = s.remove(a);
    if r.is_empty() {
        assert(s =~= set![a]);
        assert(is_least_x(s, a.0 as int));
        assert(is_greatest_x(s, a.0 as int));
        assert(is_least_y(s, a.1 as int));
        assert(is_greatest_y(s, a.1 as int));
    } else {
        lemma_finite_bounds(r);
        let lx = if (a.0 as int) < least_x(r) { a.0 as int } else { least_x(r) };
        let hx = if (a.0 as int) > greatest_x(r) { a.0 as int } else { greatest_x(r) };
        let ly = if (a.1 as int) < least_y(r) { a.1 as int } else { least_y(r) };
        let hy = if (a.1 as int) > greatest_y(r) { a.1 as int } else { greatest_y(r) };
        assert forall|c: Cell| #[trigger] s.contains(c) implies lx <= c.0 <= hx && ly <= c.1 <= hy by {
            if c != a {
                assert(r.contains(c));
            }
        }
        if lx == a.0 {
        } else {
            let w = choose|c: Cell| r.contains(c) && c.0 == least_x(r);
            assert(s.contains(w));
        }
        if hx == a.0 {
        } else {
            let w = choose|c: Cell| r.contains(c) && c.0 == greatest_x(r);
            assert(s.contains(w));
        }
        if ly == a.1 {
        } else {
            let w = choose|c: Cell| r.contains(c) && c.1 == least_y(r);
            assert(s.contains(w));
        }
        if hy == a.1 {
        } else {
            let w = choose|c: Cell| r.contains(c) && c.1 == greatest_y(r);
            assert(s.contains(w));
        }
        assert(is_least_x(s, lx));
        assert(is_greatest_x(s, hx));
        assert(is_least_y(s, ly));
        assert(is_greatest_y(s, hy));
        lemma_bounds_unique(s, lx, hx, ly, hy);
    }
}

} // verus!
