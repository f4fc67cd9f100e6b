//! The board's cells seen as a grid of filled / not-filled lines, and the hint
//! tables derived from it.
//!
//! A grid is indexed `[column][row]`. A hint table holds two axes: axis 0 has one
//! line of hints per column, axis 1 one line per row.

use vstd::prelude::*;
use crate::common::Cell;
use crate::crossout::{
    abs, count_nonzero, crossout_hints, crossout_line, lemma_crossout_keeps_magnitudes,
};
use crate::hints::{
    ceil_half, hint_line, ints, lemma_runs_fit, lemma_runs_shape, line_hints, padded, runs, sum,
    MAX_LINE,
};

verus! {

/// The cells of a board as nested sequences, `[column][row]`.
pub open spec fn grid(data: &Vec<Vec<Cell>>) -> Seq<Seq<Cell>> {
    data@.map_values(|col: Vec<Cell>| col@)
}

/// Which cells of a grid are filled.
pub open spec fn filled_mask(g: Seq<Seq<Cell>>) -> Seq<Seq<bool>> {
    g.map_values(|col: Seq<Cell>| col.map_values(|c: Cell| c == Cell::Filled))
}

/// A hint table of `i8` hints read as integers.
pub open spec fn table(t: &Vec<Vec<Vec<i8>>>) -> Seq<Seq<Seq<int>>> {
    t@.map_values(|axis: Vec<Vec<i8>>| axis@.map_values(|line: Vec<i8>| ints(line@)))
}

/// Whether `g` has `cols` columns of `rows` cells each.
pub open spec fn is_grid<A>(g: Seq<Seq<A>>, cols: int, rows: int) -> bool {
    &&& g.len() == cols
    &&& forall|c: int| 0 <= c < cols ==> (#[trigger] g[c]).len() == rows
}

/// Row `r` of a `[column][row]` grid.
pub open spec fn row_of(m: Seq<Seq<bool>>, r: int) -> Seq<bool> {
    Seq::new(m.len(), |c: int| m[c][r])
}

/// The hint table of a filled mask with `rows` rows: per column, then per row.
pub open spec fn hint_table(m: Seq<Seq<bool>>, rows: int) -> Seq<Seq<Seq<int>>> {
    seq![
        Seq::new(m.len(), |c: int| hint_line(m[c])),
        Seq::new(rows as nat, |r: int| hint_line(row_of(m, r))),
    ]
}

/// Whether a hint table has two axes, `cols` lines of `ceil(rows / 2)` slots and
/// `rows` lines of `ceil(cols / 2)` slots, with every hint a valid `i8` magnitude.
pub open spec fn table_shaped(t: Seq<Seq<Seq<int>>>, cols: int, rows: int) -> bool {
    &&& t.len() == 2
    &&& is_grid(t[0], cols, ceil_half(rows))
    &&& is_grid(t[1], rows, ceil_half(cols))
    &&& forall|a: int, k: int, s: int|
        0 <= a < 2 && 0 <= k < t[a].len() && 0 <= s < t[a][k].len() ==> -127 <= #[trigger] t[a][k][s]
            <= 127
}

/// Whether two hint tables agree slot by slot in magnitude: the win rule.
pub open spec fn tables_match(goal: Seq<Seq<Seq<int>>>, cur: Seq<Seq<Seq<int>>>) -> bool {
    forall|a: int, k: int, s: int|
        0 <= a < goal.len() && 0 <= k < goal[a].len() && 0 <= s < goal[a][k].len() ==> abs(
            #[trigger] goal[a][k][s],
        ) == abs(cur[a][k][s])
}

/// The goal table with the crossouts of every line brought up to date.
pub open spec fn crossout_table(goal: Seq<Seq<Seq<int>>>, cur: Seq<Seq<Seq<int>>>) -> Seq<
    Seq<Seq<int>>,
> {
    Seq::new(
        goal.len(),
        |a: int| Seq::new(goal[a].len(), |k: int| crossout_line(goal[a][k], cur[a][k])),
    )
}

/// How many entries of a line are `true`.
pub open spec fn count_line(s: Seq<bool>) -> nat
    decreases s.len(),
{
    if s.len() == 0 {
        0
    } else {
        count_line(s.drop_last()) + if s.last() {
            1nat
        } else {
            0nat
        }
    }
}

/// How many cells of a mask are `true`.
pub open spec fn count_filled(m: Seq<Seq<bool>>) -> nat
    decreases m.len(),
{
    if m.len() == 0 {
        0
    } else {
        count_filled(m.drop_last()) + count_line(m.last())
    }
}

/// Setting one entry of a line changes its count by that entry alone.
pub proof fn lemma_count_line_update(s: Seq<bool>, i: int, b: bool)
    requires
        0 <= i < s.len(),
    ensures
        count_line(s.update(i, b)) + (if s[i] { 1int } else { 0 }) == count_line(s) + (if b {
            1int
        } else {
            0
        }),
    decreases s.len(),
{
    let t = s.update(i, b);
    if i < s.len() - 1 {
        assert(t.drop_last() =~= s.drop_last().update(i, b));
        lemma_count_line_update(s.drop_last(), i, b);
    } else {
        assert(t.drop_last() =~= s.drop_last());
    }
}

/// Replacing one line of a mask changes its count by that line alone.
pub proof fn lemma_count_filled_update(m: Seq<Seq<bool>>, c: int, l: Seq<bool>)
    requires
        0 <= c < m.len(),
    ensures
        count_filled(m.update(c, l)) + count_line(m[c]) == count_filled(m) + count_line(l),
    decreases m.len(),
{
    let t = m.update(c, l);
    if c < m.len() - 1 {
        assert(t.drop_last() =~= m.drop_last().update(c, l));
        lemma_count_filled_update(m.drop_last(), c, l);
    } else {
        assert(t.drop_last() =~= m.drop_last());
    }
}

/// A line counts no more entries than it has.
pub proof fn lemma_count_line_bound(s: Seq<bool>)
    ensures
        count_line(s) <= s.len(),
    decreases s.len(),
{
    if s.len() > 0 {
        lemma_count_line_bound(s.drop_last());
    }
}

/// A mask of `cols` columns of `rows` cells counts at most `cols * rows` cells.
pub proof fn lemma_count_filled_bound(m: Seq<Seq<bool>>, cols: int, rows: int)
    requires
        is_grid(m, cols, rows),
        rows >= 0,
    ensures
        count_filled(m) <= cols * rows,
    decreases m.len(),
{
    if m.len() > 0 {
        let p = m.drop_last();
        assert(is_grid(p, cols - 1, rows));
        lemma_count_filled_bound(p, cols - 1, rows);
        lemma_count_line_bound(m.last());
        assert((cols - 1) * rows + rows == cols * rows) by (nonlinear_arith);
    }
}

/// A mask with no `true` entry counts zero.
pub proof fn lemma_count_filled_empty(m: Seq<Seq<bool>>)
    requires
        forall|c: int, r: int| 0 <= c < m.len() && 0 <= r < m[c].len() ==> !m[c][r],
    ensures
        count_filled(m) == 0,
    decreases m.len(),
{
    if m.len() > 0 {
        lemma_count_filled_empty(m.drop_last());
        lemma_count_line_empty(m.last());
    }
}

/// A line with no `true` entry counts zero.
proof fn lemma_count_line_empty(s: Seq<bool>)
    requires
        forall|r: int| 0 <= r < s.len() ==> !s[r],
    ensures
        count_line(s) == 0,
    decreases s.len(),
{
    if s.len() > 0 {
        lemma_count_line_empty(s.drop_last());
    }
}

/// The filled cells of column `c`.
pub fn column_filled(data: &Vec<Vec<Cell>>, c: usize) -> (r: Vec<bool>)
    requires
        c < data.len(),
    ensures
        r@ == filled_mask(grid(data))[c as int],
{
    let col = &data[c];
    let mut r: Vec<bool> = Vec::new();
    let mut i: usize = 0;
    while i < col.len()
        invariant
            col == data[c as int],
            0 <= i <= col.len(),
            r@ == col@.subrange(0, i as int).map_values(|x: Cell| x == Cell::Filled),
        decreases col.len() - i,
    {
        r.push(col[i] == Cell::Filled);
        i += 1;
        assert(r@ =~= col@.subrange(0, i as int).map_values(|x: Cell| x == Cell::Filled));
    }
    assert(col@.subrange(0, col.len() as int) =~= col@);
    r
}

/// The filled cells of row `row`.
pub fn row_filled(data: &Vec<Vec<Cell>>, row: usize) -> (r: Vec<bool>)
    requires
        forall|c: int| 0 <= c < data.len() ==> row < (#[trigger] data@[c]).len(),
    ensures
        r@ == row_of(filled_mask(grid(data)), row as int),
{
    let mut r: Vec<bool> = Vec::new();
    let mut c: usize = 0;
    while c < data.len()
        invariant
            forall|c: int| 0 <= c < data.len() ==> row < (#[trigger] data@[c]).len(),
            0 <= c <= data.len(),
            r.len() == c,
            forall|k: int| 0 <= k < c ==> r@[k] == (data@[k]@[row as int] == Cell::Filled),
        decreases data.len() - c,
    {
        r.push(data[c][row] == Cell::Filled);
        c += 1;
    }
    assert(r@ =~= row_of(filled_mask(grid(data)), row as int));
    r
}

/// The hint table of the filled cells of `data`, which has `rows` rows.
pub fn hint_tables(data: &Vec<Vec<Cell>>, rows: usize) -> (r: Vec<Vec<Vec<i8>>>)
    requires
        data.len() <= MAX_LINE,
        rows <= MAX_LINE,
        is_grid(grid(data), data.len() as int, rows as int),
    ensures
        table(&r) == hint_table(filled_mask(grid(data)), rows as int),
{
    let ghost m = filled_mask(grid(data));
    let mut per_column: Vec<Vec<i8>> = Vec::new();
    let mut c: usize = 0;
    while c < data.len()
        invariant
            data.len() <= MAX_LINE,
            rows <= MAX_LINE,
            is_grid(grid(data), data.len() as int, rows as int),
            m == filled_mask(grid(data)),
            0 <= c <= data.len(),
            per_column.len() == c,
            forall|k: int| 0 <= k < c ==> ints(#[trigger] per_column@[k]@) == hint_line(m[k]),
        decreases data.len() - c,
    {
        assert(grid(data)[c as int].len() == rows);
        let line = column_filled(data, c);
        per_column.push(line_hints(&line));
        c += 1;
    }
    let mut per_row: Vec<Vec<i8>> = Vec::new();
    let mut r: usize = 0;
    while r < rows
        invariant
            data.len() <= MAX_LINE,
            is_grid(grid(data), data.len() as int, rows as int),
            m == filled_mask(grid(data)),
            0 <= r <= rows,
            per_row.len() == r,
            forall|k: int| 0 <= k < r ==> ints(#[trigger] per_row@[k]@) == hint_line(row_of(m, k)),
        decreases rows - r,
    {
        assert forall|c: int| 0 <= c < data.len() implies r < (#[trigger] data@[c]).len() by {
            assert(grid(data)[c].len() == rows);
        }
        let line = row_filled(data, r);
        per_row.push(line_hints(&line));
        r += 1;
    }
    let mut t: Vec<Vec<Vec<i8>>> = Vec::new();
    t.push(per_column);
    t.push(per_row);
    assert(table(&t)[0] =~= hint_table(m, rows as int)[0]);
    assert(table(&t)[1] =~= hint_table(m, rows as int)[1]);
    assert(table(&t) =~= hint_table(m, rows as int));
    t
}

/// Whether two hint tables have the same number of axes, lines and slots.
pub open spec fn same_shape(t: Seq<Seq<Seq<int>>>, u: Seq<Seq<Seq<int>>>) -> bool {
    &&& t.len() == u.len()
    &&& forall|a: int| 0 <= a < t.len() ==> (#[trigger] t[a]).len() == u[a].len()
    &&& forall|a: int, k: int|
        0 <= a < t.len() && 0 <= k < t[a].len() ==> (#[trigger] t[a][k]).len() == u[a][k].len()
}

/// The magnitude of a hint, widened so that every `i8` has one.
fn magnitude(x: i8) -> (r: i16)
    ensures
        r == abs(x as int),
{
    let w = x as i16;
    if w < 0 {
        -w
    } else {
        w
    }
}

/// Whether two lines of hints agree slot by slot in magnitude.
pub fn lines_match(goal: &Vec<i8>, cur: &Vec<i8>) -> (r: bool)
    requires
        goal.len() == cur.len(),
    ensures
        r == forall|s: int| 0 <= s < goal.len() ==> abs(#[trigger] ints(goal@)[s]) == abs(ints(cur@)[s]),
{
    let mut i: usize = 0;
    while i < goal.len()
        invariant
            goal.len() == cur.len(),
            0 <= i <= goal.len(),
            forall|s: int| 0 <= s < i ==> abs(#[trigger] ints(goal@)[s]) == abs(ints(cur@)[s]),
        decreases goal.len() - i,
    {
        if magnitude(goal[i]) != magnitude(cur[i]) {
            assert(abs(ints(goal@)[i as int]) != abs(ints(cur@)[i as int]));
            return false;
        }
        i += 1;
    }
    true
}

/// Whether two hint tables of the same shape agree slot by slot in magnitude.
pub fn hint_tables_match(goal: &Vec<Vec<Vec<i8>>>, cur: &Vec<Vec<Vec<i8>>>) -> (r: bool)
    requires
        same_shape(table(goal), table(cur)),
    ensures
        r == tables_match(table(goal), table(cur)),
{
    let ghost tg = table(goal);
    let ghost tc = table(cur);
    let mut a: usize = 0;
    while a < goal.len()
        invariant
            tg == table(goal),
            tc == table(cur),
            same_shape(tg, tc),
            0 <= a <= goal.len(),
            forall|a2: int, k: int, s: int|
                0 <= a2 < a && 0 <= k < tg[a2].len() && 0 <= s < tg[a2][k].len() ==> abs(
                    #[trigger] tg[a2][k][s],
                ) == abs(tc[a2][k][s]),
        decreases goal.len() - a,
    {
        let mut k: usize = 0;
        assert(tg[a as int].len() == goal@[a as int].len());
        assert(tc[a as int].len() == cur@[a as int].len());
        while k < goal[a].len()
            invariant
                tg == table(goal),
                tc == table(cur),
                same_shape(tg, tc),
                0 <= a < goal.len(),
                tg[a as int].len() == goal@[a as int].len() == cur@[a as int].len(),
                0 <= k <= goal@[a as int].len(),
                forall|a2: int, k2: int, s: int|
                    0 <= a2 < a && 0 <= k2 < tg[a2].len() && 0 <= s < tg[a2][k2].len() ==> abs(
                        #[trigger] tg[a2][k2][s],
                    ) == abs(tc[a2][k2][s]),
                forall|k2: int, s: int|
                    0 <= k2 < k && 0 <= s < tg[a as int][k2].len() ==> abs(
                        #[trigger] tg[a as int][k2][s],
                    ) == abs(tc[a as int][k2][s]),
            decreases goal@[a as int].len() - k,
        {
            assert(tg[a as int][k as int] == ints(goal@[a as int]@[k as int]@));
            assert(tc[a as int][k as int] == ints(cur@[a as int]@[k as int]@));
            if !lines_match(&goal[a][k], &cur[a][k]) {
                return false;
            }
            k += 1;
        }
        a += 1;
    }
    true
}

/// The goal table `goal` with the crossouts of every line brought up to date with `cur`.
pub fn crossout_tables(goal: &Vec<Vec<Vec<i8>>>, cur: &Vec<Vec<Vec<i8>>>) -> (r: Vec<Vec<Vec<i8>>>)
    requires
        same_shape(table(goal), table(cur)),
        forall|a: int, k: int, s: int|
            0 <= a < table(goal).len() && 0 <= k < table(goal)[a].len() && 0 <= s < table(
                goal,
            )[a][k].len() ==> #[trigger] table(goal)[a][k][s] > i8::MIN,
    ensures
        table(&r) == crossout_table(table(goal), table(cur)),
{
    let ghost tg = table(goal);
    let ghost tc = table(cur);
    let ghost want = crossout_table(tg, tc);
    let mut out: Vec<Vec<Vec<i8>>> = Vec::new();
    let mut a: usize = 0;
    while a < goal.len()
        invariant
            tg == table(goal),
            tc == table(cur),
            want == crossout_table(tg, tc),
            same_shape(tg, tc),
            forall|a: int, k: int, s: int|
                0 <= a < tg.len() && 0 <= k < tg[a].len() && 0 <= s < tg[a][k].len()
                    ==> #[trigger] tg[a][k][s] > i8::MIN,
            0 <= a <= goal.len(),
            out.len() == a,
            forall|a2: int| 0 <= a2 < a ==> #[trigger] table(&out)[a2] == want[a2],
        decreases goal.len() - a,
    {
        let mut axis: Vec<Vec<i8>> = Vec::new();
        let mut k: usize = 0;
        assert(tg[a as int].len() == goal@[a as int].len());
        assert(tc[a as int].len() == cur@[a as int].len());
        while k < goal[a].len()
            invariant
                tg == table(goal),
                tc == table(cur),
                want == crossout_table(tg, tc),
                same_shape(tg, tc),
                forall|a: int, k: int, s: int|
                    0 <= a < tg.len() && 0 <= k < tg[a].len() && 0 <= s < tg[a][k].len()
                        ==> #[trigger] tg[a][k][s] > i8::MIN,
                0 <= a < goal.len(),
                tg[a as int].len() == goal@[a as int].len() == cur@[a as int].len(),
                0 <= k <= goal@[a as int].len(),
                axis.len() == k,
                forall|k2: int| 0 <= k2 < k ==> ints(#[trigger] axis@[k2]@) == want[a as int][k2],
            decreases goal@[a as int].len() - k,
        {
            let ghost gl = goal@[a as int]@[k as int]@;
            assert(tg[a as int][k as int] == ints(gl));
            assert(tc[a as int][k as int] == ints(cur@[a as int]@[k as int]@));
            assert forall|i: int| 0 <= i < gl.len() implies gl[i] > i8::MIN by {
                assert(tg[a as int][k as int][i] > i8::MIN);
            }
            axis.push(crossout_hints(&goal[a][k], &cur[a][k]));
            k += 1;
        }
        let ghost before = out@;
        let ghost tbefore = table(&out);
        out.push(axis);
        assert(table(&out)[a as int] =~= want[a as int]);
        assert forall|a2: int| 0 <= a2 < a implies #[trigger] table(&out)[a2] == want[a2] by {
            assert(out@[a2] == before[a2]);
            assert(tbefore[a2] == want[a2]);
            assert(table(&out)[a2] == tbefore[a2]);
        }
        a += 1;
    }
    assert(table(&out) =~= want);
    out
}

/// The hint table of a grid of `cols` columns and `rows` rows has the shape of a
/// board of those dimensions, and holds no negative hint.
pub proof fn lemma_hint_table_shaped(m: Seq<Seq<bool>>, cols: int, rows: int)
    requires
        is_grid(m, cols, rows),
        0 <= cols <= MAX_LINE,
        0 <= rows <= MAX_LINE,
    ensures
        table_shaped(hint_table(m, rows), cols, rows),
        forall|a: int, k: int, s: int|
            0 <= a < 2 && 0 <= k < hint_table(m, rows)[a].len() && 0 <= s < hint_table(
                m,
                rows,
            )[a][k].len() ==> 0 <= #[trigger] hint_table(m, rows)[a][k][s],
{
    let t = hint_table(m, rows);
    assert forall|c: int| 0 <= c < cols implies (#[trigger] t[0][c]).len() == ceil_half(rows) by {
        assert(m[c].len() == rows);
    }
    assert forall|r: int| 0 <= r < rows implies (#[trigger] t[1][r]).len() == ceil_half(cols) by {
        assert(row_of(m, r).len() == cols);
    }
    assert forall|a: int, k: int, s: int|
        0 <= a < 2 && 0 <= k < t[a].len() && 0 <= s < t[a][k].len() implies 0 <= #[trigger] t[a][k][s]
        <= 127 by {
        let line = if a == 0 {
            m[k]
        } else {
            row_of(m, k)
        };
        assert(t[a][k] == hint_line(line));
        lemma_runs_fit(line);
        if a == 0 {
            assert(line.len() == rows);
        } else {
            assert(line.len() == cols);
        }
        if s < runs(line).len() {
            assert(t[a][k][s] == runs(line)[s]);
        }
    }
}

/// Two tables of the shape of one board have the same shape.
pub proof fn lemma_table_shaped_same(t: Seq<Seq<Seq<int>>>, u: Seq<Seq<Seq<int>>>, cols: int, rows: int)
    requires
        table_shaped(t, cols, rows),
        table_shaped(u, cols, rows),
    ensures
        same_shape(t, u),
{
    assert forall|a: int, k: int| 0 <= a < t.len() && 0 <= k < t[a].len() implies (
    #[trigger] t[a][k]).len() == u[a][k].len() by {
        if a == 0 {
            assert(t[0][k].len() == ceil_half(rows));
            assert(u[0][k].len() == ceil_half(rows));
        } else {
            assert(t[1][k].len() == ceil_half(cols));
            assert(u[1][k].len() == ceil_half(cols));
        }
    }
}

/// Crossing out keeps a table's shape and the magnitude of each of its hints.
pub proof fn lemma_crossout_table_shaped(
    goal: Seq<Seq<Seq<int>>>,
    cur: Seq<Seq<Seq<int>>>,
    cols: int,
    rows: int,
)
    requires
        table_shaped(goal, cols, rows),
        same_shape(goal, cur),
    ensures
        table_shaped(crossout_table(goal, cur), cols, rows),
        same_shape(crossout_table(goal, cur), goal),
        forall|a: int, k: int, s: int|
            0 <= a < 2 && 0 <= k < goal[a].len() && 0 <= s < goal[a][k].len() ==> abs(
                #[trigger] crossout_table(goal, cur)[a][k][s],
            ) == abs(goal[a][k][s]),
{
    let t = crossout_table(goal, cur);
    assert forall|a: int, k: int| 0 <= a < 2 && 0 <= k < goal[a].len() implies (#[trigger] t[a][k]).len()
        == goal[a][k].len() by {
        lemma_crossout_keeps_magnitudes(goal[a][k], cur[a][k]);
    }
    assert forall|a: int, k: int, s: int|
        0 <= a < 2 && 0 <= k < goal[a].len() && 0 <= s < goal[a][k].len() implies abs(
        #[trigger] t[a][k][s],
    ) == abs(goal[a][k][s]) by {
        lemma_crossout_keeps_magnitudes(goal[a][k], cur[a][k]);
        assert(t[a][k] == crossout_line(goal[a][k], cur[a][k]));
    }
    assert forall|c: int| 0 <= c < cols implies (#[trigger] t[0][c]).len() == ceil_half(rows) by {
        assert(t[0][c].len() == goal[0][c].len());
    }
    assert forall|r: int| 0 <= r < rows implies (#[trigger] t[1][r]).len() == ceil_half(cols) by {
        assert(t[1][r].len() == goal[1][r].len());
    }
    assert forall|a: int, k: int, s: int|
        0 <= a < 2 && 0 <= k < t[a].len() && 0 <= s < t[a][k].len() implies -127 <= #[trigger] t[a][k][s]
        <= 127 by {
        assert(t[a][k].len() == goal[a][k].len());
        assert(abs(t[a][k][s]) == abs(goal[a][k][s]));
        assert(-127 <= goal[a][k][s] <= 127);
    }
}

/// Padding with zeros changes neither the sum nor the number of nonzero entries.
proof fn lemma_padded_sum_count(s: Seq<int>, cap: int)
    requires
        s.len() <= cap,
    ensures
        sum(padded(s, cap)) == sum(s),
        count_nonzero(padded(s, cap)) == count_nonzero(s),
    decreases cap - s.len(),
{
    if cap == s.len() {
        assert(padded(s, cap) =~= s);
    } else {
        lemma_padded_sum_count(s, cap - 1);
        assert(padded(s, cap).drop_last() =~= padded(s, cap - 1));
    }
}

/// A sequence of positive entries has as many nonzero entries as it has entries.
proof fn lemma_count_nonzero_positive(s: Seq<int>)
    requires
        forall|i: int| 0 <= i < s.len() ==> #[trigger] s[i] > 0,
    ensures
        count_nonzero(s) == s.len(),
    decreases s.len(),
{
    if s.len() > 0 {
        lemma_count_nonzero_positive(s.drop_last());
    }
}

/// In every line of the hint table of any grid, the hints (`sum`) together with one
/// gap between each two of them (`count_nonzero - 1`) never need more cells than the
/// line has.
pub proof fn lemma_hint_table_fits(m: Seq<Seq<bool>>, cols: int, rows: int)
    requires
        is_grid(m, cols, rows),
        0 <= rows,
    ensures
        forall|k: int|
            0 <= k < cols ==> count_nonzero(#[trigger] hint_table(m, rows)[0][k]) > 0 ==> sum(
                hint_table(m, rows)[0][k],
            ) + count_nonzero(hint_table(m, rows)[0][k]) - 1 <= rows,
        forall|k: int|
            0 <= k < rows ==> count_nonzero(#[trigger] hint_table(m, rows)[1][k]) > 0 ==> sum(
                hint_table(m, rows)[1][k],
            ) + count_nonzero(hint_table(m, rows)[1][k]) - 1 <= cols,
{
    assert forall|a: int, k: int| 0 <= a < 2 && 0 <= k < hint_table(m, rows)[a].len() implies ({
        let h = #[trigger] hint_table(m, rows)[a][k];
        let len = if a == 0 { rows } else { cols };
        count_nonzero(h) > 0 ==> sum(h) + count_nonzero(h) - 1 <= len
    }) by {
        let line = if a == 0 {
            m[k]
        } else {
            row_of(m, k)
        };
        if a == 0 {
            assert(line.len() == rows);
        } else {
            assert(line.len() == cols);
        }
        lemma_runs_fit(line);
        lemma_padded_sum_count(runs(line), ceil_half(line.len() as int));
        lemma_count_nonzero_positive(runs(line));
        assert(hint_table(m, rows)[a][k] == hint_line(line));
    }
}

/// The sum of all hints of one axis of a hint table.
pub open spec fn axis_sum(axis: Seq<Seq<int>>) -> int
    decreases axis.len(),
{
    if axis.len() == 0 {
        0
    } else {
        axis_sum(axis.drop_last()) + sum(axis.last())
    }
}

/// The runs of a line add up to the number of its `true` entries.
proof fn lemma_runs_sum(line: Seq<bool>)
    ensures
        sum(runs(line)) == count_line(line),
    decreases line.len(),
{
    if line.len() > 0 {
        let prev = line.drop_last();
        lemma_runs_sum(prev);
        lemma_runs_shape(prev);
        let p = runs(prev);
        if line.last() {
            if line.len() >= 2 && line[line.len() - 2] {
                assert(prev.last() == line[line.len() - 2]);
                let q = p.update(p.len() - 1, p.last() + 1);
                assert(q.drop_last() =~= p.drop_last());
            } else {
                assert(p.push(1).drop_last() =~= p);
            }
        }
    }
}

/// The hints of a line add up to the number of its `true` entries.
proof fn lemma_hint_line_sum(line: Seq<bool>)
    ensures
        sum(hint_line(line)) == count_line(line),
{
    lemma_runs_fit(line);
    lemma_padded_sum_count(runs(line), ceil_half(line.len() as int));
    lemma_runs_sum(line);
}

/// The column hints of a mask add up to the number of its `true` cells.
proof fn lemma_column_hints_sum(m: Seq<Seq<bool>>)
    ensures
        axis_sum(Seq::new(m.len(), |c: int| hint_line(m[c]))) == count_filled(m),
    decreases m.len(),
{
    if m.len() > 0 {
        let p = m.drop_last();
        lemma_column_hints_sum(p);
        lemma_hint_line_sum(m.last());
        assert(Seq::new(m.len(), |c: int| hint_line(m[c])).drop_last() =~= Seq::new(
            p.len(),
            |c: int| hint_line(p[c]),
        ));
    }
}

/// A mask without its last row.
pub open spec fn drop_last_row(m: Seq<Seq<bool>>) -> Seq<Seq<bool>> {
    Seq::new(m.len(), |c: int| m[c].drop_last())
}

/// Taking off the last row takes its `true` cells off the count.
proof fn lemma_peel_row(m: Seq<Seq<bool>>, rows: int)
    requires
        rows >= 1,
        forall|c: int| 0 <= c < m.len() ==> (#[trigger] m[c]).len() == rows,
    ensures
        count_filled(m) == count_filled(drop_last_row(m)) + count_line(row_of(m, rows - 1)),
    decreases m.len(),
{
    if m.len() > 0 {
        let p = m.drop_last();
        lemma_peel_row(p, rows);
        assert(drop_last_row(m).drop_last() =~= drop_last_row(p));
        assert(row_of(m, rows - 1).drop_last() =~= row_of(p, rows - 1));
        assert(drop_last_row(m).last() == m.last().drop_last());
        assert(m.last().len() == rows);
    }
}

/// The row hints of a mask of `rows` rows add up to the number of its `true` cells.
proof fn lemma_row_hints_sum(m: Seq<Seq<bool>>, rows: int)
    requires
        rows >= 0,
        forall|c: int| 0 <= c < m.len() ==> (#[trigger] m[c]).len() == rows,
    ensures
        axis_sum(Seq::new(rows as nat, |r: int| hint_line(row_of(m, r)))) == count_filled(m),
    decreases rows,
{
    if rows == 0 {
        lemma_count_filled_empty(m);
    } else {
        let p = drop_last_row(m);
        assert forall|c: int| 0 <= c < p.len() implies (#[trigger] p[c]).len() == rows - 1 by {
            assert(m[c].len() == rows);
        }
        lemma_row_hints_sum(p, rows - 1);
        lemma_peel_row(m, rows);
        lemma_hint_line_sum(row_of(m, rows - 1));
        assert forall|r: int| 0 <= r < rows - 1 implies #[trigger] row_of(p, r) =~= row_of(m, r) by {
            assert forall|c: int| 0 <= c < m.len() implies p[c][r] == m[c][r] by {
                assert(m[c].len() == rows);
            }
        }
        assert(Seq::new(rows as nat, |r: int| hint_line(row_of(m, r))).drop_last() =~= Seq::new(
            (rows - 1) as nat,
            |r: int| hint_line(row_of(p, r)),
        ));
    }
}

/// The hints of a grid add up, over the columns and over the rows alike, to the
/// number of its filled cells.
pub proof fn lemma_hint_sums(m: Seq<Seq<bool>>, cols: int, rows: int)
    requires
        is_grid(m, cols, rows),
        rows >= 0,
    ensures
        axis_sum(hint_table(m, rows)[0]) == count_filled(m),
        axis_sum(hint_table(m, rows)[1]) == count_filled(m),
{
    lemma_column_hints_sum(m);
    lemma_row_hints_sum(m, rows);
}

} // verus!
