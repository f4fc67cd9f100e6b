//! The snapshot of a game that is kept between sessions, and the checks a snapshot
//! must pass before play resumes from it.

use vstd::prelude::*;
use std::time::Duration;
use crate::clock::{instant_before, now};
use crate::common::Cell;
use crate::grid::{
    count_filled, count_line, filled_mask, grid, hint_tables, is_grid, table, table_shaped,
};
use crate::hints::{ceil_half, ints, MAX_LINE};
use crate::nonogram_board::{nums_per_for, valid_dimensions, NonogramBoard};

verus! {

/// Contains the information we're going to save in between each session.
pub struct SavedBoard {
    /// Current board columns and rows.
    pub dimensions: [usize; 2],
    /// Columns and rows of the next board.
    pub next_dimensions: [usize; 2],
    /// The cells, `[column][row]`: empty (0), filled (1) or marked (2).
    pub data: Vec<Vec<u8>>,
    /// The goal hints with their crossout signs.
    pub goal_nums: Vec<Vec<Vec<i8>>>,
    /// How many cells the player has filled in.
    pub count_black: u64,
    /// How many filled in cells the goal state has.
    pub goal_black: u64,
    /// The time played so far.
    pub duration: Duration,
    /// Whether the game was won.
    pub end_game_screen: bool,
}

/// Why a snapshot cannot be resumed.
#[derive(Clone, Copy, Debug, PartialEq, Eq, Structural)]
pub enum LoadError {
    /// The board's dimensions are not those of a board.
    Dimensions,
    /// The dimensions of the next board are not those of a board.
    NextDimensions,
    /// The cells do not fit the dimensions, or one holds an unknown code.
    Cells,
    /// The goal hints do not fit the dimensions, or one is out of range.
    GoalHints,
    /// The count of filled cells is not the number of filled cells.
    FilledCount,
    /// The time played reaches back before the clock's range.
    Duration,
}

/// The code of a cell in a snapshot.
pub open spec fn cell_code(c: Cell) -> u8 {
    match c {
        Cell::Empty => 0,
        Cell::Filled => 1,
        Cell::Marked => 2,
    }
}

/// The cell that a code of a snapshot stands for.
pub open spec fn cell_of_code(x: u8) -> Cell {
    if x == 1 {
        Cell::Filled
    } else if x == 2 {
        Cell::Marked
    } else {
        Cell::Empty
    }
}

/// The cell codes of a snapshot as nested sequences.
pub open spec fn codes(v: &Vec<Vec<u8>>) -> Seq<Seq<u8>> {
    v@.map_values(|col: Vec<u8>| col@)
}

/// The cells that a grid of codes stands for.
pub open spec fn decoded(g: Seq<Seq<u8>>) -> Seq<Seq<Cell>> {
    g.map_values(|col: Seq<u8>| col.map_values(|x: u8| cell_of_code(x)))
}

/// The codes of a grid of cells.
pub open spec fn encoded(g: Seq<Seq<Cell>>) -> Seq<Seq<u8>> {
    g.map_values(|col: Seq<Cell>| col.map_values(|c: Cell| cell_code(c)))
}

/// Whether every code of a grid stands for a cell.
pub open spec fn codes_valid(g: Seq<Seq<u8>>) -> bool {
    forall|c: int, r: int| 0 <= c < g.len() && 0 <= r < g[c].len() ==> #[trigger] g[c][r] <= 2
}

/// The first check that a snapshot fails, in the order they are made; `None` when
/// it passes them all.
pub open spec fn load_error(s: &SavedBoard) -> Option<LoadError> {
    let cols = s.dimensions[0] as int;
    let rows = s.dimensions[1] as int;
    if !valid_dimensions(s.dimensions) {
        Some(LoadError::Dimensions)
    } else if !valid_dimensions(s.next_dimensions) {
        Some(LoadError::NextDimensions)
    } else if !(is_grid(codes(&s.data), cols, rows) && codes_valid(codes(&s.data))) {
        Some(LoadError::Cells)
    } else if !table_shaped(table(&s.goal_nums), cols, rows) {
        Some(LoadError::GoalHints)
    } else if s.count_black != count_filled(filled_mask(decoded(codes(&s.data)))) {
        Some(LoadError::FilledCount)
    } else {
        None
    }
}

/// Whether `data` holds `cols` columns of `rows` codes that each stand for a cell.
fn check_cells(data: &Vec<Vec<u8>>, cols: usize, rows: usize) -> (r: bool)
    ensures
        r == (is_grid(codes(data), cols as int, rows as int) && codes_valid(codes(data))),
{
    if data.len() != cols {
        return false;
    }
    let mut c: usize = 0;
    while c < cols
        invariant
            data.len() == cols,
            0 <= c <= cols,
            forall|k: int| 0 <= k < c ==> (#[trigger] codes(data)[k]).len() == rows,
            forall|k: int, i: int| 0 <= k < c && 0 <= i < rows ==> #[trigger] codes(data)[k][i] <= 2,
        decreases cols - c,
    {
        if data[c].len() != rows {
            assert(codes(data)[c as int].len() != rows);
            return false;
        }
        let mut i: usize = 0;
        while i < rows
            invariant
                data.len() == cols,
                0 <= c < cols,
                data@[c as int].len() == rows,
                0 <= i <= rows,
                forall|k: int| 0 <= k < c ==> (#[trigger] codes(data)[k]).len() == rows,
                forall|k: int, j: int|
                    0 <= k < c && 0 <= j < rows ==> #[trigger] codes(data)[k][j] <= 2,
                forall|j: int| 0 <= j < i ==> #[trigger] codes(data)[c as int][j] <= 2,
            decreases rows - i,
        {
            if data[c][i] > 2 {
                assert(codes(data)[c as int][i as int] > 2);
                return false;
            }
            i += 1;
        }
        c += 1;
    }
    true
}

/// Whether `t` holds two axes of hint lines of the shape of a board of `cols`
/// columns and `rows` rows, with every hint in range.
fn check_goal_table(t: &Vec<Vec<Vec<i8>>>, cols: usize, rows: usize) -> (r: bool)
    requires
        cols <= MAX_LINE,
        rows <= MAX_LINE,
    ensures
        r == table_shaped(table(t), cols as int, rows as int),
{
    if t.len() != 2 {
        return false;
    }
    let ghost tt = table(t);
    let lines: [usize; 2] = [cols, rows];
    let slots: [usize; 2] = [(rows + 1) / 2, (cols + 1) / 2];
    let mut a: usize = 0;
    while a < 2
        invariant
            t.len() == 2,
            tt == table(t),
            lines[0] == cols,
            lines[1] == rows,
            slots[0] == ceil_half(rows as int),
            slots[1] == ceil_half(cols as int),
            0 <= a <= 2,
            a > 0 ==> is_grid(tt[0], cols as int, ceil_half(rows as int)),
            a > 1 ==> is_grid(tt[1], rows as int, ceil_half(cols as int)),
            forall|a2: int, k: int, s: int|
                0 <= a2 < a && 0 <= k < tt[a2].len() && 0 <= s < tt[a2][k].len() ==> -127
                    <= #[trigger] tt[a2][k][s] <= 127,
        decreases 2 - a,
    {
        let axis = &t[a];
        if axis.len() != lines[a] {
            assert(tt[a as int].len() != lines[a as int]);
            return false;
        }
        let mut k: usize = 0;
        while k < axis.len()
            invariant
                t.len() == 2,
                tt == table(t),
                0 <= a < 2,
                *axis == t@[a as int],
                tt[a as int].len() == axis.len(),
                lines[0] == cols,
                lines[1] == rows,
                slots[0] == ceil_half(rows as int),
                slots[1] == ceil_half(cols as int),
                axis.len() == lines[a as int],
                0 <= k <= axis.len(),
                a > 0 ==> is_grid(tt[0], cols as int, ceil_half(rows as int)),
                forall|a2: int, k2: int, s: int|
                    0 <= a2 < a && 0 <= k2 < tt[a2].len() && 0 <= s < tt[a2][k2].len() ==> -127
                        <= #[trigger] tt[a2][k2][s] <= 127,
                forall|k2: int| 0 <= k2 < k ==> (#[trigger] tt[a as int][k2]).len() == slots[a as int],
                forall|k2: int, s: int|
                    0 <= k2 < k && 0 <= s < tt[a as int][k2].len() ==> -127 <= #[trigger] tt[a as int][k2][s]
                        <= 127,
            decreases axis.len() - k,
        {
            let line = &axis[k];
            assert(tt[a as int][k as int] == ints(line@));
            if line.len() != slots[a] {
                proof {
                    assert(tt[a as int][k as int].len() == line.len());
                    if a == 0 {
                        assert(!is_grid(tt[0], cols as int, ceil_half(rows as int)));
                    } else {
                        assert(!is_grid(tt[1], rows as int, ceil_half(cols as int)));
                    }
                }
                return false;
            }
            let mut s: usize = 0;
            while s < line.len()
                invariant
                    tt == table(t),
                    t.len() == 2,
                    0 <= a < 2,
                    0 <= k < tt[a as int].len(),
                    tt[a as int][k as int] == ints(line@),
                    0 <= s <= line.len(),
                    forall|j: int| 0 <= j < s ==> -127 <= #[trigger] tt[a as int][k as int][j] <= 127,
                decreases line.len() - s,
            {
                if line[s] < -127 {
                    assert(tt[a as int][k as int][s as int] < -127);
                    return false;
                }
                s += 1;
            }
            k += 1;
        }
        a += 1;
    }
    true
}

/// The cells that a grid of valid codes stands for.
fn decode_cells(data: &Vec<Vec<u8>>) -> (r: Vec<Vec<Cell>>)
    ensures
        grid(&r) == decoded(codes(data)),
{
    let mut g: Vec<Vec<Cell>> = Vec::new();
    let mut c: usize = 0;
    while c < data.len()
        invariant
            0 <= c <= data.len(),
            g.len() == c,
            forall|k: int| 0 <= k < c ==> #[trigger] grid(&g)[k] == decoded(codes(data))[k],
        decreases data.len() - c,
    {
        let col = &data[c];
        let mut out: Vec<Cell> = Vec::new();
        let mut i: usize = 0;
        while i < col.len()
            invariant
                0 <= i <= col.len(),
                out.len() == i,
                forall|j: int| 0 <= j < i ==> out@[j] == cell_of_code(#[trigger] col@[j]),
            decreases col.len() - i,
        {
            let x = col[i];
            let cell = if x == 1 {
                Cell::Filled
            } else if x == 2 {
                Cell::Marked
            } else {
                Cell::Empty
            };
            out.push(cell);
            i += 1;
        }
        let ghost before = grid(&g);
        g.push(out);
        assert(grid(&g)[c as int] =~= decoded(codes(data))[c as int]);
        assert forall|k: int| 0 <= k < c implies #[trigger] grid(&g)[k] == decoded(codes(data))[k] by {
            assert(grid(&g)[k] == before[k]);
        }
        c += 1;
    }
    assert(grid(&g) =~= decoded(codes(data)));
    g
}

/// The codes of a grid of cells.
fn encode_cells(data: &Vec<Vec<Cell>>) -> (r: Vec<Vec<u8>>)
    ensures
        codes(&r) == encoded(grid(data)),
{
    let mut g: Vec<Vec<u8>> = Vec::new();
    let mut c: usize = 0;
    while c < data.len()
        invariant
            0 <= c <= data.len(),
            g.len() == c,
            forall|k: int| 0 <= k < c ==> #[trigger] codes(&g)[k] == encoded(grid(data))[k],
        decreases data.len() - c,
    {
        let col = &data[c];
        let mut out: Vec<u8> = Vec::new();
        let mut i: usize = 0;
        while i < col.len()
            invariant
                0 <= i <= col.len(),
                out.len() == i,
                forall|j: int| 0 <= j < i ==> out@[j] == cell_code(#[trigger] col@[j]),
            decreases col.len() - i,
        {
            let code: u8 = match col[i] {
                Cell::Empty => 0,
                Cell::Filled => 1,
                Cell::Marked => 2,
            };
            out.push(code);
            i += 1;
        }
        let ghost before = codes(&g);
        g.push(out);
        assert(codes(&g)[c as int] =~= encoded(grid(data))[c as int]);
        assert forall|k: int| 0 <= k < c implies #[trigger] codes(&g)[k] == encoded(grid(data))[k] by {
            assert(codes(&g)[k] == before[k]);
        }
        c += 1;
    }
    assert(codes(&g) =~= encoded(grid(data)));
    g
}

/// The number of filled cells of a grid of `cols` columns of `rows` cells.
fn count_filled_cells(data: &Vec<Vec<Cell>>, cols: usize, rows: usize) -> (r: u64)
    requires
        cols <= MAX_LINE,
        rows <= MAX_LINE,
        is_grid(grid(data), cols as int, rows as int),
    ensures
        r == count_filled(filled_mask(grid(data))),
{
    let ghost m = filled_mask(grid(data));
    let mut count: u64 = 0;
    let mut c: usize = 0;
    while c < cols
        invariant
            cols <= MAX_LINE,
            rows <= MAX_LINE,
            is_grid(grid(data), cols as int, rows as int),
            m == filled_mask(grid(data)),
            0 <= c <= cols,
            count == count_filled(m.take(c as int)),
            count <= c * rows,
        decreases cols - c,
    {
        assert(grid(data)[c as int].len() == rows);
        let col = &data[c];
        let ghost line = m[c as int];
        let mut i: usize = 0;
        let mut in_col: u64 = 0;
        while i < rows
            invariant
                rows <= MAX_LINE,
                col.len() == rows,
                line == col@.map_values(|x: Cell| x == Cell::Filled),
                0 <= i <= rows,
                in_col == count_line(line.take(i as int)),
                in_col <= i,
            decreases rows - i,
        {
            assert(line.take(i + 1).drop_last() =~= line.take(i as int));
            if col[i] == Cell::Filled {
                in_col += 1;
            }
            i += 1;
        }
        assert(line.take(rows as int) =~= line);
        assert(m.take(c + 1).drop_last() =~= m.take(c as int));
        assert(count + in_col <= (c + 1) * rows) by (nonlinear_arith)
            requires
                count <= c * rows,
                in_col <= rows,
        ;
        assert((c + 1) * rows <= 127 * 127) by (nonlinear_arith)
            requires
                c < cols <= 127,
                rows <= 127,
        ;
        count += in_col;
        c += 1;
    }
    assert(m.take(cols as int) =~= m);
    count
}

impl NonogramBoard {
    /// The snapshot of this game.
    pub fn to_saved(&self) -> (r: SavedBoard)
        ensures
            r.dimensions == self.dimensions,
            r.next_dimensions == self.next_dimensions,
            codes(&r.data) == encoded(self.cells()),
            table(&r.goal_nums) == self.goal(),
            r.count_black == self.count_black,
            r.goal_black == self.goal_black,
            r.duration == self.duration,
            r.end_game_screen == self.end_game_screen,
    {
        SavedBoard {
            dimensions: self.dimensions,
            next_dimensions: self.next_dimensions,
            data: encode_cells(&self.data),
            goal_nums: copy_table(&self.goal_nums),
            count_black: self.count_black,
            goal_black: self.goal_black,
            duration: self.duration,
            end_game_screen: self.end_game_screen,
        }
    }

    /// Resumes the game a snapshot holds, with the clock set back by the time
    /// already played and a won game stamped as won now; a snapshot that fails a
    /// check gives the first check it fails.
    pub fn from_saved(saved: SavedBoard) -> (r: Result<NonogramBoard, LoadError>)
        ensures
            match r {
                Ok(b) => {
                    &&& load_error(&saved) is None
                    &&& b.wf()
                    &&& b.dimensions == saved.dimensions
                    &&& b.next_dimensions == saved.next_dimensions
                    &&& b.cells() == decoded(codes(&saved.data))
                    &&& b.goal() == table(&saved.goal_nums)
                    &&& b.count_black == saved.count_black
                    &&& b.goal_black == saved.goal_black
                    &&& b.duration == saved.duration
                    &&& b.end_game_screen == saved.end_game_screen
                    &&& b.game_start is Some
                    &&& b.game_end is Some <==> saved.end_game_screen
                    &&& !b.reset_board
                    &&& b.init_ratio[0] == 1
                    &&& b.init_ratio[1] == 2
                },
                Err(e) => load_error(&saved) == Some(e) || (load_error(&saved) is None && e
                    == LoadError::Duration),
            },
    {
        if !(1 <= saved.dimensions[0] && saved.dimensions[0] <= MAX_LINE && 1 <= saved.dimensions[1]
            && saved.dimensions[1] <= MAX_LINE) {
            return Err(LoadError::Dimensions);
        }
        if !(1 <= saved.next_dimensions[0] && saved.next_dimensions[0] <= MAX_LINE && 1
            <= saved.next_dimensions[1] && saved.next_dimensions[1] <= MAX_LINE) {
            return Err(LoadError::NextDimensions);
        }
        let cols = saved.dimensions[0];
        let rows = saved.dimensions[1];
        if !check_cells(&saved.data, cols, rows) {
            return Err(LoadError::Cells);
        }
        if !check_goal_table(&saved.goal_nums, cols, rows) {
            return Err(LoadError::GoalHints);
        }
        let data = decode_cells(&saved.data);
        proof {
            assert forall|c: int| 0 <= c < cols implies (#[trigger] grid(&data)[c]).len() == rows by {
                assert(codes(&saved.data)[c].len() == rows);
            }
        }
        if count_filled_cells(&data, cols, rows) != saved.count_black {
            return Err(LoadError::FilledCount);
        }
        let resumed_at = now();
        let game_start = match instant_before(resumed_at, saved.duration) {
            Some(t) => t,
            None => {
                return Err(LoadError::Duration);
            },
        };
        let current_nums = hint_tables(&data, rows);
        Ok(NonogramBoard {
            dimensions: saved.dimensions,
            next_dimensions: saved.next_dimensions,
            data: data,
            nums_per: nums_per_for(saved.dimensions),
            goal_nums: saved.goal_nums,
            current_nums: current_nums,
            game_start: Some(game_start),
            game_end: if saved.end_game_screen {
                Some(resumed_at)
            } else {
                None
            },
            end_game_screen: saved.end_game_screen,
            duration: saved.duration,
            reset_board: false,
            count_black: saved.count_black,
            goal_black: saved.goal_black,
            init_ratio: [1, 2],
        })
    }
}

/// A copy of a hint table.
fn copy_table(t: &Vec<Vec<Vec<i8>>>) -> (r: Vec<Vec<Vec<i8>>>)
    ensures
        table(&r) == table(t),
{
    let mut out: Vec<Vec<Vec<i8>>> = Vec::new();
    let mut a: usize = 0;
    while a < t.len()
        invariant
            0 <= a <= t.len(),
            out.len() == a,
            forall|k: int| 0 <= k < a ==> #[trigger] table(&out)[k] == table(t)[k],
        decreases t.len() - a,
    {
        let mut axis: Vec<Vec<i8>> = Vec::new();
        let mut k: usize = 0;
        while k < t[a].len()
            invariant
                0 <= a < t.len(),
                0 <= k <= t@[a as int].len(),
                axis.len() == k,
                forall|j: int| 0 <= j < k ==> (#[trigger] axis@[j])@ == t@[a as int]@[j]@,
            decreases t@[a as int].len() - k,
        {
            let line = &t[a][k];
            let mut copy: Vec<i8> = Vec::new();
            let mut s: usize = 0;
            while s < line.len()
                invariant
                    0 <= s <= line.len(),
                    copy@ == line@.take(s as int),
                decreases line.len() - s,
            {
                copy.push(line[s]);
                s += 1;
                assert(copy@ =~= line@.take(s as int));
            }
            assert(line@.take(line.len() as int) =~= line@);
            axis.push(copy);
            k += 1;
        }
        let ghost before = table(&out);
        out.push(axis);
        assert(table(&out)[a as int] =~= table(t)[a as int]);
        assert forall|k: int| 0 <= k < a implies #[trigger] table(&out)[k] == table(t)[k] by {
            assert(table(&out)[k] == before[k]);
        }
        a += 1;
    }
    assert(table(&out) =~= table(t));
    out
}

} // verus!
