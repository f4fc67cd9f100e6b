//! The puzzle engine: the board, its hidden goal, and every rule of play.

use vstd::prelude::*;
use std::time::{Duration, Instant};
use crate::clock::{elapsed_between, elapsed_of, now, seconds, span_of};
use crate::common::Cell;
use crate::crossout::abs;
use crate::grid::{
    axis_sum, count_filled, count_line, crossout_table, crossout_tables, filled_mask, grid,
    hint_table, hint_tables, hint_tables_match, is_grid, lemma_count_filled_bound,
    lemma_count_filled_empty, lemma_count_filled_update, lemma_count_line_update,
    lemma_crossout_table_shaped, lemma_hint_sums, lemma_hint_table_shaped, lemma_table_shaped_same,
    row_of, same_shape, table, table_shaped, tables_match,
};
use crate::hints::{ceil_half, hint_line, MAX_LINE};

verus! {

/// What a cell becomes when it is acted on with `val`: a set cell is cleared
/// whatever `val` is, an empty one takes `val`.
pub open spec fn toggled(cell: Cell, val: Cell) -> Cell {
    if cell != Cell::Empty {
        Cell::Empty
    } else {
        val
    }
}

/// The grid `g` after cell (`c`, `r`) is acted on with `val`.
pub open spec fn toggle_at(g: Seq<Seq<Cell>>, c: int, r: int, val: Cell) -> Seq<Seq<Cell>> {
    g.update(c, g[c].update(r, toggled(g[c][r], val)))
}

/// A grid of `cols` columns of `rows` empty cells.
pub open spec fn blank(cols: int, rows: int) -> Seq<Seq<Cell>> {
    Seq::new(cols as nat, |c: int| Seq::new(rows as nat, |r: int| Cell::Empty))
}

/// A grid of booleans as nested sequences.
pub open spec fn bools(v: &Vec<Vec<bool>>) -> Seq<Seq<bool>> {
    v@.map_values(|col: Vec<bool>| col@)
}

/// The grid `g` with every cell that `s` marks filled in.
pub open spec fn placed(g: Seq<Seq<Cell>>, s: Seq<Seq<bool>>) -> Seq<Seq<Cell>> {
    Seq::new(
        g.len(),
        |c: int|
            Seq::new(
                g[c].len(),
                |r: int|
                    if s[c][r] {
                        Cell::Filled
                    } else {
                        g[c][r]
                    },
            ),
    )
}

/// Whether `s` can be a goal drawn for a board of `cols` columns and `rows` rows,
/// with a chance of `ratio[0]` in `ratio[1]` per cell: never a filled cell at chance
/// zero, only filled cells at chance one.
pub open spec fn drawn(s: Seq<Seq<bool>>, cols: int, rows: int, ratio: [u32; 2]) -> bool {
    &&& is_grid(s, cols, rows)
    &&& ratio[0] == 0 ==> forall|c: int, r: int| 0 <= c < cols && 0 <= r < rows ==> !s[c][r]
    &&& ratio[0] == ratio[1] ==> forall|c: int, r: int| 0 <= c < cols && 0 <= r < rows ==> s[c][r]
}

/// Relies on rand's `Bernoulli::from_ratio` and its `Distribution::sample`, fed by
/// `rand::thread_rng`: `true` with a chance of `numerator` in `denominator`, never when
/// `numerator` is zero and always when it equals `denominator`.
#[verifier::external_body]
fn bernoulli_draw(numerator: u32, denominator: u32) -> (r: bool)
    requires
        0 < denominator,
        numerator <= denominator,
    ensures
        numerator == 0 ==> !r,
        numerator == denominator ==> r,
{
    let d = rand::distributions::Bernoulli::from_ratio(numerator, denominator).unwrap();
    rand::distributions::Distribution::sample(&d, &mut rand::thread_rng())
}

/// A goal drawn cell by cell, each filled with a chance of `ratio[0]` in `ratio[1]`.
fn draw_solution(cols: usize, rows: usize, ratio: [u32; 2]) -> (r: Vec<Vec<bool>>)
    requires
        0 < ratio[1],
        ratio[0] <= ratio[1],
    ensures
        drawn(bools(&r), cols as int, rows as int, ratio),
{
    let mut s: Vec<Vec<bool>> = Vec::new();
    let mut c: usize = 0;
    while c < cols
        invariant
            0 < ratio[1],
            ratio[0] <= ratio[1],
            0 <= c <= cols,
            s.len() == c,
            forall|k: int| 0 <= k < c ==> (#[trigger] s@[k]).len() == rows,
            ratio[0] == 0 ==> forall|k: int, r: int| 0 <= k < c && 0 <= r < rows ==> !s@[k]@[r],
            ratio[0] == ratio[1] ==> forall|k: int, r: int|
                0 <= k < c && 0 <= r < rows ==> s@[k]@[r],
        decreases cols - c,
    {
        let mut col: Vec<bool> = Vec::new();
        let mut r: usize = 0;
        while r < rows
            invariant
                0 < ratio[1],
                ratio[0] <= ratio[1],
                0 <= r <= rows,
                col.len() == r,
                ratio[0] == 0 ==> forall|i: int| 0 <= i < r ==> !col@[i],
                ratio[0] == ratio[1] ==> forall|i: int| 0 <= i < r ==> col@[i],
            decreases rows - r,
        {
            col.push(bernoulli_draw(ratio[0], ratio[1]));
            r += 1;
        }
        s.push(col);
        c += 1;
    }
    s
}

/// A grid of `cols` columns of `rows` empty cells.
fn empty_grid(cols: usize, rows: usize) -> (r: Vec<Vec<Cell>>)
    ensures
        grid(&r) == blank(cols as int, rows as int),
{
    let mut g: Vec<Vec<Cell>> = Vec::new();
    let mut c: usize = 0;
    while c < cols
        invariant
            0 <= c <= cols,
            g.len() == c,
            forall|k: int| 0 <= k < c ==> (#[trigger] g@[k])@ == Seq::new(rows as nat, |r: int| Cell::Empty),
        decreases cols - c,
    {
        let col: Vec<Cell> = vec![Cell::Empty; rows];
        assert(col@ =~= Seq::new(rows as nat, |r: int| Cell::Empty));
        g.push(col);
        c += 1;
    }
    assert(grid(&g) =~= blank(cols as int, rows as int));
    g
}

/// The hint slots per line of a board of dimensions `d`: half the rows for a column,
/// half the columns for a row, each rounded up.
pub fn nums_per_for(d: [usize; 2]) -> (r: [u64; 2])
    ensures
        r[0] == ceil_half(d[1] as int),
        r[1] == ceil_half(d[0] as int),
{
    let per_column = (d[1] / 2 + d[1] % 2) as u64;
    let per_row = (d[0] / 2 + d[0] % 2) as u64;
    [per_column, per_row]
}

/// Whether `d` (columns, rows) are dimensions a board can have.
pub open spec fn valid_dimensions(d: [usize; 2]) -> bool {
    &&& 1 <= d[0] <= MAX_LINE
    &&& 1 <= d[1] <= MAX_LINE
}

/// Contains all logic pertaining to the nonogram board.
pub struct NonogramBoard {
    /// Current nonogram board columns and rows.
    pub dimensions: [usize; 2],
    /// Next nonogram board columns and rows, used by the next reset.
    pub next_dimensions: [usize; 2],
    /// Contains all cell data of the current nonogram board, `[column][row]`.
    pub data: Vec<Vec<Cell>>,
    /// The number of hint slots of a column line and of a row line: half the length
    /// of the line, rounded up.
    pub nums_per: [u64; 2],
    /// The goal hint numbers, `[axis][line][slot]`. A negative value is crossed out.
    pub goal_nums: Vec<Vec<Vec<i8>>>,
    /// The hint numbers of the cells as the player has filled them.
    pub current_nums: Vec<Vec<Vec<i8>>>,
    /// Time that the current game started at.
    pub game_start: Option<Instant>,
    /// Time that the current game was won at.
    pub game_end: Option<Instant>,
    /// True once the game is won.
    pub end_game_screen: bool,
    /// The time that has passed since the current game started.
    pub duration: Duration,
    /// Whether a new board has been asked for.
    pub reset_board: bool,
    /// How many cells the player has filled in.
    pub count_black: u64,
    /// How many filled in cells the goal state has.
    pub goal_black: u64,
    /// The chance that a cell of the goal is filled, as numerator and denominator.
    pub init_ratio: [u32; 2],
}

impl NonogramBoard {
    /// Number of columns.
    pub open spec fn cols(&self) -> int {
        self.dimensions[0] as int
    }

    /// Number of rows.
    pub open spec fn rows(&self) -> int {
        self.dimensions[1] as int
    }

    /// The cells, `[column][row]`.
    pub open spec fn cells(&self) -> Seq<Seq<Cell>> {
        grid(&self.data)
    }

    /// Which cells are filled.
    pub open spec fn mask(&self) -> Seq<Seq<bool>> {
        filled_mask(self.cells())
    }

    /// The goal hints, with their crossout signs.
    pub open spec fn goal(&self) -> Seq<Seq<Seq<int>>> {
        table(&self.goal_nums)
    }

    /// The hints of the player's cells.
    pub open spec fn current(&self) -> Seq<Seq<Seq<int>>> {
        table(&self.current_nums)
    }

    /// The layout every operation relies on: dimensions, slot counts, the grid's shape
    /// and a valid chance of filling.
    pub open spec fn shaped(&self) -> bool {
        &&& valid_dimensions(self.dimensions)
        &&& valid_dimensions(self.next_dimensions)
        &&& self.nums_per[0] == ceil_half(self.rows())
        &&& self.nums_per[1] == ceil_half(self.cols())
        &&& is_grid(self.cells(), self.cols(), self.rows())
        &&& 0 < self.init_ratio[1]
        &&& self.init_ratio[0] <= self.init_ratio[1]
    }

    /// A board in play: shaped, a goal table of the board's shape, current hints that
    /// are those of the cells, a count of filled cells that is exact, and a win that
    /// carries the time it was won at.
    pub open spec fn wf(&self) -> bool {
        &&& self.shaped()
        &&& table_shaped(self.goal(), self.cols(), self.rows())
        &&& self.current() == hint_table(self.mask(), self.rows())
        &&& self.count_black == count_filled(self.mask())
        &&& self.end_game_screen ==> self.game_end is Some
    }

    /// Find the current black box groupings in order to find correct values
    /// for numbers nearby columns and rows.
    pub fn get_nums(&self) -> (r: Vec<Vec<Vec<i8>>>)
        requires
            self.shaped(),
        ensures
            table(&r) == hint_table(self.mask(), self.rows()),
            self.wf() ==> table(&r) == self.current(),
    {
        hint_tables(&self.data, self.dimensions[1])
    }

    /// The current hints of a well-formed board and its goal hints have one shape.
    proof fn lemma_shapes(&self)
        requires
            self.wf(),
        ensures
            table_shaped(self.current(), self.cols(), self.rows()),
            same_shape(self.goal(), self.current()),
    {
        lemma_hint_table_shaped(self.mask(), self.cols(), self.rows());
        lemma_table_shaped_same(self.goal(), self.current(), self.cols(), self.rows());
    }

    /// Compare the goal state to the current state of the hint numbers. Return true if the player
    /// has won. Return false if the player hasn't won.
    pub fn check_win(&self) -> (r: bool)
        requires
            self.wf(),
        ensures
            r == tables_match(self.goal(), self.current()),
    {
        proof {
            self.lemma_shapes();
        }
        hint_tables_match(&self.goal_nums, &self.current_nums)
    }

    /// Brings the crossouts of the goal hints up to date with the current hints.
    pub fn update_crossouts(&mut self)
        requires
            old(self).wf(),
        ensures
            final(self).wf(),
            final(self).goal() == crossout_table(old(self).goal(), old(self).current()),
            *final(self) == (NonogramBoard { goal_nums: final(self).goal_nums, ..*old(self) }),
    {
        proof {
            self.lemma_shapes();
            lemma_crossout_table_shaped(self.goal(), self.current(), self.cols(), self.rows());
        }
        self.goal_nums = crossout_tables(&self.goal_nums, &self.current_nums);
    }

    /// Get cell value.
    pub fn get(&self, ind: [usize; 2]) -> (r: Cell)
        requires
            self.shaped(),
            ind[0] < self.cols(),
            ind[1] < self.rows(),
        ensures
            r == self.cells()[ind[0] as int][ind[1] as int],
    {
        self.data[ind[0]][ind[1]]
    }

    /// Set cell value: a filled or marked cell is cleared, an empty one takes `val`.
    /// The current hints, the crossouts and the win state follow.
    pub fn set(&mut self, ind: [usize; 2], val: Cell)
        requires
            old(self).wf(),
            ind[0] < old(self).cols(),
            ind[1] < old(self).rows(),
            val != Cell::Empty,
        ensures
            final(self).wf(),
            final(self).cells() == toggle_at(old(self).cells(), ind[0] as int, ind[1] as int, val),
            final(self).count_black == count_filled(final(self).mask()),
            final(self).current() == hint_table(final(self).mask(), final(self).rows()),
            final(self).goal() == crossout_table(old(self).goal(), final(self).current()),
            final(self).end_game_screen == (old(self).end_game_screen || tables_match(
                final(self).goal(),
                final(self).current(),
            )),
            old(self).end_game_screen ==> final(self).game_end == old(self).game_end,
            !old(self).end_game_screen && !final(self).end_game_screen ==> final(self).game_end
                == old(self).game_end,
            !old(self).end_game_screen && final(self).end_game_screen
                ==> final(self).game_end.is_some(),
            *final(self) == (NonogramBoard {
                data: final(self).data,
                count_black: final(self).count_black,
                current_nums: final(self).current_nums,
                goal_nums: final(self).goal_nums,
                end_game_screen: final(self).end_game_screen,
                game_end: final(self).game_end,
                ..*old(self)
            }),
    {
        let c = ind[0];
        let r = ind[1];
        let ghost m0 = self.mask();
        let ghost g0 = self.cells();
        assert(g0[c as int].len() == self.rows());
        let cell = self.data[c][r];
        let new_cell = if cell != Cell::Empty {
            Cell::Empty
        } else {
            val
        };
        proof {
            let m1 = m0.update(c as int, m0[c as int].update(r as int, new_cell == Cell::Filled));
            lemma_count_line_update(m0[c as int], r as int, new_cell == Cell::Filled);
            lemma_count_filled_update(m0, c as int, m0[c as int].update(r as int, new_cell == Cell::Filled));
            assert(is_grid(m1, self.cols(), self.rows()));
            lemma_count_filled_bound(m1, self.cols(), self.rows());
            assert(self.cols() * self.rows() <= 127 * 127) by (nonlinear_arith)
                requires
                    0 <= self.cols() <= 127,
                    0 <= self.rows() <= 127,
            ;
        }
        if cell != Cell::Empty {
            if cell == Cell::Filled && self.count_black != 0 {
                self.count_black -= 1;
            }
        } else {
            if val == Cell::Filled {
                self.count_black += 1;
            }
        }
        self.data[c][r] = new_cell;
        proof {
            let m1 = m0.update(c as int, m0[c as int].update(r as int, new_cell == Cell::Filled));
            assert(self.cells() =~= g0.update(c as int, g0[c as int].update(r as int, new_cell)));
            assert(self.mask()[c as int] =~= m1[c as int]);
            assert(self.mask() =~= m1);
        }
        self.current_nums = self.get_nums();
        self.update_crossouts();
        let won = self.check_win();
        if won && !self.end_game_screen {
            self.end_game_screen = true;
            self.game_end = Some(now());
        }
    }

    /// A board just set up for play with goal `s`: all cells empty, the goal hints
    /// those of `s` with nothing crossed out, the clock started and the game not won.
    pub open spec fn is_fresh(&self, s: Seq<Seq<bool>>) -> bool {
        &&& self.wf()
        &&& self.cells() == blank(self.cols(), self.rows())
        &&& self.count_black == 0
        &&& is_grid(s, self.cols(), self.rows())
        &&& self.goal() == hint_table(s, self.rows())
        &&& self.goal_black == count_filled(s)
        &&& self.game_start is Some
        &&& self.game_end is None
        &&& self.duration == span_of(0)
        &&& !self.end_game_screen
        &&& !self.reset_board
    }

    /// Clear board and set all cells to default state.
    pub fn wipe_board(&mut self)
        requires
            old(self).shaped(),
        ensures
            final(self).shaped(),
            final(self).cells() == blank(old(self).cols(), old(self).rows()),
            final(self).count_black == 0,
            final(self).current() == hint_table(final(self).mask(), final(self).rows()),
            table_shaped(old(self).goal(), old(self).cols(), old(self).rows()) && (old(
                self,
            ).end_game_screen ==> old(self).game_end is Some) ==> final(self).wf(),
            *final(self) == (NonogramBoard {
                data: final(self).data,
                count_black: final(self).count_black,
                current_nums: final(self).current_nums,
                ..*old(self)
            }),
    {
        let cols = self.dimensions[0];
        let rows = self.dimensions[1];
        let ghost g0 = self.cells();
        let mut c: usize = 0;
        while c < cols
            invariant
                old(self).shaped(),
                cols == old(self).dimensions[0],
                rows == old(self).dimensions[1],
                0 <= c <= cols,
                *self == (NonogramBoard { data: self.data, ..*old(self) }),
                is_grid(self.cells(), cols as int, rows as int),
                forall|k: int, r: int| 0 <= k < c && 0 <= r < rows ==> self.cells()[k][r] == Cell::Empty,
            decreases cols - c,
        {
            let mut r: usize = 0;
            while r < rows
                invariant
                    old(self).shaped(),
                    cols == old(self).dimensions[0],
                    rows == old(self).dimensions[1],
                    0 <= c < cols,
                    0 <= r <= rows,
                    *self == (NonogramBoard { data: self.data, ..*old(self) }),
                    is_grid(self.cells(), cols as int, rows as int),
                    forall|k: int, i: int|
                        0 <= k < c && 0 <= i < rows ==> self.cells()[k][i] == Cell::Empty,
                    forall|i: int| 0 <= i < r ==> self.cells()[c as int][i] == Cell::Empty,
                decreases rows - r,
            {
                let ghost before = self.cells();
                assert(before[c as int].len() == rows);
                self.data[c][r] = Cell::Empty;
                assert(self.cells() =~= before.update(c as int, before[c as int].update(r as int, Cell::Empty)));
                r += 1;
            }
            c += 1;
        }
        assert forall|k: int| 0 <= k < cols implies #[trigger] self.cells()[k] =~= blank(
            cols as int,
            rows as int,
        )[k] by {
            assert(self.cells()[k].len() == rows);
        }
        assert(self.cells() =~= blank(cols as int, rows as int));
        proof {
            lemma_count_filled_empty(self.mask());
        }
        self.count_black = 0;
        self.current_nums = self.get_nums();
    }

    /// Fills in every cell that `solution` marks, counting each in `goal_black`.
    pub fn set_goal_from(&mut self, solution: &Vec<Vec<bool>>)
        requires
            old(self).shaped(),
            is_grid(bools(solution), old(self).cols(), old(self).rows()),
            old(self).goal_black + old(self).cols() * old(self).rows() <= u64::MAX,
        ensures
            final(self).shaped(),
            final(self).cells() == placed(old(self).cells(), bools(solution)),
            final(self).goal_black == old(self).goal_black + count_filled(bools(solution)),
            *final(self) == (NonogramBoard {
                data: final(self).data,
                goal_black: final(self).goal_black,
                ..*old(self)
            }),
    {
        let ghost sol = bools(solution);
        let ghost g0 = self.cells();
        let cols = self.dimensions[0];
        let rows = self.dimensions[1];
        let mut c: usize = 0;
        while c < cols
            invariant
                old(self).shaped(),
                sol == bools(solution),
                g0 == old(self).cells(),
                is_grid(sol, cols as int, rows as int),
                old(self).goal_black + cols * rows <= u64::MAX,
                cols == old(self).dimensions[0],
                rows == old(self).dimensions[1],
                0 <= c <= cols,
                *self == (NonogramBoard {
                    data: self.data,
                    goal_black: self.goal_black,
                    ..*old(self)
                }),
                is_grid(self.cells(), cols as int, rows as int),
                forall|k: int| 0 <= k < c ==> #[trigger] self.cells()[k] == placed(g0, sol)[k],
                forall|k: int| c <= k < cols ==> #[trigger] self.cells()[k] == g0[k],
                self.goal_black == old(self).goal_black + count_filled(sol.take(c as int)),
            decreases cols - c,
        {
            let mut r: usize = 0;
            proof {
                lemma_count_filled_bound(sol.take(c as int), c as int, rows as int);
            }
            while r < rows
                invariant
                    old(self).shaped(),
                    sol == bools(solution),
                    g0 == old(self).cells(),
                    is_grid(sol, cols as int, rows as int),
                    old(self).goal_black + cols * rows <= u64::MAX,
                    cols == old(self).dimensions[0],
                    rows == old(self).dimensions[1],
                    0 <= c < cols,
                    0 <= r <= rows,
                    *self == (NonogramBoard {
                        data: self.data,
                        goal_black: self.goal_black,
                        ..*old(self)
                    }),
                    is_grid(self.cells(), cols as int, rows as int),
                    forall|k: int| 0 <= k < c ==> #[trigger] self.cells()[k] == placed(g0, sol)[k],
                    forall|k: int| c < k < cols ==> #[trigger] self.cells()[k] == g0[k],
                    forall|i: int|
                        0 <= i < r ==> self.cells()[c as int][i] == placed(g0, sol)[c as int][i],
                    forall|i: int| r <= i < rows ==> self.cells()[c as int][i] == g0[c as int][i],
                    count_filled(sol.take(c as int)) <= c * rows,
                    self.goal_black == old(self).goal_black + count_filled(sol.take(c as int))
                        + count_line(sol[c as int].take(r as int)),
                decreases rows - r,
            {
                let ghost before = self.cells();
                proof {
                    assert(sol[c as int].take(r + 1).drop_last() =~= sol[c as int].take(r as int));
                    crate::grid::lemma_count_line_bound(sol[c as int].take(r + 1));
                    assert(c * rows + r + 1 <= cols * rows) by (nonlinear_arith)
                        requires
                            c < cols,
                            r < rows,
                    ;
                    assert(solution@[c as int]@[r as int] == sol[c as int][r as int]);
                    assert(before[c as int].len() == rows);
                }
                if solution[c][r] {
                    self.data[c][r] = Cell::Filled;
                    self.goal_black += 1;
                    assert(self.cells() =~= before.update(
                        c as int,
                        before[c as int].update(r as int, Cell::Filled),
                    ));
                }
                r += 1;
            }
            proof {
                assert(sol[c as int].take(rows as int) =~= sol[c as int]);
                assert(sol.take(c + 1).drop_last() =~= sol.take(c as int));
                assert(self.cells()[c as int] =~= placed(g0, sol)[c as int]);
            }
            c += 1;
        }
        proof {
            assert(sol.take(cols as int) =~= sol);
            assert(self.cells() =~= placed(g0, sol));
        }
    }

    /// Setup randomly generated goal nonogram: every cell is filled with a chance of
    /// `init_ratio[0]` in `init_ratio[1]`, and counted in `goal_black`.
    pub fn set_goal(&mut self)
        requires
            old(self).shaped(),
            old(self).goal_black + old(self).cols() * old(self).rows() <= u64::MAX,
        ensures
            final(self).shaped(),
            exists|s: Seq<Seq<bool>>|
                {
                    &&& drawn(s, old(self).cols(), old(self).rows(), old(self).init_ratio)
                    &&& final(self).cells() == placed(old(self).cells(), s)
                    &&& final(self).goal_black == old(self).goal_black + count_filled(s)
                },
            *final(self) == (NonogramBoard {
                data: final(self).data,
                goal_black: final(self).goal_black,
                ..*old(self)
            }),
    {
        let solution = draw_solution(self.dimensions[0], self.dimensions[1], self.init_ratio);
        self.set_goal_from(&solution);
    }

    /// The grid holds no cell that is not empty, and the goal becomes `solution`.
    proof fn lemma_placed_on_blank(g: Seq<Seq<Cell>>, s: Seq<Seq<bool>>, cols: int, rows: int)
        requires
            g == blank(cols, rows),
            is_grid(s, cols, rows),
            cols >= 0,
            rows >= 0,
        ensures
            filled_mask(placed(g, s)) == s,
            is_grid(placed(g, s), cols, rows),
    {
        let m = filled_mask(placed(g, s));
        assert forall|c: int| 0 <= c < cols implies #[trigger] m[c] =~= s[c] by {
            assert(s[c].len() == rows);
        }
        assert(m =~= s);
    }

    /// Starts a new game on the board's dimensions with `solution` as its goal.
    pub fn initialize_with(&mut self, solution: &Vec<Vec<bool>>)
        requires
            old(self).shaped(),
            is_grid(bools(solution), old(self).cols(), old(self).rows()),
        ensures
            final(self).is_fresh(bools(solution)),
            *final(self) == (NonogramBoard {
                data: final(self).data,
                goal_nums: final(self).goal_nums,
                current_nums: final(self).current_nums,
                count_black: final(self).count_black,
                goal_black: final(self).goal_black,
                game_start: final(self).game_start,
                game_end: final(self).game_end,
                end_game_screen: final(self).end_game_screen,
                duration: final(self).duration,
                reset_board: final(self).reset_board,
                ..*old(self)
            }),
    {
        proof {
            assert(self.cols() * self.rows() <= 127 * 127) by (nonlinear_arith)
                requires
                    0 <= self.cols() <= 127,
                    0 <= self.rows() <= 127,
            ;
        }
        self.end_game_screen = false;
        self.game_end = None;
        self.goal_black = 0;
        self.wipe_board();
        self.set_goal_from(solution);
        proof {
            Self::lemma_placed_on_blank(
                blank(self.cols(), self.rows()),
                bools(solution),
                self.cols(),
                self.rows(),
            );
            lemma_hint_table_shaped(bools(solution), self.cols(), self.rows());
        }
        self.goal_nums = self.get_nums();
        self.wipe_board();
        self.game_start = Some(now());
        self.duration = seconds(0);
        self.reset_board = false;
    }

    /// Initialize nonogram board: a new game on the board's dimensions, with a goal
    /// drawn at random.
    pub fn initialize(&mut self)
        requires
            old(self).shaped(),
        ensures
            exists|s: Seq<Seq<bool>>|
                drawn(s, old(self).cols(), old(self).rows(), old(self).init_ratio)
                    && final(self).is_fresh(s),
            *final(self) == (NonogramBoard {
                data: final(self).data,
                goal_nums: final(self).goal_nums,
                current_nums: final(self).current_nums,
                count_black: final(self).count_black,
                goal_black: final(self).goal_black,
                game_start: final(self).game_start,
                game_end: final(self).game_end,
                end_game_screen: final(self).end_game_screen,
                duration: final(self).duration,
                reset_board: final(self).reset_board,
                ..*old(self)
            }),
    {
        let solution = draw_solution(self.dimensions[0], self.dimensions[1], self.init_ratio);
        self.initialize_with(&solution);
    }

    /// A board of `cols` columns and `rows` rows, shaped but with no game set up yet.
    fn blank_board(next_dimensions: [usize; 2], reset_board: bool) -> (r: NonogramBoard)
        requires
            valid_dimensions(next_dimensions),
        ensures
            r.shaped(),
            r.dimensions == next_dimensions,
            r.next_dimensions == next_dimensions,
            r.init_ratio[0] == 1,
            r.init_ratio[1] == 2,
    {
        NonogramBoard {
            dimensions: next_dimensions,
            next_dimensions: next_dimensions,
            data: empty_grid(next_dimensions[0], next_dimensions[1]),
            nums_per: nums_per_for(next_dimensions),
            goal_nums: Vec::new(),
            current_nums: Vec::new(),
            game_start: None,
            game_end: None,
            end_game_screen: false,
            duration: seconds(0),
            reset_board: reset_board,
            count_black: 0,
            goal_black: 0,
            init_ratio: [1, 2],
        }
    }

    /// A new game of dimensions `next_dimensions` with a goal drawn at random, each
    /// cell filled with an even chance.
    pub fn new(next_dimensions: [usize; 2], reset_board: bool) -> (r: NonogramBoard)
        requires
            valid_dimensions(next_dimensions),
        ensures
            r.dimensions == next_dimensions,
            r.next_dimensions == next_dimensions,
            r.nums_per[0] == ceil_half(next_dimensions[1] as int),
            r.nums_per[1] == ceil_half(next_dimensions[0] as int),
            r.init_ratio[0] == 1,
            r.init_ratio[1] == 2,
            exists|s: Seq<Seq<bool>>| drawn(s, r.cols(), r.rows(), r.init_ratio) && r.is_fresh(s),
    {
        let mut board = Self::blank_board(next_dimensions, reset_board);
        board.initialize();
        board
    }

    /// A new game of dimensions `dimensions` whose goal is `solution`.
    pub fn with_solution(dimensions: [usize; 2], solution: &Vec<Vec<bool>>) -> (r: NonogramBoard)
        requires
            valid_dimensions(dimensions),
            is_grid(bools(solution), dimensions[0] as int, dimensions[1] as int),
        ensures
            r.dimensions == dimensions,
            r.next_dimensions == dimensions,
            r.nums_per[0] == ceil_half(dimensions[1] as int),
            r.nums_per[1] == ceil_half(dimensions[0] as int),
            r.init_ratio[0] == 1,
            r.init_ratio[1] == 2,
            r.is_fresh(bools(solution)),
    {
        let mut board = Self::blank_board(dimensions, false);
        board.initialize_with(solution);
        board
    }

    /// Brings `duration` up to date while the game is not won: the time from the
    /// start to the win, or to now while there is no win; frozen once won.
    pub fn update_duration(&mut self)
        ensures
            *final(self) == (NonogramBoard { duration: final(self).duration, ..*old(self) }),
            old(self).end_game_screen ==> final(self).duration == old(self).duration,
            !old(self).end_game_screen ==> match old(self).game_start {
                Some(start) => match old(self).game_end {
                    Some(end) => final(self).duration == elapsed_of(end, start),
                    None => exists|t: Instant| final(self).duration == elapsed_of(t, start),
                },
                None => final(self).duration == span_of(0),
            },
    {
        if !self.end_game_screen {
            self.duration = match self.game_start {
                Some(start) => match self.game_end {
                    Some(end) => elapsed_between(end, start),
                    None => elapsed_between(now(), start),
                },
                None => seconds(0),
            };
        }
    }
}

/// Acting twice with the same value on an empty cell leaves the grid as it was: the
/// first time fills or marks the cell, the second clears it.
pub proof fn lemma_set_twice_restores(g: Seq<Seq<Cell>>, c: int, r: int, val: Cell)
    requires
        0 <= c < g.len(),
        0 <= r < g[c].len(),
        g[c][r] == Cell::Empty,
        val != Cell::Empty,
    ensures
        toggle_at(toggle_at(g, c, r, val), c, r, val) == g,
{
    let g1 = toggle_at(g, c, r, val);
    assert(g1[c][r] == val);
    assert(toggle_at(g1, c, r, val)[c] =~= g[c]);
    assert(toggle_at(g1, c, r, val) =~= g);
}

/// Hints of any grid are never negative, and the hint tables of two grids of one
/// shape have one shape.
proof fn lemma_hint_tables_comparable(m: Seq<Seq<bool>>, m2: Seq<Seq<bool>>, cols: int, rows: int)
    requires
        is_grid(m, cols, rows),
        is_grid(m2, cols, rows),
        0 <= cols <= MAX_LINE,
        0 <= rows <= MAX_LINE,
    ensures
        table_shaped(hint_table(m, rows), cols, rows),
        table_shaped(hint_table(m2, rows), cols, rows),
        same_shape(hint_table(m, rows), hint_table(m2, rows)),
{
    lemma_hint_table_shaped(m, cols, rows);
    lemma_hint_table_shaped(m2, cols, rows);
    lemma_table_shaped_same(hint_table(m, rows), hint_table(m2, rows), cols, rows);
}

/// Once the player's hints match the goal, changing one cell keeps the win exactly
/// when the hints of that cell's column and of its row stay as they were; the
/// crossouts brought up to date after the change do not alter this.
pub proof fn lemma_win_after_change(
    goal: Seq<Seq<Seq<int>>>,
    m: Seq<Seq<bool>>,
    cols: int,
    rows: int,
    c: int,
    r: int,
    filled: bool,
)
    requires
        is_grid(m, cols, rows),
        1 <= cols <= MAX_LINE,
        1 <= rows <= MAX_LINE,
        0 <= c < cols,
        0 <= r < rows,
        table_shaped(goal, cols, rows),
        tables_match(goal, hint_table(m, rows)),
    ensures
        ({
            let m2 = m.update(c, m[c].update(r, filled));
            let h2 = hint_table(m2, rows);
            &&& tables_match(goal, h2) <==> (hint_line(m2[c]) == hint_line(m[c]) && hint_line(
                row_of(m2, r),
            ) == hint_line(row_of(m, r)))
            &&& tables_match(crossout_table(goal, h2), h2) <==> tables_match(goal, h2)
        }),
{
    let m2 = m.update(c, m[c].update(r, filled));
    let h1 = hint_table(m, rows);
    let h2 = hint_table(m2, rows);
    assert(is_grid(m2, cols, rows));
    lemma_hint_tables_comparable(m, m2, cols, rows);
    lemma_hint_table_shaped(m, cols, rows);
    lemma_hint_table_shaped(m2, cols, rows);
    lemma_table_shaped_same(goal, h2, cols, rows);
    lemma_crossout_table_shaped(goal, h2, cols, rows);
    assert forall|k: int| 0 <= k < cols && k != c implies #[trigger] h2[0][k] == h1[0][k] by {
        assert(m2[k] == m[k]);
    }
    assert forall|k: int| 0 <= k < rows && k != r implies #[trigger] h2[1][k] == h1[1][k] by {
        assert(row_of(m2, k) =~= row_of(m, k));
    }
    if hint_line(m2[c]) == hint_line(m[c]) && hint_line(row_of(m2, r)) == hint_line(row_of(m, r)) {
        assert(h2[0] =~= h1[0]);
        assert(h2[1] =~= h1[1]);
        assert(h2 =~= h1);
    }
    if tables_match(goal, h2) {
        assert forall|s: int| 0 <= s < h2[0][c].len() implies #[trigger] h2[0][c][s] == h1[0][c][s] by {
            assert(abs(goal[0][c][s]) == abs(h2[0][c][s]));
            assert(abs(goal[0][c][s]) == abs(h1[0][c][s]));
        }
        assert forall|s: int| 0 <= s < h2[1][r].len() implies #[trigger] h2[1][r][s] == h1[1][r][s] by {
            assert(abs(goal[1][r][s]) == abs(h2[1][r][s]));
            assert(abs(goal[1][r][s]) == abs(h1[1][r][s]));
        }
        assert(h2[0][c] =~= h1[0][c]);
        assert(h2[1][r] =~= h1[1][r]);
    }
    let x = crossout_table(goal, h2);
    assert(tables_match(x, h2) <==> tables_match(goal, h2)) by {
        if tables_match(goal, h2) {
            assert forall|a: int, k: int, s: int|
                0 <= a < x.len() && 0 <= k < x[a].len() && 0 <= s < x[a][k].len() implies abs(
                #[trigger] x[a][k][s],
            ) == abs(h2[a][k][s]) by {
                assert(abs(x[a][k][s]) == abs(goal[a][k][s]));
            }
        }
        if tables_match(x, h2) {
            assert forall|a: int, k: int, s: int|
                0 <= a < goal.len() && 0 <= k < goal[a].len() && 0 <= s < goal[a][k].len() implies abs(
                #[trigger] goal[a][k][s],
            ) == abs(h2[a][k][s]) by {
                assert(abs(x[a][k][s]) == abs(goal[a][k][s]));
            }
        }
    }
}

/// On a board just set up for play, `goal_black` is the sum of the goal's column
/// hints and also the sum of its row hints.
pub proof fn lemma_fresh_goal_sums(b: NonogramBoard, s: Seq<Seq<bool>>)
    requires
        b.is_fresh(s),
    ensures
        b.goal_black == axis_sum(b.goal()[0]),
        b.goal_black == axis_sum(b.goal()[1]),
{
    lemma_hint_sums(s, b.cols(), b.rows());
}

} // verus!
