//! Small shared types: the state of one cell and of one button.

use vstd::prelude::*;

verus! {

/// The state of one cell of the board.
#[derive(Clone, Copy, Debug, PartialEq, Eq, Structural)]
pub enum Cell {
    /// Not touched by the player.
    Empty,
    /// Filled in by the player (or part of the hidden solution).
    Filled,
    /// Marked by the player as certainly not filled.
    Marked,
}

/// Determines the current status of an interactable button.
#[derive(Clone, Copy, Debug, PartialEq, Eq, Structural)]
pub enum ButtonInteraction {
    /// Button is not being interacted with.
    Idle,
    /// Button has cursor hovering over it.
    Hover,
    /// Select, determined on a per button basis. Usually means the button has been clicked.
    Select,
}

/// A direction in which the selected cell can move.
#[derive(Clone, Copy, Debug, PartialEq, Eq, Structural)]
pub enum Directions {
    /// Towards row 0.
    Up,
    /// Towards the last row.
    Down,
    /// Towards column 0.
    Left,
    /// Towards the last column.
    Right,
}

/// One step along a line of `len` cells from `i`, forwards or backwards; at the end
/// of the line, the other end when `loop_back`, else `i` itself.
pub open spec fn stepped(len: int, i: int, forwards: bool, loop_back: bool) -> int {
    if forwards {
        if i + 1 < len {
            i + 1
        } else if loop_back {
            0
        } else {
            i
        }
    } else {
        if i > 0 {
            i - 1
        } else if loop_back {
            len - 1
        } else {
            i
        }
    }
}

/// One step along a line of `len` cells, as `stepped` says.
fn step_along(len: usize, i: usize, forwards: bool, loop_back: bool) -> (r: usize)
    requires
        i < len,
    ensures
        r == stepped(len as int, i as int, forwards, loop_back),
        r < len,
{
    if forwards {
        if i + 1 < len {
            i + 1
        } else if loop_back {
            0
        } else {
            i
        }
    } else {
        if i > 0 {
            i - 1
        } else if loop_back {
            len - 1
        } else {
            i
        }
    }
}

/// The cell that the selection moves to from `cell` in direction `dir`, on a board
/// of `dimensions` (columns, rows).
pub fn move_selected(dimensions: [usize; 2], cell: [usize; 2], dir: Directions, loop_back: bool) -> (r: [usize; 2])
    requires
        cell[0] < dimensions[0],
        cell[1] < dimensions[1],
    ensures
        r[0] < dimensions[0],
        r[1] < dimensions[1],
        r[0] == match dir {
            Directions::Left => stepped(dimensions[0] as int, cell[0] as int, false, loop_back),
            Directions::Right => stepped(dimensions[0] as int, cell[0] as int, true, loop_back),
            _ => cell[0] as int,
        },
        r[1] == match dir {
            Directions::Up => stepped(dimensions[1] as int, cell[1] as int, false, loop_back),
            Directions::Down => stepped(dimensions[1] as int, cell[1] as int, true, loop_back),
            _ => cell[1] as int,
        },
{
    match dir {
        Directions::Up => [cell[0], step_along(dimensions[1], cell[1], false, loop_back)],
        Directions::Down => [cell[0], step_along(dimensions[1], cell[1], true, loop_back)],
        Directions::Left => [step_along(dimensions[0], cell[0], false, loop_back), cell[1]],
        Directions::Right => [step_along(dimensions[0], cell[0], true, loop_back), cell[1]],
    }
}

/// Determines the columns and rows in a fresh run of the program.
pub const INITIAL_BOARD_DIMENSIONS: [usize; 2] = [15, 10];

/// The number of board sizes offered to the player.
pub const NUM_DIMENSIONS_CHOICES: usize = 11;

/// The board sizes (columns, rows) offered to the player, smallest first.
pub const DIMENSIONS_CHOICES: [[usize; 2]; NUM_DIMENSIONS_CHOICES] = [
    [5, 5],
    [10, 5],
    [10, 10],
    [15, 10],
    [15, 15],
    [20, 15],
    [20, 20],
    [25, 20],
    [25, 25],
    [30, 25],
    [30, 30],
];

/// Whether `d` is one of the offered board sizes.
pub open spec fn offered(d: [usize; 2]) -> bool {
    exists|i: int| 0 <= i < NUM_DIMENSIONS_CHOICES && DIMENSIONS_CHOICES[i] == d
}

/// The position of `d` among the offered board sizes.
pub fn dimensions_index(d: [usize; 2]) -> (r: Option<usize>)
    ensures
        match r {
            Some(i) => i < NUM_DIMENSIONS_CHOICES && DIMENSIONS_CHOICES[i as int] == d && forall|j: int|
                0 <= j < i ==> DIMENSIONS_CHOICES[j] != d,
            None => !offered(d),
        },
{
    let mut i: usize = 0;
    while i < NUM_DIMENSIONS_CHOICES
        invariant
            0 <= i <= NUM_DIMENSIONS_CHOICES,
            forall|j: int| 0 <= j < i ==> DIMENSIONS_CHOICES[j] != d,
        decreases NUM_DIMENSIONS_CHOICES - i,
    {
        let choice = DIMENSIONS_CHOICES[i];
        if choice[0] == d[0] && choice[1] == d[1] {
            assert(DIMENSIONS_CHOICES[i as int] =~= d);
            return Some(i);
        }
        i += 1;
    }
    None
}

/// Every offered board size is a size a board can have.
pub proof fn lemma_offered_valid(d: [usize; 2])
    requires
        offered(d),
    ensures
        crate::nonogram_board::valid_dimensions(d),
{
    let i = choose|i: int| 0 <= i < NUM_DIMENSIONS_CHOICES && DIMENSIONS_CHOICES[i] == d;
    assert(1 <= DIMENSIONS_CHOICES[i][0] <= 30);
}

/// The offered board size one place after (or, when `up` is false, one place before)
/// the first place of `d` among the offered sizes; `d` itself at the ends of the list.
pub open spec fn stepped_choice(d: [usize; 2], up: bool) -> [usize; 2] {
    let i = choose|i: int|
        0 <= i < NUM_DIMENSIONS_CHOICES && DIMENSIONS_CHOICES[i] == d && forall|j: int|
            0 <= j < i ==> DIMENSIONS_CHOICES[j] != d;
    if up && i + 1 < NUM_DIMENSIONS_CHOICES {
        DIMENSIONS_CHOICES[i + 1]
    } else if !up && i > 0 {
        DIMENSIONS_CHOICES[i - 1]
    } else {
        d
    }
}

/// The offered board size next to `d`: the next larger one when `up`, the next
/// smaller one otherwise; the largest and the smallest stay as they are.
pub fn step_dimensions(d: [usize; 2], up: bool) -> (r: [usize; 2])
    requires
        offered(d),
    ensures
        r == stepped_choice(d, up),
        offered(r),
{
    let i = match dimensions_index(d) {
        Some(i) => i,
        None => {
            return d;
        },
    };
    proof {
        let j = choose|j: int|
            0 <= j < NUM_DIMENSIONS_CHOICES && DIMENSIONS_CHOICES[j] == d && forall|k: int|
                0 <= k < j ==> DIMENSIONS_CHOICES[k] != d;
        assert(j == i as int);
    }
    if up && i + 1 < NUM_DIMENSIONS_CHOICES {
        DIMENSIONS_CHOICES[i + 1]
    } else if !up && i > 0 {
        DIMENSIONS_CHOICES[i - 1]
    } else {
        d
    }
}

} // verus!
