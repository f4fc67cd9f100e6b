use nonogram::nonogram_board::nums_per_for;
use nonogram::{Cell, NonogramBoard};

fn diagonal_2x2() -> Vec<Vec<bool>> {
    vec![vec![true, false], vec![false, true]]
}

fn wait_a_little() {
    let start = std::time::Instant::now();
    while start.elapsed() < std::time::Duration::from_millis(5) {}
}

fn count_filled(b: &NonogramBoard) -> u64 {
    let mut n = 0;
    for col in &b.data {
        for c in col {
            if *c == Cell::Filled {
                n += 1;
            }
        }
    }
    n
}

#[test]
fn nums_per_is_half_the_other_axis_rounded_up() {
    assert_eq!(nums_per_for([5, 5]), [3, 3]);
    assert_eq!(nums_per_for([15, 10]), [5, 8]);
    assert_eq!(nums_per_for([1, 1]), [1, 1]);
    assert_eq!(nums_per_for([30, 25]), [13, 15]);
    assert_eq!(nums_per_for([2, 7]), [4, 1]);
    for c in 1..40usize {
        for r in 1..40usize {
            let n = nums_per_for([c, r]);
            assert_eq!(n[0] as usize, (r + 1) / 2);
            assert_eq!(n[1] as usize, (c + 1) / 2);
        }
    }
}

#[test]
fn new_board_has_nums_per_of_its_dimensions() {
    let b = NonogramBoard::new([15, 10], false);
    assert_eq!(b.nums_per, [5, 8]);
    assert_eq!(b.dimensions, [15, 10]);
    assert_eq!(b.next_dimensions, [15, 10]);
    assert_eq!(b.goal_nums.len(), 2);
    assert_eq!(b.goal_nums[0].len(), 15);
    assert_eq!(b.goal_nums[1].len(), 10);
    assert!(b.goal_nums[0].iter().all(|l| l.len() == 5));
    assert!(b.goal_nums[1].iter().all(|l| l.len() == 8));
}

#[test]
fn get_nums_twice_gives_identical_tables() {
    let mut b = NonogramBoard::with_solution(
        [3, 3],
        &vec![vec![true, true, false], vec![false, true, true], vec![true, false, true]],
    );
    b.set([0, 0], Cell::Filled);
    b.set([2, 2], Cell::Filled);
    b.set([1, 1], Cell::Marked);
    let first = b.get_nums();
    let second = b.get_nums();
    assert_eq!(first, second);
    assert_eq!(first, b.current_nums);
    assert_eq!(first[0], vec![vec![1, 0], vec![0, 0], vec![1, 0]]);
    assert_eq!(first[1], vec![vec![1, 0], vec![0, 0], vec![1, 0]]);
}

#[test]
fn get_nums_of_goal() {
    // Column 0 is filled at rows 0, 1 and 3: runs 2 then 1.
    let solution = vec![
        vec![true, true, false, true],
        vec![false, false, false, false],
        vec![true, true, true, true],
    ];
    let b = NonogramBoard::with_solution([3, 4], &solution);
    assert_eq!(b.goal_nums[0], vec![vec![2, 1], vec![0, 0], vec![4, 0]]);
    assert_eq!(
        b.goal_nums[1],
        vec![vec![1, 1], vec![1, 1], vec![1, 0], vec![1, 1]]
    );
    assert_eq!(b.goal_black, 7);
}

#[test]
fn set_twice_restores_the_cell() {
    for v in [Cell::Filled, Cell::Marked] {
        let mut b = NonogramBoard::with_solution([2, 2], &diagonal_2x2());
        let before = b.data.clone();
        let count = b.count_black;
        b.set([1, 0], v);
        assert_eq!(b.get([1, 0]), v);
        b.set([1, 0], v);
        assert_eq!(b.get([1, 0]), Cell::Empty);
        assert_eq!(b.data, before);
        assert_eq!(b.count_black, count);
    }
}

#[test]
fn set_on_a_set_cell_clears_it_whatever_the_value() {
    let mut b = NonogramBoard::with_solution([2, 2], &diagonal_2x2());
    b.set([0, 1], Cell::Marked);
    b.set([0, 1], Cell::Filled);
    assert_eq!(b.get([0, 1]), Cell::Empty);
    b.set([0, 1], Cell::Filled);
    assert_eq!(b.get([0, 1]), Cell::Filled);
    b.set([0, 1], Cell::Marked);
    assert_eq!(b.get([0, 1]), Cell::Empty);
    assert_eq!(b.count_black, 0);
}

#[test]
fn count_black_follows_every_set() {
    let mut b = NonogramBoard::new([5, 5], false);
    let moves: [([usize; 2], Cell); 10] = [
        ([0, 0], Cell::Filled),
        ([1, 0], Cell::Filled),
        ([1, 0], Cell::Marked),
        ([2, 3], Cell::Marked),
        ([4, 4], Cell::Filled),
        ([0, 0], Cell::Filled),
        ([3, 3], Cell::Filled),
        ([2, 3], Cell::Filled),
        ([2, 3], Cell::Filled),
        ([4, 0], Cell::Filled),
    ];
    for (ind, v) in moves {
        b.set(ind, v);
        assert_eq!(b.count_black, count_filled(&b));
    }
    assert_eq!(b.count_black, 4);
}

#[test]
fn win_holds_until_a_line_signature_changes() {
    let mut b = NonogramBoard::with_solution([2, 2], &diagonal_2x2());
    b.set([0, 0], Cell::Filled);
    b.set([1, 1], Cell::Filled);
    assert!(b.check_win());
    // Marking a cell leaves every run as it was.
    b.set([0, 1], Cell::Marked);
    assert!(b.check_win());
    b.set([0, 1], Cell::Marked);
    assert!(b.check_win());
    // Filling it joins a run in column 0 and in row 1.
    b.set([0, 1], Cell::Filled);
    assert!(!b.check_win());
    b.set([0, 1], Cell::Filled);
    assert!(b.check_win());
}

#[test]
fn other_grid_with_the_goal_hints_also_wins() {
    // Both diagonals of a 2x2 board have the hints [1] on every line.
    let mut b = NonogramBoard::with_solution([2, 2], &diagonal_2x2());
    b.set([1, 0], Cell::Filled);
    b.set([0, 1], Cell::Filled);
    assert!(b.check_win());
    assert!(b.end_game_screen);
}

#[test]
fn crossout_on_the_board() {
    // Column 0 of the goal is filled at rows 0, 1 and 3: hints [2, 1].
    let solution = vec![vec![true, true, false, true], vec![false, false, false, false]];
    let mut b = NonogramBoard::with_solution([2, 4], &solution);
    assert_eq!(b.goal_nums[0][0], vec![2, 1]);
    // A single filled cell is a run of 1: it matches the goal's 1, not its 2.
    b.set([0, 0], Cell::Filled);
    assert_eq!(b.goal_nums[0][0], vec![2, -1]);
    b.set([0, 1], Cell::Filled);
    assert_eq!(b.current_nums[0][0], vec![2, 0]);
    assert_eq!(b.goal_nums[0][0], vec![-2, 1]);
    b.set([0, 3], Cell::Filled);
    assert_eq!(b.goal_nums[0][0], vec![-2, -1]);
    // Clearing a cell takes the crossout back.
    b.set([0, 3], Cell::Filled);
    b.set([0, 1], Cell::Filled);
    assert_eq!(b.goal_nums[0][0], vec![2, -1]);
}

#[test]
fn end_to_end_diagonal() {
    let mut b = NonogramBoard::with_solution([2, 2], &diagonal_2x2());
    assert_eq!(b.goal_nums[0], vec![vec![1], vec![1]]);
    assert_eq!(b.goal_nums[1], vec![vec![1], vec![1]]);
    assert_eq!(b.goal_black, 2);
    assert_eq!(b.count_black, 0);
    assert!(b.data.iter().all(|c| c.iter().all(|x| *x == Cell::Empty)));
    assert!(!b.check_win());
    assert!(!b.end_game_screen);
    assert!(b.game_end.is_none());
    b.set([0, 0], Cell::Filled);
    assert!(!b.end_game_screen);
    b.set([1, 1], Cell::Filled);
    assert_eq!(b.current_nums[0], vec![vec![1], vec![1]]);
    assert_eq!(b.current_nums[1], vec![vec![1], vec![1]]);
    assert!(b.check_win());
    assert!(b.end_game_screen);
    let stamped = b.game_end;
    assert!(stamped.is_some());
    wait_a_little();
    b.set([1, 0], Cell::Marked);
    assert!(b.end_game_screen);
    assert_eq!(b.game_end, stamped);
    b.set([1, 0], Cell::Marked);
    b.set([1, 0], Cell::Filled);
    assert_eq!(b.current_nums[0], vec![vec![1], vec![2]]);
    assert!(!b.check_win());
    assert!(b.end_game_screen);
    assert_eq!(b.game_end, stamped);
}

#[test]
fn reset_to_new_dimensions() {
    let mut b = NonogramBoard::with_solution([2, 2], &diagonal_2x2());
    b.set([0, 0], Cell::Filled);
    b.set([1, 1], Cell::Filled);
    assert!(b.end_game_screen);
    let old_start = b.game_start.unwrap();
    b.next_dimensions = [5, 5];
    wait_a_little();
    let b = NonogramBoard::new(b.next_dimensions, true);
    assert_eq!(b.dimensions, [5, 5]);
    assert_eq!(b.count_black, 0);
    assert!(!b.end_game_screen);
    assert!(!b.reset_board);
    assert!(b.game_end.is_none());
    assert!(b.game_start.unwrap() > old_start);
    assert_eq!(b.duration, std::time::Duration::ZERO);
    let goal_from_columns: i64 = b.goal_nums[0]
        .iter()
        .map(|l| l.iter().map(|x| *x as i64).sum::<i64>())
        .sum();
    let goal_from_rows: i64 = b.goal_nums[1]
        .iter()
        .map(|l| l.iter().map(|x| *x as i64).sum::<i64>())
        .sum();
    assert_eq!(b.goal_black as i64, goal_from_columns);
    assert_eq!(b.goal_black as i64, goal_from_rows);
    assert!(b.goal_black <= 25);
}

#[test]
fn chance_zero_and_one_give_fixed_goals() {
    let mut b = NonogramBoard::new([4, 3], false);
    b.init_ratio = [0, 1];
    b.initialize();
    assert_eq!(b.goal_black, 0);
    assert!(b.goal_nums[0].iter().all(|l| l.iter().all(|x| *x == 0)));
    // An empty goal is won at once by the empty board.
    assert!(b.check_win());
    b.init_ratio = [3, 3];
    b.initialize();
    assert_eq!(b.goal_black, 12);
    assert_eq!(b.goal_nums[0], vec![vec![3, 0]; 4]);
    assert_eq!(b.goal_nums[1], vec![vec![4, 0]; 3]);
    assert!(!b.end_game_screen);
}

#[test]
fn set_goal_fills_and_counts() {
    let mut b = NonogramBoard::with_solution([3, 2], &vec![vec![false; 2]; 3]);
    b.init_ratio = [1, 1];
    b.set_goal();
    assert_eq!(b.goal_black, 6);
    assert!(b.data.iter().all(|c| c.iter().all(|x| *x == Cell::Filled)));
    b.wipe_board();
    assert!(b.data.iter().all(|c| c.iter().all(|x| *x == Cell::Empty)));
    assert_eq!(b.count_black, 0);
    assert_eq!(b.current_nums[0], vec![vec![0]; 3]);
}

#[test]
fn set_goal_from_marks_only_what_it_is_given() {
    let mut b = NonogramBoard::with_solution([2, 2], &diagonal_2x2());
    b.set([0, 1], Cell::Marked);
    b.set_goal_from(&vec![vec![true, false], vec![false, false]]);
    assert_eq!(b.get([0, 0]), Cell::Filled);
    assert_eq!(b.get([0, 1]), Cell::Marked);
    assert_eq!(b.get([1, 0]), Cell::Empty);
    assert_eq!(b.goal_black, 3);
}

#[test]
fn duration_freezes_once_won() {
    let mut b = NonogramBoard::with_solution([2, 2], &diagonal_2x2());
    wait_a_little();
    b.update_duration();
    assert!(b.duration >= std::time::Duration::from_millis(5));
    b.set([0, 0], Cell::Filled);
    b.set([1, 1], Cell::Filled);
    assert!(b.end_game_screen);
    b.end_game_screen = false;
    b.update_duration();
    let at_win = b.duration;
    assert_eq!(at_win, b.game_end.unwrap() - b.game_start.unwrap());
    b.end_game_screen = true;
    wait_a_little();
    b.update_duration();
    assert_eq!(b.duration, at_win);
}

#[test]
fn update_crossouts_twice_is_once() {
    let solution = vec![vec![true, true, false, true], vec![true, false, true, true]];
    let mut b = NonogramBoard::with_solution([2, 4], &solution);
    b.set([0, 0], Cell::Filled);
    b.set([1, 3], Cell::Filled);
    let goal = b.goal_nums.clone();
    let current = b.current_nums.clone();
    b.update_crossouts();
    assert_eq!(b.goal_nums, goal);
    assert_eq!(b.current_nums, current);
}
