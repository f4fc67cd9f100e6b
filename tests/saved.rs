use nonogram::{Cell, LoadError, NonogramBoard, SavedBoard};
use std::time::Duration;

fn played_board() -> NonogramBoard {
    let solution = vec![vec![true, true, false], vec![false, true, true]];
    let mut b = NonogramBoard::with_solution([2, 3], &solution);
    b.set([0, 0], Cell::Filled);
    b.set([1, 2], Cell::Marked);
    b.set([0, 1], Cell::Filled);
    b
}

#[test]
fn snapshot_round_trip() {
    let b = played_board();
    let s = b.to_saved();
    assert_eq!(s.dimensions, [2, 3]);
    assert_eq!(s.data, vec![vec![1, 1, 0], vec![0, 0, 2]]);
    assert_eq!(s.goal_nums, b.goal_nums);
    assert_eq!(s.count_black, 2);
    assert_eq!(s.goal_black, 4);
    let r = NonogramBoard::from_saved(s).unwrap();
    assert_eq!(r.data, b.data);
    assert_eq!(r.goal_nums, b.goal_nums);
    assert_eq!(r.current_nums, b.current_nums);
    assert_eq!(r.nums_per, b.nums_per);
    assert_eq!(r.count_black, 2);
    assert_eq!(r.goal_black, 4);
    assert!(r.game_start.is_some());
    assert!(r.game_end.is_none());
    assert!(!r.end_game_screen);
}

#[test]
fn snapshot_sets_the_clock_back() {
    let mut s = played_board().to_saved();
    s.duration = Duration::from_secs(3);
    let r = NonogramBoard::from_saved(s).unwrap();
    let elapsed = r.game_start.unwrap().elapsed();
    assert!(elapsed >= Duration::from_secs(3));
    assert!(elapsed < Duration::from_secs(60));
    assert_eq!(r.duration, Duration::from_secs(3));
}

#[test]
fn snapshot_bad_dimensions() {
    let mut s = played_board().to_saved();
    s.dimensions = [0, 3];
    assert_eq!(NonogramBoard::from_saved(s).err(), Some(LoadError::Dimensions));
    let mut s = played_board().to_saved();
    s.dimensions = [2, 128];
    assert_eq!(NonogramBoard::from_saved(s).err(), Some(LoadError::Dimensions));
}

#[test]
fn snapshot_bad_next_dimensions() {
    let mut s = played_board().to_saved();
    s.next_dimensions = [5, 0];
    assert_eq!(NonogramBoard::from_saved(s).err(), Some(LoadError::NextDimensions));
}

#[test]
fn snapshot_bad_cells() {
    let mut s = played_board().to_saved();
    s.data[1][0] = 3;
    assert_eq!(NonogramBoard::from_saved(s).err(), Some(LoadError::Cells));
    let mut s = played_board().to_saved();
    s.data[1].pop();
    assert_eq!(NonogramBoard::from_saved(s).err(), Some(LoadError::Cells));
    let mut s = played_board().to_saved();
    s.data.push(vec![0, 0, 0]);
    assert_eq!(NonogramBoard::from_saved(s).err(), Some(LoadError::Cells));
}

#[test]
fn snapshot_bad_goal_hints() {
    let mut s = played_board().to_saved();
    s.goal_nums[1].pop();
    assert_eq!(NonogramBoard::from_saved(s).err(), Some(LoadError::GoalHints));
    let mut s = played_board().to_saved();
    s.goal_nums[0][1].push(0);
    assert_eq!(NonogramBoard::from_saved(s).err(), Some(LoadError::GoalHints));
    let mut s = played_board().to_saved();
    s.goal_nums[0][0][0] = -128;
    assert_eq!(NonogramBoard::from_saved(s).err(), Some(LoadError::GoalHints));
    let mut s = played_board().to_saved();
    s.goal_nums.push(vec![]);
    assert_eq!(NonogramBoard::from_saved(s).err(), Some(LoadError::GoalHints));
}

#[test]
fn snapshot_bad_filled_count() {
    let mut s = played_board().to_saved();
    s.count_black = 3;
    assert_eq!(NonogramBoard::from_saved(s).err(), Some(LoadError::FilledCount));
}

#[test]
fn snapshot_bad_duration() {
    let mut s = played_board().to_saved();
    s.duration = Duration::MAX;
    assert_eq!(NonogramBoard::from_saved(s).err(), Some(LoadError::Duration));
}

#[test]
fn snapshot_first_failed_check_wins() {
    let mut s = played_board().to_saved();
    s.count_black = 9;
    s.data[0][0] = 7;
    assert_eq!(NonogramBoard::from_saved(s).err(), Some(LoadError::Cells));
}

#[test]
fn resumed_game_plays_on() {
    let s = played_board().to_saved();
    let mut r = NonogramBoard::from_saved(s).unwrap();
    // Goal columns: [2, 0] and [2, 0]; rows: [1], [2], [1].
    r.set([1, 2], Cell::Marked);
    r.set([1, 1], Cell::Filled);
    assert!(!r.check_win());
    r.set([1, 2], Cell::Filled);
    assert!(r.check_win());
    assert!(r.end_game_screen);
    assert!(r.game_end.is_some());
}

#[test]
fn won_snapshot_resumes_with_an_end_stamp() {
    let mut s = played_board().to_saved();
    s.end_game_screen = true;
    s.duration = Duration::from_secs(2);
    let mut r = NonogramBoard::from_saved(s).unwrap();
    assert!(r.end_game_screen);
    let end = r.game_end.expect("a won game carries its end time");
    assert_eq!(end - r.game_start.unwrap(), Duration::from_secs(2));
    r.update_duration();
    assert_eq!(r.duration, Duration::from_secs(2));
    r.set([1, 0], Cell::Filled);
    assert!(r.end_game_screen);
    assert_eq!(r.game_end, Some(end));
}
