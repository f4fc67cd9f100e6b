use nonogram::common::{dimensions_index, move_selected, step_dimensions, Directions, DIMENSIONS_CHOICES};
use nonogram::crossout::{count_nonzero_hints, crossout_hints};
use nonogram::grid::{hint_tables_match, lines_match};
use nonogram::hints::line_hints;
use nonogram::ButtonInteraction;

fn line(s: &str) -> Vec<bool> {
    s.chars().map(|c| c == '#').collect()
}

#[test]
fn line_hints_examples() {
    assert_eq!(line_hints(&line("##.#")), vec![2, 1]);
    assert_eq!(line_hints(&line("")), Vec::<i8>::new());
    assert_eq!(line_hints(&line(".....")), vec![0, 0, 0]);
    assert_eq!(line_hints(&line("#####")), vec![5, 0, 0]);
    assert_eq!(line_hints(&line("#.#.#")), vec![1, 1, 1]);
    assert_eq!(line_hints(&line(".##..###.")), vec![2, 3, 0, 0, 0]);
    assert_eq!(line_hints(&line("#")), vec![1]);
}

#[test]
fn line_hints_fit_in_their_line() {
    // Every line of up to ten cells: the runs plus one gap between each two fit.
    for n in 0..=10usize {
        for bits in 0..(1u32 << n) {
            let l: Vec<bool> = (0..n).map(|i| bits & (1 << i) != 0).collect();
            let h = line_hints(&l);
            assert_eq!(h.len(), (n + 1) / 2);
            let runs: Vec<i64> = h.iter().filter(|x| **x != 0).map(|x| *x as i64).collect();
            if !runs.is_empty() {
                let total: i64 = runs.iter().sum::<i64>() + runs.len() as i64 - 1;
                assert!(total <= n as i64);
            }
            let filled = l.iter().filter(|x| **x).count() as i64;
            assert_eq!(runs.iter().sum::<i64>(), filled);
        }
    }
}

#[test]
fn line_hints_longest_line() {
    let all = vec![true; 127];
    let h = line_hints(&all);
    assert_eq!(h.len(), 64);
    assert_eq!(h[0], 127);
    assert!(h[1..].iter().all(|x| *x == 0));
}

#[test]
fn crossout_first_run_matched() {
    assert_eq!(crossout_hints(&vec![2, 1], &vec![2, 0]), vec![-2, 1]);
}

#[test]
fn crossout_keeps_order_and_consumes_runs() {
    // Goal [1, 1]: one current run of 1 matches the first goal slot only.
    assert_eq!(crossout_hints(&vec![1, 1, 0], &vec![1, 0, 0]), vec![-1, 1, 0]);
    assert_eq!(crossout_hints(&vec![1, 1, 0], &vec![1, 1, 0]), vec![-1, -1, 0]);
    // Goal [3, 1] against current [1, 3]: the 3 matches the second current run,
    // and nothing is left for the 1 after it.
    assert_eq!(crossout_hints(&vec![3, 1], &vec![1, 3]), vec![-3, 1]);
    // A hint that finds no current run left is not crossed out, whatever it was.
    assert_eq!(crossout_hints(&vec![2, -1], &vec![1, 2]), vec![-2, 1]);
    assert_eq!(crossout_hints(&vec![1, -2], &vec![2, 1]), vec![-1, 2]);
}

#[test]
fn crossout_withheld_when_current_has_more_runs() {
    assert_eq!(crossout_hints(&vec![2, 0, 0], &vec![2, 1, 1]), vec![2, 0, 0]);
    assert_eq!(crossout_hints(&vec![-2, 0, 0], &vec![2, 1, 0]), vec![2, 0, 0]);
}

#[test]
fn crossout_clears_stale_signs() {
    assert_eq!(crossout_hints(&vec![-2, -1], &vec![0, 0]), vec![2, 1]);
    assert_eq!(crossout_hints(&vec![-3, 0], &vec![1, 0]), vec![3, 0]);
}

#[test]
fn crossout_of_empty_lines() {
    assert_eq!(crossout_hints(&vec![], &vec![]), Vec::<i8>::new());
    assert_eq!(crossout_hints(&vec![0, 0], &vec![0, 0]), vec![0, 0]);
}

#[test]
fn nonzero_counts() {
    assert_eq!(count_nonzero_hints(&vec![2, -1, 0]), 2);
    assert_eq!(count_nonzero_hints(&vec![0, 0]), 0);
    assert_eq!(count_nonzero_hints(&vec![]), 0);
}

#[test]
fn match_ignores_crossout_signs() {
    assert!(lines_match(&vec![-2, 1], &vec![2, 1]));
    assert!(!lines_match(&vec![-2, 1], &vec![2, 0]));
    assert!(lines_match(&vec![-128], &vec![-128]));
    let goal = vec![vec![vec![-1], vec![1]], vec![vec![1], vec![-1]]];
    let cur = vec![vec![vec![1], vec![1]], vec![vec![1], vec![1]]];
    assert!(hint_tables_match(&goal, &cur));
    let off = vec![vec![vec![1], vec![1]], vec![vec![1], vec![2]]];
    assert!(!hint_tables_match(&goal, &off));
}

#[test]
fn dimension_steps() {
    assert_eq!(dimensions_index([15, 10]), Some(3));
    assert_eq!(dimensions_index([7, 7]), None);
    assert_eq!(step_dimensions([15, 10], true), [15, 15]);
    assert_eq!(step_dimensions([15, 10], false), [10, 10]);
    assert_eq!(step_dimensions([5, 5], false), [5, 5]);
    assert_eq!(step_dimensions([30, 30], true), [30, 30]);
    assert_eq!(step_dimensions(DIMENSIONS_CHOICES[9], true), [30, 30]);
}

#[test]
fn button_states_compare() {
    let b = ButtonInteraction::Hover;
    assert_eq!(b, ButtonInteraction::Hover);
    assert_ne!(b, ButtonInteraction::Idle);
    assert_ne!(ButtonInteraction::Select, ButtonInteraction::Idle);
}

#[test]
fn selection_moves_and_wraps() {
    let dims = [5, 3];
    assert_eq!(move_selected(dims, [2, 1], Directions::Up, false), [2, 0]);
    assert_eq!(move_selected(dims, [2, 1], Directions::Down, false), [2, 2]);
    assert_eq!(move_selected(dims, [2, 1], Directions::Left, false), [1, 1]);
    assert_eq!(move_selected(dims, [2, 1], Directions::Right, false), [3, 1]);
    assert_eq!(move_selected(dims, [2, 0], Directions::Up, false), [2, 0]);
    assert_eq!(move_selected(dims, [2, 0], Directions::Up, true), [2, 2]);
    assert_eq!(move_selected(dims, [4, 1], Directions::Right, false), [4, 1]);
    assert_eq!(move_selected(dims, [4, 1], Directions::Right, true), [0, 1]);
    assert_eq!(move_selected(dims, [0, 2], Directions::Left, true), [4, 2]);
    assert_eq!(move_selected(dims, [0, 2], Directions::Down, true), [0, 0]);
}

#[test]
fn crossout_twice_changes_nothing() {
    let cases: [(Vec<i8>, Vec<i8>); 6] = [
        (vec![2, 1], vec![2, 0]),
        (vec![3, 1], vec![1, 3]),
        (vec![-2, 0, 0], vec![2, 1, 0]),
        (vec![2, -1], vec![1, 2]),
        (vec![1, -2], vec![2, 1]),
        (vec![1, 1, 0], vec![1, 0, 0]),
    ];
    for (goal, cur) in cases.iter() {
        let once = crossout_hints(goal, cur);
        assert_eq!(crossout_hints(&once, cur), once);
    }
}
