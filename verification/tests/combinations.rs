use combinatorial::{iterable_to_sorted_set, Combinations, CombinationsWithReplacement};
use std::collections::BTreeSet;

#[test]
fn test_combinations_iterable_to_sorted_set() {
    assert_eq!(vec![1, 2, 3, 4], iterable_to_sorted_set(vec![1, 2, 3, 4]));
    assert_eq!(vec![1, 2, 3, 4], iterable_to_sorted_set((1..5).collect()));
    assert_eq!(
        vec![1, 2, 3, 4].iter().collect::<Vec<&usize>>(),
        iterable_to_sorted_set(vec![2, 3, 1, 4].iter().collect())
    );
    assert_eq!(
        vec![&1, &2, &3, &4],
        iterable_to_sorted_set((&vec![2, 1, 3, 1, 4, 2, 2, 3]).into_iter().collect())
    );
}

#[test]
fn test_combinations_all() {
    let combos = Combinations::all(vec![2, 4, 3, 1, 2, 2, 1]);
    assert_eq!(combos.elements, vec![1, 2, 3, 4]);
    assert_eq!(combos.positions, Vec::new());
    assert_eq!(combos.all_sizes, true);
    assert_eq!(combos.done, false);
}

#[test]
fn test_combinations_w_rep_all() {
    let combos = CombinationsWithReplacement::all(vec![2, 4, 3, 1, 2, 2, 1]);
    assert_eq!(combos.elements, vec![1, 2, 3, 4]);
    assert_eq!(combos.positions, Vec::new());
    assert_eq!(combos.all_sizes, true);
    assert_eq!(combos.done, false);
}

#[test]
fn test_combinations_of_size() {
    let combos = Combinations::of_size(vec![2, 4, 3, 1, 2, 2, 1], 3);
    assert_eq!(combos.elements, vec![1, 2, 3, 4]);
    assert_eq!(combos.positions, vec![0, 1, 2]);
    assert_eq!(combos.all_sizes, false);
    assert_eq!(combos.done, false);
}

#[test]
fn test_combinations_w_rep_of_size() {
    let combos = CombinationsWithReplacement::of_size(vec![2, 4, 3, 1, 2, 2, 1], 3);
    assert_eq!(combos.elements, vec![1, 2, 3, 4]);
    assert_eq!(combos.positions, vec![0; 3]);
    assert_eq!(combos.all_sizes, false);
    assert_eq!(combos.done, false);
}

#[test]
fn test_combinations_move_to_next_set_size() {
    let mut combos = Combinations::all(Vec::<i64>::new());
    assert_eq!(combos.positions, Vec::new());
    assert_eq!(combos.move_to_next_set_size(), false);
    let mut combos = Combinations::all(vec![1]);
    assert_eq!(combos.positions, Vec::new());
    assert_eq!(combos.move_to_next_set_size(), true);
    assert_eq!(combos.positions, vec![0]);
    assert_eq!(combos.move_to_next_set_size(), false);
    let mut combos = Combinations::all(vec![1, 2, 3, 4]);
    assert_eq!(combos.positions, Vec::new());
    assert_eq!(combos.move_to_next_set_size(), true);
    assert_eq!(combos.positions, vec![0]);
    combos.positions[0] = 4;
    assert_eq!(combos.move_to_next_set_size(), true);
    assert_eq!(combos.positions, vec![0, 1]);
    combos.positions[0] = 5;
    combos.positions[1] = 2;
    assert_eq!(combos.move_to_next_set_size(), true);
    assert_eq!(combos.positions, vec![0, 1, 2]);
    combos.positions[0] = 3;
    combos.positions[1] = 7;
    combos.positions[2] = 1;
    assert_eq!(combos.move_to_next_set_size(), true);
    assert_eq!(combos.positions, vec![0, 1, 2, 3]);
    combos.positions[0] = 0;
    combos.positions[1] = 0;
    combos.positions[2] = 0;
    combos.positions[2] = 0;
    assert_eq!(combos.move_to_next_set_size(), false);
}

#[test]
fn test_combinations_w_rep_move_to_next_set_size() {
    let mut combos = CombinationsWithReplacement::all(Vec::<i64>::new());
    assert_eq!(combos.positions, Vec::new());
    assert_eq!(combos.move_to_next_set_size(), false);
    let mut combos = CombinationsWithReplacement::all(vec![1]);
    assert_eq!(combos.positions, Vec::new());
    assert_eq!(combos.move_to_next_set_size(), true);
    assert_eq!(combos.positions, vec![0]);
    assert_eq!(combos.move_to_next_set_size(), false);
    let mut combos = CombinationsWithReplacement::all(vec![1, 2, 3, 4]);
    assert_eq!(combos.positions, Vec::new());
    assert_eq!(combos.move_to_next_set_size(), true);
    assert_eq!(combos.positions, vec![0]);
    combos.positions[0] = 4;
    assert_eq!(combos.move_to_next_set_size(), true);
    assert_eq!(combos.positions, vec![0; 2]);
    combos.positions[0] = 5;
    combos.positions[1] = 2;
    assert_eq!(combos.move_to_next_set_size(), true);
    assert_eq!(combos.positions, vec![0; 3]);
    combos.positions[0] = 3;
    combos.positions[1] = 7;
    combos.positions[2] = 1;
    assert_eq!(combos.move_to_next_set_size(), true);
    assert_eq!(combos.positions, vec![0; 4]);
    combos.positions[0] = 0;
    combos.positions[1] = 0;
    combos.positions[2] = 0;
    combos.positions[2] = 0;
    assert_eq!(combos.move_to_next_set_size(), false);
}

#[test]
fn test_combinations_move_to_next_position() {
    let mut combos = Combinations::of_size(Vec::<i64>::new(), 1);
    assert_eq!(combos.positions, vec![0]);
    assert_eq!(combos.move_to_next_position(), false);
    let mut combos = Combinations::of_size(vec![1], 1);
    assert_eq!(combos.positions, vec![0]);
    assert_eq!(combos.move_to_next_position(), false);
    let mut combos = Combinations::of_size(BTreeSet::from([1, 2, 3, 4]).into_iter().collect(), 2);
    assert_eq!(combos.positions, vec![0, 1]);
    assert_eq!(combos.move_to_next_position(), true);
    assert_eq!(combos.positions, vec![0, 2]);
    assert_eq!(combos.move_to_next_position(), true);
    assert_eq!(combos.positions, vec![0, 3]);
    assert_eq!(combos.move_to_next_position(), true);
    assert_eq!(combos.positions, vec![1, 2]);
    assert_eq!(combos.move_to_next_position(), true);
    assert_eq!(combos.positions, vec![1, 3]);
    assert_eq!(combos.move_to_next_position(), true);
    assert_eq!(combos.positions, vec![2, 3]);
    assert_eq!(combos.move_to_next_position(), false);
    let mut combos = Combinations::of_size("abcd".chars().collect(), 3);
    assert_eq!(combos.positions, vec![0, 1, 2]);
    assert_eq!(combos.move_to_next_position(), true);
    assert_eq!(combos.positions, vec![0, 1, 3]);
    assert_eq!(combos.move_to_next_position(), true);
    assert_eq!(combos.positions, vec![0, 2, 3]);
    assert_eq!(combos.move_to_next_position(), true);
    assert_eq!(combos.positions, vec![1, 2, 3]);
    assert_eq!(combos.move_to_next_position(), false);
}

#[test]
fn test_combinations_w_rep_move_to_next_position() {
    let mut combos = CombinationsWithReplacement::of_size(Vec::<i64>::new(), 1);
    assert_eq!(combos.positions, vec![0]);
    assert_eq!(combos.move_to_next_position(), false);
    let mut combos = CombinationsWithReplacement::of_size(vec![1], 1);
    assert_eq!(combos.positions, vec![0]);
    assert_eq!(combos.move_to_next_position(), false);
    let mut combos = CombinationsWithReplacement::of_size(BTreeSet::from([1, 2, 3, 4]).into_iter().collect(), 2);
    assert_eq!(combos.positions, vec![0, 0]);
    assert_eq!(combos.move_to_next_position(), true);
    assert_eq!(combos.positions, vec![0, 1]);
    assert_eq!(combos.move_to_next_position(), true);
    assert_eq!(combos.positions, vec![0, 2]);
    assert_eq!(combos.move_to_next_position(), true);
    assert_eq!(combos.positions, vec![0, 3]);
    assert_eq!(combos.move_to_next_position(), true);
    assert_eq!(combos.positions, vec![1, 1]);
    assert_eq!(combos.move_to_next_position(), true);
    assert_eq!(combos.positions, vec![1, 2]);
    assert_eq!(combos.move_to_next_position(), true);
    assert_eq!(combos.positions, vec![1, 3]);
    assert_eq!(combos.move_to_next_position(), true);
    assert_eq!(combos.positions, vec![2, 2]);
    assert_eq!(combos.move_to_next_position(), true);
    assert_eq!(combos.positions, vec![2, 3]);
    assert_eq!(combos.move_to_next_position(), true);
    assert_eq!(combos.positions, vec![3, 3]);
    assert_eq!(combos.move_to_next_position(), false);
    let mut combos = CombinationsWithReplacement::of_size("abcd".chars().collect(), 3);
    assert_eq!(combos.positions, vec![0, 0, 0]);
    assert_eq!(combos.move_to_next_position(), true);
    assert_eq!(combos.positions, vec![0, 0, 1]);
    assert_eq!(combos.move_to_next_position(), true);
    assert_eq!(combos.positions, vec![0, 0, 2]);
    assert_eq!(combos.move_to_next_position(), true);
    assert_eq!(combos.positions, vec![0, 0, 3]);
    assert_eq!(combos.move_to_next_position(), true);
    assert_eq!(combos.positions, vec![0, 1, 1]);
    assert_eq!(combos.move_to_next_position(), true);
    assert_eq!(combos.positions, vec![0, 1, 2]);
    assert_eq!(combos.move_to_next_position(), true);
    assert_eq!(combos.positions, vec![0, 1, 3]);
    assert_eq!(combos.move_to_next_position(), true);
    assert_eq!(combos.positions, vec![0, 2, 2]);
    assert_eq!(combos.move_to_next_position(), true);
    assert_eq!(combos.positions, vec![0, 2, 3]);
    assert_eq!(combos.move_to_next_position(), true);
    assert_eq!(combos.positions, vec![0, 3, 3]);
    assert_eq!(combos.move_to_next_position(), true);
    assert_eq!(combos.positions, vec![1, 1, 1]);
    assert_eq!(combos.move_to_next_position(), true);
    assert_eq!(combos.positions, vec![1, 1, 2]);
    assert_eq!(combos.move_to_next_position(), true);
    assert_eq!(combos.positions, vec![1, 1, 3]);
    assert_eq!(combos.move_to_next_position(), true);
    assert_eq!(combos.positions, vec![1, 2, 2]);
    assert_eq!(combos.move_to_next_position(), true);
    assert_eq!(combos.positions, vec![1, 2, 3]);
    assert_eq!(combos.move_to_next_position(), true);
    assert_eq!(combos.positions, vec![1, 3, 3]);
    assert_eq!(combos.move_to_next_position(), true);
    assert_eq!(combos.positions, vec![2, 2, 2]);
    assert_eq!(combos.move_to_next_position(), true);
    assert_eq!(combos.positions, vec![2, 2, 3]);
    assert_eq!(combos.move_to_next_position(), true);
    assert_eq!(combos.positions, vec![2, 3, 3]);
    assert_eq!(combos.move_to_next_position(), true);
    assert_eq!(combos.positions, vec![3, 3, 3]);
    assert_eq!(combos.move_to_next_position(), false);
}

#[test]
fn test_combinations_get_current_combination() {
    let mut combos = Combinations::of_size(vec![1, 1, 2, 3, 5, 8], 3);
    assert_eq!(combos.get_current_combination(), Some(vec![1, 2, 3]));
    assert_eq!(combos.move_to_next_position(), true);
    assert_eq!(combos.get_current_combination(), Some(vec![1, 2, 5]));
    assert_eq!(combos.move_to_next_position(), true);
    assert_eq!(combos.get_current_combination(), Some(vec![1, 2, 8]));
    assert_eq!(combos.move_to_next_position(), true);
    assert_eq!(combos.get_current_combination(), Some(vec![1, 3, 5]));
    assert_eq!(combos.move_to_next_position(), true);
    assert_eq!(combos.get_current_combination(), Some(vec![1, 3, 8]));
    assert_eq!(combos.move_to_next_position(), true);
    assert_eq!(combos.get_current_combination(), Some(vec![1, 5, 8]));
    assert_eq!(combos.move_to_next_position(), true);
    assert_eq!(combos.get_current_combination(), Some(vec![2, 3, 5]));
    assert_eq!(combos.move_to_next_position(), true);
    assert_eq!(combos.get_current_combination(), Some(vec![2, 3, 8]));
    assert_eq!(combos.move_to_next_position(), true);
    assert_eq!(combos.get_current_combination(), Some(vec![2, 5, 8]));
    assert_eq!(combos.move_to_next_position(), true);
    assert_eq!(combos.get_current_combination(), Some(vec![3, 5, 8]));
    assert_eq!(combos.move_to_next_position(), false);
    combos.done = true;
    assert_eq!(combos.get_current_combination(), None);
}

#[test]
fn test_combinations_w_rep_get_current_combination() {
    let mut combos = CombinationsWithReplacement::of_size(vec![1, 1, 2, 3, 5, 8], 3);
    assert_eq!(combos.get_current_combination(), Some(vec![1, 1, 1]));
    assert_eq!(combos.move_to_next_position(), true);
    assert_eq!(combos.get_current_combination(), Some(vec![1, 1, 2]));
    assert_eq!(combos.move_to_next_position(), true);
    assert_eq!(combos.get_current_combination(), Some(vec![1, 1, 3]));
    assert_eq!(combos.move_to_next_position(), true);
    assert_eq!(combos.get_current_combination(), Some(vec![1, 1, 5]));
    assert_eq!(combos.move_to_next_position(), true);
    assert_eq!(combos.get_current_combination(), Some(vec![1, 1, 8]));
    assert_eq!(combos.move_to_next_position(), true);
    assert_eq!(combos.get_current_combination(), Some(vec![1, 2, 2]));
    assert_eq!(combos.move_to_next_position(), true);
    assert_eq!(combos.get_current_combination(), Some(vec![1, 2, 3]));
    assert_eq!(combos.move_to_next_position(), true);
    assert_eq!(combos.get_current_combination(), Some(vec![1, 2, 5]));
    assert_eq!(combos.move_to_next_position(), true);
    assert_eq!(combos.get_current_combination(), Some(vec![1, 2, 8]));
    assert_eq!(combos.move_to_next_position(), true);
    assert_eq!(combos.get_current_combination(), Some(vec![1, 3, 3]));
    assert_eq!(combos.move_to_next_position(), true);
    assert_eq!(combos.get_current_combination(), Some(vec![1, 3, 5]));
    assert_eq!(combos.move_to_next_position(), true);
    assert_eq!(combos.get_current_combination(), Some(vec![1, 3, 8]));
    assert_eq!(combos.move_to_next_position(), true);
    assert_eq!(combos.get_current_combination(), Some(vec![1, 5, 5]));
    assert_eq!(combos.move_to_next_position(), true);
    assert_eq!(combos.get_current_combination(), Some(vec![1, 5, 8]));
    assert_eq!(combos.move_to_next_position(), true);
    assert_eq!(combos.get_current_combination(), Some(vec![1, 8, 8]));
    assert_eq!(combos.move_to_next_position(), true);
    assert_eq!(combos.get_current_combination(), Some(vec![2, 2, 2]));
    assert_eq!(combos.move_to_next_position(), true);
    assert_eq!(combos.get_current_combination(), Some(vec![2, 2, 3]));
    assert_eq!(combos.move_to_next_position(), true);
    assert_eq!(combos.get_current_combination(), Some(vec![2, 2, 5]));
    assert_eq!(combos.move_to_next_position(), true);
    assert_eq!(combos.get_current_combination(), Some(vec![2, 2, 8]));
    assert_eq!(combos.move_to_next_position(), true);
    assert_eq!(combos.get_current_combination(), Some(vec![2, 3, 3]));
    assert_eq!(combos.move_to_next_position(), true);
    assert_eq!(combos.get_current_combination(), Some(vec![2, 3, 5]));
    assert_eq!(combos.move_to_next_position(), true);
    assert_eq!(combos.get_current_combination(), Some(vec![2, 3, 8]));
    assert_eq!(combos.move_to_next_position(), true);
    assert_eq!(combos.get_current_combination(), Some(vec![2, 5, 5]));
    assert_eq!(combos.move_to_next_position(), true);
    assert_eq!(combos.get_current_combination(), Some(vec![2, 5, 8]));
    assert_eq!(combos.move_to_next_position(), true);
    assert_eq!(combos.get_current_combination(), Some(vec![2, 8, 8]));
    assert_eq!(combos.move_to_next_position(), true);
    assert_eq!(combos.get_current_combination(), Some(vec![3, 3, 3]));
    assert_eq!(combos.move_to_next_position(), true);
    assert_eq!(combos.get_current_combination(), Some(vec![3, 3, 5]));
    assert_eq!(combos.move_to_next_position(), true);
    assert_eq!(combos.get_current_combination(), Some(vec![3, 3, 8]));
    assert_eq!(combos.move_to_next_position(), true);
    assert_eq!(combos.get_current_combination(), Some(vec![3, 5, 5]));
    assert_eq!(combos.move_to_next_position(), true);
    assert_eq!(combos.get_current_combination(), Some(vec![3, 5, 8]));
    assert_eq!(combos.move_to_next_position(), true);
    assert_eq!(combos.get_current_combination(), Some(vec![3, 8, 8]));
    assert_eq!(combos.move_to_next_position(), true);
    assert_eq!(combos.get_current_combination(), Some(vec![5, 5, 5]));
    assert_eq!(combos.move_to_next_position(), true);
    assert_eq!(combos.get_current_combination(), Some(vec![5, 5, 8]));
    assert_eq!(combos.move_to_next_position(), true);
    assert_eq!(combos.get_current_combination(), Some(vec![5, 8, 8]));
    assert_eq!(combos.move_to_next_position(), true);
    assert_eq!(combos.get_current_combination(), Some(vec![8, 8, 8]));
    assert_eq!(combos.move_to_next_position(), false);
    combos.done = true;
    assert_eq!(combos.get_current_combination(), None);
}
