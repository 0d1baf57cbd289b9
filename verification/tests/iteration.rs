use combinatorial::{iterable_to_sorted_set, Combinations, CombinationsWithReplacement};

fn drain<T: Ord + Clone>(combos: &mut Combinations<T>) -> Vec<Vec<T>> {
    let mut out = Vec::new();
    while let Some(c) = combos.next() {
        out.push(c);
    }
    out
}

fn drain_with_replacement<T: Ord + Clone>(combos: &mut CombinationsWithReplacement<T>) -> Vec<Vec<T>> {
    let mut out = Vec::new();
    while !combos.done {
        if let Some(c) = combos.next() {
            out.push(c);
        }
    }
    out
}

#[test]
fn pairs_of_three_chars_in_order() {
    let mut abc_tuples = Combinations::of_size(vec!['a', 'b', 'c'], 2);
    assert_eq!(abc_tuples.next(), Some(vec!['a', 'b']));
    assert_eq!(abc_tuples.next(), Some(vec!['a', 'c']));
    assert_eq!(abc_tuples.next(), Some(vec!['b', 'c']));
    assert_eq!(abc_tuples.next(), None);
}

#[test]
fn all_subsets_of_zero_and_one() {
    let mut combos = Combinations::all((0..2).collect());
    assert_eq!(
        drain(&mut combos),
        vec![Vec::new(), vec![0], vec![1], vec![0, 1]]
    );
}

#[test]
fn all_subsets_of_two_words_joined() {
    let mut combos = Combinations::all(vec!["hello", "world"]);
    let joined: Vec<String> = drain(&mut combos).iter().map(|v| v.join(" ")).collect();
    assert_eq!(joined, vec!["", "hello", "world", "hello world"]);
}

#[test]
fn all_subsets_of_nothing_is_one_empty_set() {
    let mut combos = Combinations::all((1..1).collect::<Vec<i32>>());
    assert_eq!(combos.next(), Some(Vec::new()));
    assert_eq!(combos.next(), None);
}

#[test]
fn of_size_examples() {
    let mut combos = Combinations::of_size((1..4).collect(), 2);
    assert_eq!(combos.next(), Some(vec![1, 2]));
    assert_eq!(combos.next(), Some(vec![1, 3]));
    assert_eq!(combos.next(), Some(vec![2, 3]));
    assert_eq!(combos.next(), None);
    let mut combos = Combinations::of_size(('a'..'z').collect(), 0);
    assert_eq!(combos.next(), Some(Vec::new()));
    assert_eq!(combos.next(), None);
    let mut combos = Combinations::of_size(vec!["foo", "bar", "baz"], 4);
    assert_eq!(combos.next(), None);
}

#[test]
fn finished_iterator_stays_finished() {
    let mut combos = Combinations::of_size(vec![3, 1, 2], 3);
    assert_eq!(combos.next(), Some(vec![1, 2, 3]));
    for _ in 0..5 {
        assert_eq!(combos.next(), None);
        assert!(combos.done);
        assert_eq!(combos.positions, vec![0, 1, 2]);
    }
    let mut combos = CombinationsWithReplacement::of_size(vec![7], 1);
    assert_eq!(combos.next(), Some(vec![7]));
    assert_eq!(combos.next(), None);
    assert_eq!(combos.next(), None);
    assert!(combos.done);
}

#[test]
fn three_of_six_every_subset_once_in_order() {
    let mut combos = Combinations::of_size((0..6).collect::<Vec<u32>>(), 3);
    let all = drain(&mut combos);
    assert_eq!(all.len(), 20);
    for w in all.windows(2) {
        assert!(w[0] < w[1]);
    }
    for c in &all {
        assert!(c[0] < c[1] && c[1] < c[2]);
    }
    assert_eq!(all[0], vec![0, 1, 2]);
    assert_eq!(all[19], vec![3, 4, 5]);
}

#[test]
fn all_sizes_go_up_one_at_a_time() {
    let mut combos = Combinations::all(vec![10, 20, 30]);
    let all = drain(&mut combos);
    let sizes: Vec<usize> = all.iter().map(|c| c.len()).collect();
    assert_eq!(sizes, vec![0, 1, 1, 1, 2, 2, 2, 3]);
    assert_eq!(all[4], vec![10, 20]);
    assert!(combos.done);
}

#[test]
fn with_replacement_pairs_of_three_chars() {
    let mut abc_tuples = CombinationsWithReplacement::of_size(vec!['a', 'b', 'c'], 2);
    assert_eq!(abc_tuples.next(), Some(vec!['a', 'a']));
    assert_eq!(abc_tuples.next(), Some(vec!['a', 'b']));
    assert_eq!(abc_tuples.next(), Some(vec!['a', 'c']));
    assert_eq!(abc_tuples.next(), Some(vec!['b', 'b']));
    assert_eq!(abc_tuples.next(), Some(vec!['b', 'c']));
    assert_eq!(abc_tuples.next(), Some(vec!['c', 'c']));
    assert_eq!(abc_tuples.next(), None);
}

#[test]
fn with_replacement_all_of_zero_and_one() {
    let mut ones_and_zeros = CombinationsWithReplacement::all((0..2).collect());
    assert_eq!(ones_and_zeros.next(), Some(Vec::new()));
    assert_eq!(ones_and_zeros.next(), Some(vec![0]));
    assert_eq!(ones_and_zeros.next(), Some(vec![1]));
    assert_eq!(ones_and_zeros.next(), Some(vec![0, 0]));
    assert_eq!(ones_and_zeros.next(), Some(vec![0, 1]));
    assert_eq!(ones_and_zeros.next(), Some(vec![1, 1]));
    assert_eq!(ones_and_zeros.next(), None);
}

#[test]
fn with_replacement_two_words_joined() {
    let mut combos = CombinationsWithReplacement::all(vec!["hello", "world"]);
    let joined: Vec<String> = drain_with_replacement(&mut combos)
        .iter()
        .map(|v| v.join(" "))
        .collect();
    assert_eq!(
        joined,
        vec!["", "hello", "world", "hello hello", "hello world", "world world"]
    );
}

#[test]
fn with_replacement_of_size_examples() {
    let mut combos = CombinationsWithReplacement::all((1..1).collect::<Vec<i32>>());
    assert_eq!(combos.next(), Some(Vec::new()));
    assert_eq!(combos.next(), None);
    let mut combos = CombinationsWithReplacement::of_size((1..4).collect(), 2);
    assert_eq!(combos.next(), Some(vec![1, 1]));
    assert_eq!(combos.next(), Some(vec![1, 2]));
    assert_eq!(combos.next(), Some(vec![1, 3]));
    assert_eq!(combos.next(), Some(vec![2, 2]));
    assert_eq!(combos.next(), Some(vec![2, 3]));
    assert_eq!(combos.next(), Some(vec![3, 3]));
    assert_eq!(combos.next(), None);
    let mut combos = CombinationsWithReplacement::of_size(('a'..'z').collect(), 0);
    assert_eq!(combos.next(), Some(Vec::new()));
    assert_eq!(combos.next(), None);
    let mut combos = CombinationsWithReplacement::of_size(vec!["foo", "bar", "baz"], 4);
    assert_eq!(combos.next(), None);
}

#[test]
fn with_replacement_larger_than_elements_yields_nothing() {
    let mut combos = CombinationsWithReplacement::of_size(vec![1, 2], 3);
    let mut calls = 0;
    while !combos.done {
        assert_eq!(combos.next(), None);
        calls += 1;
    }
    // the positions walk through all four multisets of size three before finishing
    assert_eq!(calls, 4);
    assert_eq!(combos.positions, vec![1, 1, 1]);
}

#[test]
fn with_replacement_three_of_three_in_order() {
    let mut combos = CombinationsWithReplacement::of_size(vec![2, 0, 1], 3);
    let all = drain_with_replacement(&mut combos);
    assert_eq!(all.len(), 10);
    for w in all.windows(2) {
        assert!(w[0] < w[1]);
    }
    for c in &all {
        assert!(c[0] <= c[1] && c[1] <= c[2]);
    }
}

#[test]
fn current_combination_does_not_advance() {
    let mut combos = Combinations::of_size(vec![5, 6, 7], 2);
    assert_eq!(combos.get_current_combination(), Some(vec![5, 6]));
    assert_eq!(combos.get_current_combination(), Some(vec![5, 6]));
    assert_eq!(combos.positions, vec![0, 1]);
    let mut combos = Combinations::of_size(vec![5, 6], 3);
    assert_eq!(combos.get_current_combination(), None);
}

#[test]
fn next_set_size_stops_at_element_count() {
    let mut combos = CombinationsWithReplacement::all(vec!['x', 'y']);
    assert!(combos.move_to_next_set_size());
    assert_eq!(combos.positions, vec![0]);
    combos.positions[0] = 1;
    assert!(combos.move_to_next_set_size());
    assert_eq!(combos.positions, vec![0, 0]);
    assert!(!combos.move_to_next_set_size());
    assert_eq!(combos.positions, vec![0, 0]);
}

#[test]
fn next_position_gives_lexicographic_successor() {
    let mut combos = Combinations::of_size((0..5).collect::<Vec<u8>>(), 3);
    combos.positions = vec![0, 3, 4];
    assert!(combos.move_to_next_position());
    assert_eq!(combos.positions, vec![1, 2, 3]);
    combos.positions = vec![2, 3, 4];
    assert!(!combos.move_to_next_position());
    assert_eq!(combos.positions, vec![2, 3, 4]);
    let mut combos = CombinationsWithReplacement::of_size((0..5).collect::<Vec<u8>>(), 3);
    combos.positions = vec![1, 4, 4];
    assert!(combos.move_to_next_position());
    assert_eq!(combos.positions, vec![2, 2, 2]);
}

#[test]
fn sorted_set_of_words_and_duplicates() {
    assert_eq!(
        iterable_to_sorted_set(vec!["pear", "apple", "pear", "fig"]),
        vec!["apple", "fig", "pear"]
    );
    assert_eq!(iterable_to_sorted_set(Vec::<i8>::new()), Vec::<i8>::new());
    assert_eq!(iterable_to_sorted_set(vec![-3i64, 9, -3, 0]), vec![-3, 0, 9]);
}

#[test]
fn next_position_steps_any_increasing_positions() {
    let mut combos = Combinations::of_size(vec![1, 2, 3, 4], 2);
    combos.positions = vec![2, 5];
    assert!(combos.move_to_next_position());
    assert_eq!(combos.positions, vec![3, 4]);
    let mut combos = Combinations::of_size(Vec::<i32>::new(), 2);
    combos.positions = vec![4, 9];
    assert!(!combos.move_to_next_position());
    assert_eq!(combos.positions, vec![4, 9]);
}

#[test]
fn next_position_with_replacement_steps_any_positions() {
    let mut combos = CombinationsWithReplacement::of_size(vec![1, 2, 3, 4], 2);
    combos.positions = vec![3, 0];
    assert!(combos.move_to_next_position());
    assert_eq!(combos.positions, vec![3, 1]);
    combos.positions = vec![0, 7, 3];
    assert!(combos.move_to_next_position());
    assert_eq!(combos.positions, vec![1, 1, 1]);
    combos.positions = vec![9, 3];
    assert!(!combos.move_to_next_position());
    assert_eq!(combos.positions, vec![9, 3]);
}

#[test]
fn sorted_set_depends_only_on_the_items() {
    let a = iterable_to_sorted_set(vec![5, 1, 5, 3, 1]);
    let b = iterable_to_sorted_set(vec![3, 3, 1, 5]);
    assert_eq!(a, b);
    assert_eq!(iterable_to_sorted_set(a.clone()), a);
}

#[test]
fn counts_match_binomial_coefficients() {
    let mut combos = Combinations::of_size((0..5).collect::<Vec<u8>>(), 2);
    let mut steps = 0;
    while combos.move_to_next_position() {
        steps += 1;
    }
    assert_eq!(steps, 9);
    let mut combos = Combinations::all((0..4).collect::<Vec<u8>>());
    assert_eq!(drain(&mut combos).len(), 16);
    let mut combos = CombinationsWithReplacement::of_size(vec!['p', 'q', 'r'], 2);
    assert_eq!(drain_with_replacement(&mut combos).len(), 6);
    let mut combos = CombinationsWithReplacement::all(vec!['p', 'q', 'r']);
    assert_eq!(drain_with_replacement(&mut combos).len(), 1 + 3 + 6 + 10);
    let mut combos = CombinationsWithReplacement::of_size(vec![1, 2], 3);
    let mut steps = 0;
    while combos.move_to_next_position() {
        steps += 1;
    }
    assert_eq!(steps, 3);
}
