use graph_engine::adjacency::intern;
use graph_engine::sequences::{filled, position_in, reversed, tail_from};

#[test]
fn reversed_turns_the_items_round() {
    assert_eq!(reversed(&vec![1, 2, 3]), vec![3, 2, 1]);
    assert_eq!(reversed(&vec![]), Vec::<usize>::new());
}

#[test]
fn filled_repeats_the_value() {
    assert_eq!(filled(3, false), vec![false, false, false]);
    assert_eq!(filled(0, 7usize), Vec::<usize>::new());
}

#[test]
fn position_in_finds_the_first_occurrence() {
    assert_eq!(position_in(&vec![4, 5, 4], 4), Some(0));
    assert_eq!(position_in(&vec![4, 5, 4], 5), Some(1));
    assert_eq!(position_in(&vec![4, 5, 4], 6), None);
}

#[test]
fn tail_from_keeps_what_follows() {
    assert_eq!(tail_from(&vec![1, 2, 3], 1), vec![2, 3]);
    assert_eq!(tail_from(&vec![1, 2, 3], 3), Vec::<usize>::new());
    assert_eq!(tail_from(&vec![1, 2, 3], 0), vec![1, 2, 3]);
}

#[test]
fn intern_takes_in_new_names_only() {
    let mut names = vec!["A".to_string()];
    assert_eq!(intern(&mut names, &"B".to_string()), 1);
    assert_eq!(intern(&mut names, &"A".to_string()), 0);
    assert_eq!(intern(&mut names, &"B".to_string()), 1);
    assert_eq!(names, vec!["A", "B"]);
}
