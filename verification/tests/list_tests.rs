use threadkit::list::{LinkedList, SortedList};
use threadkit::rwlock_list;
use threadkit::stepsort::{bubble_sort, SortStep, StepSort};

fn list_of(items: &[&str]) -> LinkedList {
    let mut l = LinkedList::new();
    for s in items.iter().rev() {
        l.push_front(s.to_string());
    }
    l
}

#[test]
fn new_list_is_empty() {
    let l = LinkedList::new();
    assert!(l.to_vec().is_empty());
}

#[test]
fn push_front_puts_newest_first() {
    let mut l = LinkedList::new();
    l.push_front("a".to_string());
    l.push_front("b".to_string());
    l.push_front("c".to_string());
    assert_eq!(l.to_vec(), vec!["c", "b", "a"]);
}

#[test]
fn bubble_sort_orders_strings() {
    let mut l = list_of(&["pear", "apple", "fig", "banana", "apple"]);
    l.bubble_sort();
    assert_eq!(l.to_vec(), vec!["apple", "apple", "banana", "fig", "pear"]);
}

#[test]
fn bubble_sort_on_empty_and_single() {
    let mut e = LinkedList::new();
    e.bubble_sort();
    assert!(e.to_vec().is_empty());
    let mut one = list_of(&["x"]);
    one.bubble_sort();
    assert_eq!(one.to_vec(), vec!["x"]);
}

#[test]
fn bubble_sort_uses_byte_order() {
    // Upper case sorts before lower case; a prefix sorts first; UTF-8 by bytes.
    let mut l = list_of(&["b", "B", "ab", "a", "é", "z"]);
    l.bubble_sort();
    assert_eq!(l.to_vec(), vec!["B", "a", "ab", "b", "z", "é"]);
}

#[test]
fn bubble_sort_is_idempotent() {
    let mut l = list_of(&["3", "1", "2"]);
    l.bubble_sort();
    let once = l.to_vec();
    l.bubble_sort();
    assert_eq!(l.to_vec(), once);
}

#[test]
fn one_bubble_pass_moves_the_largest_to_the_end() {
    let mut l = list_of(&["c", "a", "b"]);
    assert!(l.bubble_pass());
    assert_eq!(l.to_vec(), vec!["a", "b", "c"]);
    assert!(!l.bubble_pass());
}

#[test]
fn compare_swap_at_trades_an_out_of_order_pair() {
    let mut l = list_of(&["a", "c", "b"]);
    assert!(l.has_pair_at(1));
    assert!(!l.has_pair_at(2));
    assert!(!l.compare_swap_at(0));
    assert!(l.compare_swap_at(1));
    assert_eq!(l.to_vec(), vec!["a", "b", "c"]);
}

#[test]
fn free_bubble_sort_sorts() {
    let mut l = list_of(&["delta", "alpha", "charlie", "bravo"]);
    bubble_sort(&mut l);
    assert_eq!(l.to_vec(), vec!["alpha", "bravo", "charlie", "delta"]);
}

#[test]
fn step_sort_reports_each_step() {
    let mut l = list_of(&["b", "a"]);
    let mut st = StepSort::new();
    assert!(matches!(st.step(&mut l), SortStep::Swapped));
    assert_eq!(l.to_vec(), vec!["a", "b"]);
    assert!(matches!(st.step(&mut l), SortStep::NextPass));
    assert!(matches!(st.step(&mut l), SortStep::Kept));
    assert!(matches!(st.step(&mut l), SortStep::Finished));
    assert!(matches!(st.step(&mut l), SortStep::Finished));
}

#[test]
fn step_sort_counts_swaps_to_the_end() {
    let mut l = list_of(&["e", "d", "c", "b", "a"]);
    let mut st = StepSort::new();
    let mut swaps = 0;
    loop {
        match st.step(&mut l) {
            SortStep::Swapped => swaps += 1,
            SortStep::Finished => break,
            _ => {}
        }
    }
    // A reversed list of five has ten inversions, and each swap removes one.
    assert_eq!(swaps, 10);
    assert_eq!(l.to_vec(), vec!["a", "b", "c", "d", "e"]);
}

#[test]
fn sorted_list_keeps_arrival_order() {
    let mut l = SortedList::new();
    l.insert("bb".to_string());
    l.insert("a".to_string());
    l.insert("ccc".to_string());
    assert_eq!(l.to_vec(), vec!["bb", "a", "ccc"]);
}

#[test]
fn sorted_list_starts_empty() {
    let l = SortedList::new();
    assert!(l.to_vec().is_empty());
}

#[test]
fn the_three_sorts_agree() {
    let items = ["kiwi", "Apple", "banana", "apple", "", "kiwi", "zz", "a"];
    let mut a = list_of(&items);
    a.bubble_sort();
    let mut b = list_of(&items);
    bubble_sort(&mut b);
    let mut c = list_of(&items);
    let mut st = StepSort::new();
    while !matches!(st.step(&mut c), SortStep::Finished) {}
    assert_eq!(a.to_vec(), b.to_vec());
    assert_eq!(a.to_vec(), c.to_vec());
    let mut expected: Vec<String> = items.iter().map(|s| s.to_string()).collect();
    expected.sort();
    assert_eq!(a.to_vec(), expected);
}

#[test]
fn rwlock_list_pushes_to_the_front() {
    let mut l = rwlock_list::LinkedList::new();
    assert!(l.to_vec().is_empty());
    l.push_front("b".to_string());
    l.push_front("a".to_string());
    assert_eq!(l.to_vec(), vec!["a".to_string(), "b".to_string()]);
}

#[test]
fn rwlock_list_sort_leaves_the_list_as_it_is() {
    let mut l = rwlock_list::LinkedList::new();
    l.push_front("a".to_string());
    l.push_front("c".to_string());
    l.push_front("b".to_string());
    l.bubble_sort();
    assert_eq!(l.to_vec(), vec!["b".to_string(), "c".to_string(), "a".to_string()]);
}
