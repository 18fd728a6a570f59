use dsa_sport::sort_analysis::bub_sort::{bubble_sort, bubble_sort_improved};

#[test]
fn test_bubble_sort() {
    let mut v = vec![4, 6, 1, 8, 11, 13, 3];
    bubble_sort(&mut v);
    assert_eq!(v, vec![1, 3, 4, 6, 8, 11, 13])
}

#[test]
fn test_bubble_sort_improved() {
    let mut v = vec![4, 6, 1, 8, 11, 13, 3];
    bubble_sort_improved(&mut v);
    assert_eq!(v, vec![1, 3, 4, 6, 8, 11, 13])
}

#[test]
fn bubble_sort_takes_empty_and_single() {
    let mut v: Vec<i32> = vec![];
    bubble_sort(&mut v);
    assert_eq!(v, Vec::<i32>::new());
    bubble_sort_improved(&mut v);
    assert_eq!(v, Vec::<i32>::new());
    let mut w = vec![7];
    bubble_sort(&mut w);
    assert_eq!(w, vec![7]);
    bubble_sort_improved(&mut w);
    assert_eq!(w, vec![7]);
}

#[test]
fn bubble_sort_keeps_repeats_and_negatives() {
    let mut v = vec![3, -1, 3, i32::MIN, 0, i32::MAX, -1];
    bubble_sort(&mut v);
    assert_eq!(v, vec![i32::MIN, -1, -1, 0, 3, 3, i32::MAX]);
    let mut w = vec![3, -1, 3, i32::MIN, 0, i32::MAX, -1];
    bubble_sort_improved(&mut w);
    assert_eq!(w, vec![i32::MIN, -1, -1, 0, 3, 3, i32::MAX]);
}

#[test]
fn bubble_sort_improved_leaves_sorted_input() {
    let mut v = vec![1, 2, 3, 4];
    bubble_sort_improved(&mut v);
    assert_eq!(v, vec![1, 2, 3, 4]);
    let mut w = vec![5, 4, 3, 2, 1];
    bubble_sort_improved(&mut w);
    assert_eq!(w, vec![1, 2, 3, 4, 5]);
}

#[test]
fn bubble_sort_of_text() {
    let mut v = vec!["pear", "apple", "fig", "apple"];
    bubble_sort(&mut v);
    assert_eq!(v, vec!["apple", "apple", "fig", "pear"]);
    let mut w = vec![String::from("b"), String::from("a"), String::from("c")];
    bubble_sort_improved(&mut w);
    assert_eq!(w, vec![String::from("a"), String::from("b"), String::from("c")]);
}
