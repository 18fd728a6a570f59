use dsa_sport::datastruct::list_struct::LinkedList;

fn list_of(values: &[i32]) -> LinkedList<i32> {
    let mut list = LinkedList::new();
    for v in values {
        list.add_node(*v);
    }
    list
}

#[test]
fn push_then_insert_renders() {
    let mut list = LinkedList::new();
    list.add_node(1);
    list.add_node(2);
    list.add_node(3);
    assert_eq!(list.format(), "1 -> 2 -> 3 -> x");
    assert_eq!(list.len(), 3);
    list.insert_node_at(1, 4);
    assert_eq!(list.format(), "1 -> 4 -> 2 -> 3 -> x");
}

#[test]
fn empty_list_renders_the_end_mark() {
    let list: LinkedList<i32> = LinkedList::new();
    assert_eq!(list.format(), "x");
    assert_eq!(list.len(), 0);
    assert_eq!(list.rec_len(), 0);
}

#[test]
fn rendering_of_negative_and_large_values() {
    let list = list_of(&[0, -7, 10, 2147483647, -2147483648, 1000]);
    assert_eq!(list.format(), "0 -> -7 -> 10 -> 2147483647 -> -2147483648 -> 1000 -> x");
}

#[test]
fn lengths_agree() {
    for n in 0..9 {
        let values: Vec<i32> = (0..n).collect();
        let list = list_of(&values);
        assert_eq!(list.len(), n as usize);
        assert_eq!(list.rec_len(), n as usize);
        for v in 0..n {
            assert_eq!(list.find_node(v), Some(v as usize));
        }
        assert_eq!(list.find_node(n), None);
    }
}

#[test]
fn get_at_reads_or_is_absent() {
    let mut list = LinkedList::new();
    list.add_node('a');
    list.add_node('b');
    list.add_node('c');
    assert_eq!(list.get_at(0), Some(&'a'));
    assert_eq!(list.get_at(1), Some(&'b'));
    assert_eq!(list.get_at(2), Some(&'c'));
    assert_eq!(list.get_at(3), None);
    assert_eq!(list.get_at(usize::MAX), None);
    let empty: LinkedList<char> = LinkedList::new();
    assert_eq!(empty.get_at(0), None);
}

#[test]
fn take_mid_is_at_half_the_length() {
    let mut list = LinkedList::new();
    assert_eq!(list.take_mid(), None);
    list.add_node('a');
    assert_eq!(list.take_mid(), Some(&'a'));
    list.add_node('b');
    assert_eq!(list.take_mid(), Some(&'b'));
    list.add_node('c');
    assert_eq!(list.take_mid(), Some(&'b'));
    list.add_node('d');
    assert_eq!(list.take_mid(), Some(&'c'));
    list.add_node('e');
    assert_eq!(list.take_mid(), Some(&'c'));
}

#[test]
fn find_gives_first_position() {
    let list = list_of(&[5, 7, 5, 9, 7]);
    assert_eq!(list.find_node(5), Some(0));
    assert_eq!(list.find_node(7), Some(1));
    assert_eq!(list.find_node(9), Some(3));
    assert_eq!(list.find_node(4), None);
    assert_eq!(list.recursive_find(5), Some(0));
    assert_eq!(list.recursive_find(7), Some(1));
    assert_eq!(list.recursive_find(9), Some(3));
    assert_eq!(list.recursive_find(4), None);
    let empty = list_of(&[]);
    assert_eq!(empty.find_node(1), None);
    assert_eq!(empty.recursive_find(1), None);
}

#[test]
fn insert_at_head_middle_and_beyond() {
    let mut list = list_of(&[1, 2, 3]);
    list.insert_node_at(0, 9);
    assert_eq!(list.format(), "9 -> 1 -> 2 -> 3 -> x");
    list.insert_node_at(4, 8);
    assert_eq!(list.format(), "9 -> 1 -> 2 -> 3 -> 8 -> x");
    list.insert_node_at(40, 7);
    assert_eq!(list.format(), "9 -> 1 -> 2 -> 3 -> 8 -> 7 -> x");
    let mut empty = list_of(&[]);
    empty.insert_node_at(3, 1);
    assert_eq!(empty.format(), "1 -> x");
}

#[test]
fn insert_variants_agree() {
    for index in 0..7 {
        let mut a = list_of(&[1, 2, 3, 4]);
        let mut b = list_of(&[1, 2, 3, 4]);
        a.insert_node_at(index, 0);
        b.insert_node_at_rec(index, 0);
        assert_eq!(a.format(), b.format());
    }
    let mut b = list_of(&[1, 2, 3]);
    b.insert_node_at_rec(1, 4);
    assert_eq!(b.format(), "1 -> 4 -> 2 -> 3 -> x");
}

#[test]
fn delete_at_head_middle_and_beyond() {
    let mut list = list_of(&[1, 2, 3]);
    list.delete_node_at(1);
    assert_eq!(list.format(), "1 -> 3 -> x");
    list.delete_node_at(5);
    assert_eq!(list.format(), "1 -> 3 -> x");
    list.delete_node_at(2);
    assert_eq!(list.format(), "1 -> 3 -> x");
    list.delete_node_at(0);
    assert_eq!(list.format(), "3 -> x");
    list.delete_node_at(0);
    assert_eq!(list.format(), "x");
    list.delete_node_at(0);
    assert_eq!(list.format(), "x");
}

#[test]
fn delete_variants_agree() {
    for index in 0..7 {
        let mut a = list_of(&[1, 2, 3, 4]);
        let mut b = list_of(&[1, 2, 3, 4]);
        a.delete_node_at(index);
        b.delete_node_at_rec(index);
        assert_eq!(a.format(), b.format());
    }
    let mut b = list_of(&[1, 2, 3]);
    b.delete_node_at_rec(1);
    assert_eq!(b.format(), "1 -> 3 -> x");
}

#[test]
fn swap_by_position() {
    let mut list = list_of(&[1, 2, 3]);
    assert!(list.swape_nodes(0, 2));
    assert_eq!(list.format(), "3 -> 2 -> 1 -> x");
    assert!(list.swape_nodes(1, 0));
    assert_eq!(list.format(), "2 -> 3 -> 1 -> x");
    assert!(list.swape_nodes(1, 1));
    assert_eq!(list.format(), "2 -> 3 -> 1 -> x");
    assert!(list.swape_nodes(1, 2));
    assert_eq!(list.format(), "2 -> 1 -> 3 -> x");
}

#[test]
fn swap_outside_the_sequence_changes_nothing() {
    let mut list = list_of(&[1, 2, 3]);
    assert!(!list.swape_nodes(0, 3));
    assert!(!list.swape_nodes(3, 0));
    assert!(!list.swape_nodes(7, 7));
    assert_eq!(list.format(), "1 -> 2 -> 3 -> x");
    let mut empty = list_of(&[]);
    assert!(!empty.swape_nodes(0, 0));
    assert_eq!(empty.format(), "x");
}

#[test]
fn deduplicate_sorted_runs() {
    let mut list = list_of(&[1, 2, 2, 3, 4, 4]);
    assert_eq!(list.format(), "1 -> 2 -> 2 -> 3 -> 4 -> 4 -> x");
    list.eliminate_dup();
    assert_eq!(list.format(), "1 -> 2 -> 3 -> 4 -> x");
    list.eliminate_dup();
    assert_eq!(list.format(), "1 -> 2 -> 3 -> 4 -> x");
}

#[test]
fn deduplicate_edge_cases() {
    let mut empty = list_of(&[]);
    empty.eliminate_dup();
    assert_eq!(empty.format(), "x");
    let mut one = list_of(&[5]);
    one.eliminate_dup();
    assert_eq!(one.format(), "5 -> x");
    let mut same = list_of(&[5, 5, 5, 5]);
    same.eliminate_dup();
    assert_eq!(same.format(), "5 -> x");
    let mut apart = list_of(&[1, 1, 2, 1, 1]);
    apart.eliminate_dup();
    assert_eq!(apart.format(), "1 -> 2 -> 1 -> x");
}

#[test]
fn palindrome_answers_and_keeps_the_sequence() {
    let cases: [(&[i32], bool); 8] = [
        (&[], true),
        (&[1], true),
        (&[1, 1], true),
        (&[1, 2], false),
        (&[1, 2, 1], true),
        (&[1, 2, 2], false),
        (&[1, 2, 2, 1], true),
        (&[1, 2, 3, 1], false),
    ];
    for (values, expected) in cases {
        let list = list_of(values);
        let before = list.format();
        assert_eq!(list.is_palindrome(), expected);
        assert_eq!(list.format(), before);
    }
}

#[test]
fn reverse_both_ways() {
    let mut list = list_of(&[1, 2, 3, 4, 5]);
    list.reverse_iterative();
    assert_eq!(list.format(), "5 -> 4 -> 3 -> 2 -> 1 -> x");
    list.reverse_recursive();
    assert_eq!(list.format(), "1 -> 2 -> 3 -> 4 -> 5 -> x");
    list.reverse_recursive();
    assert_eq!(list.format(), "5 -> 4 -> 3 -> 2 -> 1 -> x");
    list.reverse_iterative();
    assert_eq!(list.format(), "1 -> 2 -> 3 -> 4 -> 5 -> x");
    let mut empty = list_of(&[]);
    empty.reverse_iterative();
    empty.reverse_recursive();
    assert_eq!(empty.format(), "x");
    let mut one = list_of(&[1]);
    one.reverse_iterative();
    one.reverse_recursive();
    assert_eq!(one.format(), "1 -> x");
}

#[test]
fn reverse_of_other_payloads() {
    let mut list = LinkedList::new();
    list.add_node(String::from("a"));
    list.add_node(String::from("b"));
    list.add_node(String::from("c"));
    list.reverse_iterative();
    assert_eq!(list.get_at(0), Some(&String::from("c")));
    assert_eq!(list.get_at(2), Some(&String::from("a")));
    list.reverse_recursive();
    assert_eq!(list.get_at(0), Some(&String::from("a")));
    assert!(list.swape_nodes(0, 2));
    assert_eq!(list.get_at(0), Some(&String::from("c")));
    assert_eq!(list.get_at(1), Some(&String::from("b")));
    assert_eq!(list.get_at(2), Some(&String::from("a")));
}

#[test]
fn odd_before_even() {
    let mut list = list_of(&[1, 2, 3, 4, 5]);
    list.activate_kejriwal();
    assert_eq!(list.format(), "1 -> 3 -> 5 -> 2 -> 4 -> x");
    let mut negative = list_of(&[-2, -3, 0, -1, 6, 7]);
    negative.activate_kejriwal();
    assert_eq!(negative.format(), "-3 -> -1 -> 7 -> -2 -> 0 -> 6 -> x");
    let mut empty = list_of(&[]);
    empty.activate_kejriwal();
    assert_eq!(empty.format(), "x");
    let mut evens = list_of(&[2, 4]);
    evens.activate_kejriwal();
    assert_eq!(evens.format(), "2 -> 4 -> x");
}

#[test]
fn rotate_last_n_to_front() {
    let mut list = list_of(&[1, 2, 3, 4, 5]);
    list.rotate_from_k(2);
    assert_eq!(list.format(), "4 -> 5 -> 1 -> 2 -> 3 -> x");
    list.rotate_from_k(0);
    assert_eq!(list.format(), "4 -> 5 -> 1 -> 2 -> 3 -> x");
    list.rotate_from_k(6);
    assert_eq!(list.format(), "4 -> 5 -> 1 -> 2 -> 3 -> x");
    list.rotate_from_k(5);
    assert_eq!(list.format(), "4 -> 5 -> 1 -> 2 -> 3 -> x");
    list.rotate_from_k(1);
    assert_eq!(list.format(), "3 -> 4 -> 5 -> 1 -> 2 -> x");
    let mut empty = list_of(&[]);
    empty.rotate_from_k(1);
    assert_eq!(empty.format(), "x");
}

#[test]
fn list_sorts() {
    let mut a = list_of(&[4, 6, 1, 8, 11, 13, 3, 6, -2]);
    a.bubble_sort();
    assert_eq!(a.format(), "-2 -> 1 -> 3 -> 4 -> 6 -> 6 -> 8 -> 11 -> 13 -> x");
    let mut b = list_of(&[4, 6, 1, 8, 11, 13, 3, 6, -2]);
    b.merge_sort();
    assert_eq!(b.format(), "-2 -> 1 -> 3 -> 4 -> 6 -> 6 -> 8 -> 11 -> 13 -> x");
    let mut empty = list_of(&[]);
    empty.bubble_sort();
    empty.merge_sort();
    assert_eq!(empty.format(), "x");
    let mut one = list_of(&[3]);
    one.merge_sort();
    one.bubble_sort();
    assert_eq!(one.format(), "3 -> x");
    let mut two = list_of(&[3, 1]);
    two.merge_sort();
    assert_eq!(two.format(), "1 -> 3 -> x");
}

#[test]
fn sort_then_deduplicate_rises_strictly() {
    let mut list = list_of(&[3, 1, 3, 2, 1, 2, 2]);
    list.merge_sort();
    list.eliminate_dup();
    assert_eq!(list.format(), "1 -> 2 -> 3 -> x");
}

#[test]
fn sorts_of_text_payloads() {
    let words = ["abc", "abd", "aad", "bcd", "bac"];
    let sorted = ["aad", "abc", "abd", "bac", "bcd"];
    let mut a = LinkedList::new();
    let mut b = LinkedList::new();
    for w in words {
        a.add_node(w);
        b.add_node(w);
    }
    a.bubble_sort();
    b.merge_sort();
    for (i, w) in sorted.iter().enumerate() {
        assert_eq!(a.get_at(i), Some(w));
        assert_eq!(b.get_at(i), Some(w));
    }
    assert_eq!(a.len(), 5);
    assert_eq!(b.len(), 5);
}

#[test]
fn merge_sort_of_many_lengths() {
    for n in 0..40usize {
        let mut values: Vec<i32> = (0..n as i32).map(|k| (k * 7919 + 13) % 17 - 8).collect();
        let mut list = LinkedList::new();
        for v in &values {
            list.add_node(*v);
        }
        let mut other = LinkedList::new();
        for v in &values {
            other.add_node(*v);
        }
        list.merge_sort();
        other.bubble_sort();
        values.sort();
        assert_eq!(list.len(), n);
        for (i, v) in values.iter().enumerate() {
            assert_eq!(list.get_at(i), Some(v));
            assert_eq!(other.get_at(i), Some(v));
        }
    }
}

#[test]
fn palindrome_and_search_of_chars() {
    let mut list = LinkedList::new();
    list.add_node('w');
    list.add_node('o');
    list.add_node('w');
    assert_eq!(list.is_palindrome(), true);
    assert_eq!(list.find_node('o'), Some(1));
    assert_eq!(list.recursive_find('w'), Some(0));
    assert_eq!(list.find_node('d'), None);
    let mut other = LinkedList::new();
    other.add_node('a');
    other.add_node('w');
    other.add_node('w');
    assert_eq!(other.is_palindrome(), false);
    other.eliminate_dup();
    assert_eq!(other.len(), 2);
    assert_eq!(other.get_at(0), Some(&'a'));
    assert_eq!(other.get_at(1), Some(&'w'));
}

#[derive(Debug, Clone, Copy)]
struct Tagged {
    key: i32,
    tag: char,
}

impl PartialEq for Tagged {
    fn eq(&self, other: &Self) -> bool {
        self.key == other.key
    }
}

impl PartialOrd for Tagged {
    fn partial_cmp(&self, other: &Self) -> Option<std::cmp::Ordering> {
        self.key.partial_cmp(&other.key)
    }
}

fn tags_after(sort: fn(&mut LinkedList<Tagged>), input: &[(i32, char)]) -> Vec<(i32, char)> {
    let mut list = LinkedList::new();
    for (key, tag) in input {
        list.add_node(Tagged { key: *key, tag: *tag });
    }
    sort(&mut list);
    let mut out = Vec::new();
    let mut at = 0usize;
    while let Some(node) = list.get_at(at) {
        out.push((node.key, node.tag));
        at += 1;
    }
    out
}

#[test]
fn sorts_keep_equal_keys_in_their_order() {
    let input = [(2, 'a'), (1, 'b'), (2, 'c'), (1, 'd'), (3, 'e'), (2, 'f'), (1, 'g')];
    let expected =
        vec![(1, 'b'), (1, 'd'), (1, 'g'), (2, 'a'), (2, 'c'), (2, 'f'), (3, 'e')];
    assert_eq!(tags_after(|l| l.merge_sort(), &input), expected);
    assert_eq!(tags_after(|l| l.bubble_sort(), &input), expected);
}
