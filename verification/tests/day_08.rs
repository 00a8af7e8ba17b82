use aoc::error::Error;
use aoc::solutions::solution_08::{load_tree, part1 as meta_total, part2 as root_value, sum_of, Node};

const LICENCE: &str = "2 3 0 3 10 11 12 1 1 0 1 99 2 1 1 2";

fn leaf(meta: &[u64]) -> Node {
    Node { children: Vec::new(), meta: meta.to_vec() }
}

#[test]
fn licence_is_read_as_a_tree() {
    let d = Node { children: vec![leaf(&[99])], meta: vec![2] };
    let expected = Node { children: vec![leaf(&[10, 11, 12]), d], meta: vec![1, 1, 2] };
    assert_eq!(load_tree(LICENCE), Ok(expected));
    assert_eq!(load_tree("0 0"), Ok(leaf(&[])));
    assert_eq!(load_tree("  0\n1\t7 \n"), Ok(leaf(&[7])));
}

#[test]
fn tokens_behind_the_root_are_not_read() {
    assert_eq!(load_tree("0 1 5 and more"), Ok(leaf(&[5])));
    assert_eq!(load_tree("0 1 5 9 9 9"), Ok(leaf(&[5])));
}

#[test]
fn licences_that_are_cut_short_or_spoilt() {
    for text in ["", "0", "1 0", "0 2 5", "1 1 0 1 5", "2 0 0 0", "x 0", "0 x", "0 1 x", "1 0 0 -1 4", "0 1 18446744073709551616"] {
        assert_eq!(load_tree(text), Err(Error::MalformedInput), "{text}");
    }
}

#[test]
fn sum_of_all_metadata() {
    let tree = load_tree(LICENCE).unwrap();
    assert_eq!(meta_total(&tree), Ok(138));
    assert_eq!(meta_total(&leaf(&[])), Ok(0));
    assert_eq!(tree.meta_sum(), Some(138));
}

#[test]
fn value_of_the_root() {
    let tree = load_tree(LICENCE).unwrap();
    assert_eq!(root_value(&tree), Ok(66));
    assert_eq!(tree.children[0].value(), Some(33));
    assert_eq!(tree.children[1].value(), Some(0));
    assert_eq!(tree.children[1].children[0].value(), Some(99));
}

#[test]
fn entries_that_refer_to_no_child_count_nothing() {
    let tree = Node { children: vec![leaf(&[4]), leaf(&[6])], meta: vec![0, 3, 2, 2, 1, u64::MAX] };
    assert_eq!(root_value(&tree), Ok(16));
    assert_eq!(meta_total(&tree), Err(Error::Overflow));
}

#[test]
fn sums_that_do_not_fit() {
    assert_eq!(sum_of(&vec![]), Some(0));
    assert_eq!(sum_of(&vec![u64::MAX]), Some(u64::MAX));
    assert_eq!(sum_of(&vec![u64::MAX, 0]), Some(u64::MAX));
    assert_eq!(sum_of(&vec![u64::MAX, 1]), None);
    assert_eq!(sum_of(&vec![u64::MAX, 1, 0]), None);
    let big = leaf(&[u64::MAX]);
    let twice = Node { children: vec![big], meta: vec![1, 1] };
    assert_eq!(root_value(&twice), Err(Error::Overflow));
    // A child that is too great and that nothing refers to does no harm.
    let spare = Node { children: vec![leaf(&[u64::MAX, 1]), leaf(&[3])], meta: vec![2, 2] };
    assert_eq!(root_value(&spare), Ok(6));
    assert_eq!(meta_total(&spare), Err(Error::Overflow));
}
