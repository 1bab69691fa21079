use std::collections::HashMap;

use list_set::LinkedListSet;
use list_set::ListIndex;

struct Test {
    set: LinkedListSet<usize>,
    expected: HashMap<ListIndex, Vec<usize>>,
}

/// Build a set of three lists whose nodes are interleaved in the arena,
/// so that no list's nodes are adjacent to each other in the underlying
/// storage.
fn linked_list_set() -> LinkedListSet<usize> {
    let mut set = LinkedListSet::new();
    let list_indices = [set.new_list(), set.new_list(), set.new_list()];
    let lists = [
        vec![10, 11, 12, 13],
        vec![20, 21, 22, 23],
        vec![30, 31, 32, 33, 34, 35],
    ];
    let longest = lists.iter().map(|list| list.len()).max().unwrap();
    for round in 0..longest {
        for (list_index, list) in list_indices.iter().copied().zip(lists.iter()) {
            if round < list.len() {
                set.push_back(list_index, list[round]);
            }
        }
    }
    set
}

fn test() -> Test {
    let set = linked_list_set();
    let mut expected = HashMap::default();
    expected.insert(ListIndex::new(0), vec![10, 11, 12, 13]);
    expected.insert(ListIndex::new(1), vec![20, 21, 22, 23]);
    expected.insert(ListIndex::new(2), vec![30, 31, 32, 33, 34, 35]);

    Test { set, expected }
}

fn test_rev() -> Test {
    let set = linked_list_set();
    let mut expected = HashMap::default();
    expected.insert(ListIndex::new(0), vec![13, 12, 11, 10]);
    expected.insert(ListIndex::new(1), vec![23, 22, 21, 20]);
    expected.insert(ListIndex::new(2), vec![35, 34, 33, 32, 31, 30]);

    Test { set, expected }
}

/// Collect the handles of every live list.
fn collect_indices(set: &LinkedListSet<usize>) -> Vec<ListIndex> {
    let mut result = Vec::new();
    let mut indices = set.list_indices();
    while let Some(list_index) = indices.next() {
        result.push(list_index);
    }
    result
}

/// Collect the payloads yielded by the mutable iterator, front to back.
fn collect_mut(set: &mut LinkedListSet<usize>, list_index: ListIndex) -> Vec<usize> {
    let mut result = Vec::new();
    let mut iter = set.iter_mut(list_index);
    while let Some(item) = iter.next(set) {
        result.push(*item);
    }
    result
}

/// Collect the payloads yielded by the mutable iterator, back to front.
fn collect_mut_rev(set: &mut LinkedListSet<usize>, list_index: ListIndex) -> Vec<usize> {
    let mut result = Vec::new();
    let mut iter = set.iter_mut(list_index);
    while let Some(item) = iter.next_back(set) {
        result.push(*item);
    }
    result
}

/// A mutable iterator should correctly produce the right linked list nodes
/// even when the nodes for a linked list are out of order in the underlying
/// storage.
#[test]
fn test_mutable_iterator_yields_only_nodes_from_the_same_list() {
    let mut test = test();
    let list_indices = collect_indices(&test.set);
    for list_index in list_indices.iter().copied() {
        let expected = &test.expected[&list_index];
        let result = collect_mut(&mut test.set, list_index);

        assert_eq!(&result, expected);
    }
}

#[test]
fn test_mutable_iterator_list_lengths() {
    let mut test = test();
    let list_indices = collect_indices(&test.set);
    for list_index in list_indices.iter().copied() {
        let expected = &test.expected[&list_index];
        let result = collect_mut(&mut test.set, list_index);

        assert_eq!(result.len(), expected.len());
    }
}

/// A mutable iterator in reverse should correctly produce the right
/// linked list nodes even when the nodes for a linked list are out of
/// order in the underlying storage.
#[test]
fn test_mutable_iterator_reverse_yields_only_nodes_from_the_same_list() {
    let mut test = test_rev();
    let list_indices = collect_indices(&test.set);
    for list_index in list_indices.iter().copied() {
        let expected = &test.expected[&list_index];
        let result = collect_mut_rev(&mut test.set, list_index);

        assert_eq!(&result, expected);
    }
}

#[test]
fn test_mutable_iterator_reverse_lengths() {
    let mut test = test_rev();
    let list_indices = collect_indices(&test.set);
    for list_index in list_indices.iter().copied() {
        let expected = &test.expected[&list_index];
        let result = collect_mut_rev(&mut test.set, list_index);

        assert_eq!(result.len(), expected.len());
    }
}
