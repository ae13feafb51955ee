use chunklist::ChunkList;

fn filled(chunk_size: usize, items: &[i32]) -> ChunkList<i32> {
    let mut list = ChunkList::new(chunk_size).unwrap();
    for item in items {
        list.add(*item);
    }
    list
}

fn segments(list: &ChunkList<i32>) -> Vec<Vec<i32>> {
    let mut all = Vec::new();
    for index in 0..list.chunk_amount() {
        all.push(list.get_chunk(index).unwrap().clone());
    }
    all
}

fn count_of(list: &ChunkList<i32>, value: i32) -> usize {
    list.get_list().iter().filter(|x| **x == value).count()
}

#[test]
fn remove_takes_exactly_one_of_several_copies() {
    let mut list = filled(2, &[7, 7, 7, 7, 7]);
    assert_eq!(segments(&list), vec![vec![7, 7], vec![7, 7], vec![7]]);
    list.remove(&7);
    assert_eq!(list.len(), 4);
    assert_eq!(count_of(&list, 7), 4);
    assert_eq!(list.chunk_amount(), 3);
    let lens: Vec<usize> = segments(&list).iter().map(|s| s.len()).collect();
    assert!(lens == vec![1, 2, 1] || lens == vec![2, 1, 1] || lens == vec![2, 2, 0]);
}

#[test]
fn remove_takes_one_copy_from_sorted_segments() {
    let mut list = filled(3, &[1, 2, 4, 2, 3, 5, 0, 2, 9]);
    assert_eq!(segments(&list), vec![vec![1, 2, 4], vec![2, 3, 5], vec![0, 2, 9]]);
    list.remove(&2);
    assert_eq!(list.len(), 8);
    assert_eq!(count_of(&list, 2), 2);
    let after = segments(&list);
    let a = after == vec![vec![1, 4], vec![2, 3, 5], vec![0, 2, 9]];
    let b = after == vec![vec![1, 2, 4], vec![3, 5], vec![0, 2, 9]];
    let c = after == vec![vec![1, 2, 4], vec![2, 3, 5], vec![0, 9]];
    assert!(a || b || c);
    list.remove(&2);
    list.remove(&2);
    assert_eq!(count_of(&list, 2), 0);
    assert_eq!(segments(&list), vec![vec![1, 4], vec![3, 5], vec![0, 9]]);
    list.remove(&2);
    assert_eq!(segments(&list), vec![vec![1, 4], vec![3, 5], vec![0, 9]]);
}

#[test]
fn remove_of_a_single_copy_is_determined() {
    let mut list = filled(3, &[1, 2, 4, 3, 5, 8]);
    list.remove(&5);
    assert_eq!(segments(&list), vec![vec![1, 2, 4], vec![3, 8]]);
    list.remove(&1);
    assert_eq!(segments(&list), vec![vec![2, 4], vec![3, 8]]);
    list.remove(&8);
    assert_eq!(segments(&list), vec![vec![2, 4], vec![3]]);
    assert_eq!(list.len(), 3);
}

#[test]
fn remove_of_an_absent_value_changes_nothing() {
    let mut list = filled(3, &[1, 2, 4, 3, 5, 8]);
    list.remove(&7);
    list.remove(&0);
    list.remove(&100);
    assert_eq!(segments(&list), vec![vec![1, 2, 4], vec![3, 5, 8]]);
    assert_eq!(list.len(), 6);
    let mut empty: ChunkList<i32> = ChunkList::new(3).unwrap();
    empty.remove(&1);
    assert_eq!(empty.len(), 0);
    assert_eq!(empty.chunk_amount(), 0);
}

#[test]
fn remove_keeps_emptied_segments() {
    let mut list = filled(1, &[1, 2, 3]);
    list.remove(&2);
    assert_eq!(segments(&list), vec![vec![1], vec![], vec![3]]);
    assert_eq!(list.chunk_amount(), 3);
    assert_eq!(list.len(), 2);
}

#[test]
fn remove_all_leaves_no_copy_in_any_segment() {
    let mut list = filled(3, &[5, 1, 4, 1, 5, 9, 2, 6, 5, 5, 5]);
    list.remove_all(&5);
    assert!(!list.contains(&5));
    assert_eq!(count_of(&list, 5), 0);
    for index in 0..list.chunk_amount() {
        assert!(!list.get_chunk(index).unwrap().contains(&5));
    }
    assert_eq!(segments(&list), vec![vec![1, 4], vec![1, 9], vec![2, 6], vec![]]);
    assert_eq!(list.len(), 6);
    assert_eq!(list.get_list(), vec![1, 4, 1, 9, 2, 6]);
}

#[test]
fn remove_all_of_an_absent_value_changes_nothing() {
    let mut list = filled(3, &[5, 1, 4, 1]);
    list.remove_all(&7);
    assert_eq!(segments(&list), vec![vec![5, 1, 4], vec![1]]);
    assert_eq!(list.len(), 4);
}

#[test]
fn remove_all_works_on_unsorted_segments() {
    let mut list = filled(4, &[9, 1, 9, 0, 3, 9, 9, 2]);
    list.remove_all(&9);
    assert_eq!(segments(&list), vec![vec![1, 0], vec![3, 2]]);
}

#[test]
fn remove_from_chunk_takes_the_named_slot() {
    let mut list = filled(3, &[5, 1, 4, 1, 5, 9, 2, 6]);
    assert_eq!(list.remove_from_chunk(1, 2), Some(9));
    assert_eq!(segments(&list), vec![vec![5, 1, 4], vec![1, 5], vec![2, 6]]);
    assert_eq!(list.remove_from_chunk(0, 0), Some(5));
    assert_eq!(segments(&list), vec![vec![1, 4], vec![1, 5], vec![2, 6]]);
    assert_eq!(list.len(), 6);
}

#[test]
fn remove_from_chunk_refuses_a_slot_that_is_not_there() {
    let mut list = filled(3, &[5, 1, 4, 1]);
    assert_eq!(list.remove_from_chunk(2, 0), None);
    assert_eq!(list.remove_from_chunk(1, 1), None);
    assert_eq!(list.remove_from_chunk(0, 3), None);
    assert_eq!(list.remove_from_chunk(usize::MAX, usize::MAX), None);
    assert_eq!(segments(&list), vec![vec![5, 1, 4], vec![1]]);
    assert_eq!(list.len(), 4);
}

#[test]
fn remove_optimized_removes_then_resizes() {
    let mut list = ChunkList::new(50).unwrap();
    for x in 0..101 {
        list.add(x);
    }
    list.remove_optimized(&40, true);
    assert_eq!(list.len(), 100);
    assert!(!list.contains(&40));
    assert_eq!(list.get_chunk_size(), 10);
    assert_eq!(list.chunk_amount(), 10);
    let mut expected: Vec<i32> = (0..101).collect();
    expected.remove(40);
    assert_eq!(list.get_list(), expected);
}

#[test]
fn remove_all_optimized_removes_then_resizes() {
    let mut list = ChunkList::new(50).unwrap();
    for x in 0..120 {
        list.add(x % 6);
    }
    list.remove_all_optimized(&5, false);
    assert_eq!(list.len(), 100);
    assert!(!list.contains(&5));
    assert_eq!(list.get_chunk_size(), 5);
    assert_eq!(list.chunk_amount(), 20);
    list.remove_all_optimized(&0, true);
    assert_eq!(list.len(), 80);
    assert_eq!(list.get_chunk_size(), 9);
    assert_eq!(list.chunk_amount(), 20);
}

#[test]
fn remove_all_optimized_of_everything_keeps_chunk_size() {
    let mut list = filled(3, &[4, 4, 4, 4]);
    list.remove_all_optimized(&4, true);
    assert_eq!(list.len(), 0);
    assert_eq!(list.get_chunk_size(), 3);
    assert_eq!(list.chunk_amount(), 2);
}
