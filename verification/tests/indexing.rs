use chunklist::{ChunkList, ChunkListError};

fn filled(chunk_size: usize, items: &[i32]) -> ChunkList<i32> {
    let mut list = ChunkList::new(chunk_size).unwrap();
    for item in items {
        list.add(*item);
    }
    list
}

fn segments(list: &ChunkList<i32>) -> Vec<Vec<i32>> {
    let mut all = Vec::new();
    for index in 0..list.chunk_amount() {
        all.push(list.get_chunk(index).unwrap().clone());
    }
    all
}

#[test]
fn get_in_packed_list_is_positional() {
    let list = filled(3, &[5, 1, 4, 1, 5, 9, 2, 6]);
    let expected = [5, 1, 4, 1, 5, 9, 2, 6];
    for (index, value) in expected.iter().enumerate() {
        assert_eq!(list.get(index), Ok(value));
    }
}

#[test]
fn get_beyond_the_end_is_refused() {
    let list = filled(3, &[5, 1, 4, 1, 5, 9, 2, 6]);
    assert_eq!(list.get(8), Err(ChunkListError::IndexOutOfRange));
    assert_eq!(list.get(9), Err(ChunkListError::IndexOutOfRange));
    assert_eq!(list.get(usize::MAX), Err(ChunkListError::IndexOutOfRange));
    let empty: ChunkList<i32> = ChunkList::new(3).unwrap();
    assert_eq!(empty.get(0), Err(ChunkListError::IndexOutOfRange));
}

#[test]
fn get_moves_forward_over_missing_slots() {
    let mut list = filled(3, &[1, 2, 3, 4, 5, 6]);
    list.remove_all(&2);
    assert_eq!(segments(&list), vec![vec![1, 3], vec![4, 5, 6]]);
    assert_eq!(list.len(), 5);
    assert_eq!(list.get(0), Ok(&1));
    assert_eq!(list.get(1), Ok(&3));
    assert_eq!(list.get(2), Ok(&4));
    assert_eq!(list.get(3), Ok(&4));
    assert_eq!(list.get(4), Ok(&5));
    assert_eq!(list.get(5), Err(ChunkListError::IndexOutOfRange));
}

#[test]
fn get_moves_forward_over_empty_segments() {
    let mut list = filled(2, &[1, 2, 3, 4, 5]);
    list.remove_all(&1);
    list.remove_all(&2);
    list.remove_all(&3);
    list.remove_all(&4);
    assert_eq!(segments(&list), vec![vec![], vec![], vec![5]]);
    assert_eq!(list.len(), 1);
    assert_eq!(list.get(0), Ok(&5));
    assert_eq!(list.get(1), Err(ChunkListError::IndexOutOfRange));
}

#[test]
fn get_with_a_grown_chunk_size() {
    let mut list = filled(1, &[10, 20, 30]);
    assert_eq!(list.set_chunk_size(4), Ok(()));
    assert_eq!(segments(&list), vec![vec![10], vec![20], vec![30]]);
    assert_eq!(list.get(0), Ok(&10));
    assert_eq!(list.get(1), Ok(&20));
    assert_eq!(list.get(2), Ok(&20));
    assert_eq!(list.get(3), Err(ChunkListError::IndexOutOfRange));
}

#[test]
fn set_overwrites_the_element_found() {
    let mut list = filled(3, &[1, 2, 3, 4, 5, 6]);
    assert_eq!(list.set(4, 50), Ok(()));
    assert_eq!(segments(&list), vec![vec![1, 2, 3], vec![4, 50, 6]]);
    list.remove_all(&2);
    assert_eq!(segments(&list), vec![vec![1, 3], vec![4, 50, 6]]);
    assert_eq!(list.set(2, 40), Ok(()));
    assert_eq!(segments(&list), vec![vec![1, 3], vec![40, 50, 6]]);
    assert_eq!(list.len(), 5);
    assert_eq!(list.set(0, 10), Ok(()));
    assert_eq!(list.get_list(), vec![10, 3, 40, 50, 6]);
}

#[test]
fn set_beyond_the_end_is_refused() {
    let mut list = filled(3, &[1, 2, 3, 4]);
    assert_eq!(list.set(4, 9), Err(ChunkListError::IndexOutOfRange));
    assert_eq!(list.set(usize::MAX, 9), Err(ChunkListError::IndexOutOfRange));
    assert_eq!(segments(&list), vec![vec![1, 2, 3], vec![4]]);
}

#[test]
fn remove_at_in_packed_list_is_positional() {
    let mut list = filled(3, &[5, 1, 4, 1, 5, 9, 2, 6]);
    assert_eq!(list.remove_at(4), Ok(()));
    assert_eq!(segments(&list), vec![vec![5, 1, 4], vec![1, 9], vec![2, 6]]);
    assert_eq!(list.remove_at(0), Ok(()));
    assert_eq!(segments(&list), vec![vec![1, 4], vec![1, 9], vec![2, 6]]);
    assert_eq!(list.len(), 6);
}

#[test]
fn remove_at_moves_forward_over_missing_slots() {
    let mut list = filled(3, &[1, 2, 3, 4, 5, 6]);
    list.remove_all(&2);
    assert_eq!(segments(&list), vec![vec![1, 3], vec![4, 5, 6]]);
    assert_eq!(list.remove_at(2), Ok(()));
    assert_eq!(segments(&list), vec![vec![1, 3], vec![5, 6]]);
    assert_eq!(list.remove_at(2), Ok(()));
    assert_eq!(segments(&list), vec![vec![1, 3], vec![6]]);
    assert_eq!(list.remove_at(2), Ok(()));
    assert_eq!(segments(&list), vec![vec![1, 3], vec![]]);
    assert_eq!(list.remove_at(2), Err(ChunkListError::IndexOutOfRange));
    assert_eq!(list.len(), 2);
}

#[test]
fn remove_at_beyond_the_end_is_refused() {
    let mut list = filled(3, &[1, 2, 3, 4]);
    assert_eq!(list.remove_at(4), Err(ChunkListError::IndexOutOfRange));
    assert_eq!(list.remove_at(usize::MAX), Err(ChunkListError::IndexOutOfRange));
    assert_eq!(segments(&list), vec![vec![1, 2, 3], vec![4]]);
    let mut empty: ChunkList<i32> = ChunkList::new(3).unwrap();
    assert_eq!(empty.remove_at(0), Err(ChunkListError::IndexOutOfRange));
}

#[test]
fn get_chunk_gives_each_segment() {
    let list = filled(3, &[5, 1, 4, 1]);
    assert_eq!(list.get_chunk(0), Some(&vec![5, 1, 4]));
    assert_eq!(list.get_chunk(1), Some(&vec![1]));
    assert_eq!(list.get_chunk(2), None);
    assert_eq!(list.get_chunk(usize::MAX), None);
}

#[test]
fn huge_chunk_size_is_accepted() {
    let mut list = ChunkList::new(usize::MAX).unwrap();
    list.add(3);
    list.add(1);
    list.add(2);
    assert_eq!(list.chunk_amount(), 1);
    assert_eq!(list.get(2), Ok(&2));
    list.sort();
    assert_eq!(list.get_list(), vec![1, 2, 3]);
    assert_eq!(list.get_chunk_size(), usize::MAX);
}
