use circular_array::{CircularArray, IndexOutOfRange};

#[test]
fn test_push() {
    let mut arr = CircularArray::<3, u32>::new();
    arr.push(1);
    arr.push(2);
    arr.push(3);
    assert_eq!(*arr.storage(), [1, 2, 3]);
    arr.push(4);
    assert_eq!(*arr.storage(), [4, 2, 3]);
}

#[test]
#[allow(non_snake_case)]
fn test_Index_and_IndexMut() {
    let mut arr = CircularArray::<3, u32>::new();
    arr.push(0);
    arr.push(0);
    arr.push(0);
    arr.push(0);
    arr.push(0);
    arr[0] = 1;
    arr[1] = 2;
    arr[2] = 3;
    assert_eq!(arr[0], 1);
    assert_eq!(arr[1], 2);
    assert_eq!(arr[2], 3);
}

#[test]
fn test_to_array() {
    let mut arr = CircularArray::<3, u32>::new();
    arr.push(1);
    arr.push(2);
    arr.push(3);
    assert_eq!(arr.to_array(), [1, 2, 3]);
    arr.push(4);
    assert_eq!(arr.to_array(), [2, 3, 4]);
}

#[test]
fn test_last() {
    let mut arr = CircularArray::<3, u32>::new();
    assert_eq!(arr.last(), None);
    arr.push(1);
    assert_eq!(arr.last(), Some(1).as_ref());
    arr.push(2);
    arr.push(3);
    arr.push(4);
    assert_eq!(arr.last(), Some(4).as_ref());
}

#[test]
fn test_len() {
    let mut arr = CircularArray::<3, u32>::new();
    assert_eq!(arr.len(), 0);
    arr.push(1);
    assert_eq!(arr.len(), 1);
    arr.push(2);
    arr.push(3);
    arr.push(4);
    assert_eq!(arr.len(), 4);
}

#[test]
fn new_buffer_is_empty() {
    let arr = CircularArray::<3, u32>::new();
    assert_eq!(arr.last(), None);
    assert_eq!(arr.len(), 0);
    assert_eq!(arr.get(0), None);
    assert_eq!(arr.iter().next(), None);
}

#[test]
fn new_buffer_holds_defaults_in_every_slot() {
    let arr = CircularArray::<4, u32>::new();
    assert_eq!(*arr.storage(), [0, 0, 0, 0]);
    assert_eq!(arr.to_array(), [0, 0, 0, 0]);
    let flags = CircularArray::<2, bool>::new();
    assert_eq!(flags.to_array(), [false, false]);
}

#[test]
fn to_array_while_filling_keeps_unwritten_slots_at_the_end() {
    let mut arr = CircularArray::<4, u32>::new();
    arr.push(7);
    assert_eq!(arr.to_array(), [7, 0, 0, 0]);
    arr.push(8);
    assert_eq!(arr.to_array(), [7, 8, 0, 0]);
}

#[test]
fn to_array_after_wrapping_is_the_newest_items_in_push_order() {
    let mut arr = CircularArray::<4, u32>::new();
    for v in 1..=10u32 {
        arr.push(v);
    }
    assert_eq!(arr.to_array(), [7, 8, 9, 10]);
    assert_eq!(*arr.storage(), [9, 10, 7, 8]);
}

#[test]
fn to_array_after_a_whole_number_of_turns_is_the_storage() {
    let mut arr = CircularArray::<3, u32>::new();
    for v in 1..=6u32 {
        arr.push(v);
    }
    assert_eq!(*arr.storage(), [4, 5, 6]);
    assert_eq!(arr.to_array(), [4, 5, 6]);
}

#[test]
fn to_array_always_has_one_entry_per_slot() {
    let mut arr = CircularArray::<5, u8>::new();
    assert_eq!(arr.to_array().len(), 5);
    for v in 0..12u8 {
        arr.push(v);
        assert_eq!(arr.to_array().len(), 5);
    }
}

#[test]
fn len_counts_every_push() {
    let mut arr = CircularArray::<4, u32>::new();
    for k in 1..=10usize {
        arr.push(0);
        assert_eq!(arr.len(), k);
    }
}

#[test]
fn last_is_the_latest_push() {
    let mut arr = CircularArray::<3, u32>::new();
    for v in 10..20u32 {
        arr.push(v);
        assert_eq!(arr.last(), Some(&v));
    }
}

#[test]
fn get_reads_logical_order_while_filling() {
    let mut arr = CircularArray::<4, u32>::new();
    arr.push(5);
    arr.push(6);
    assert_eq!(arr.get(0), Some(&5));
    assert_eq!(arr.get(1), Some(&6));
    assert_eq!(arr.get(2), None);
    assert_eq!(arr.get(3), None);
    assert_eq!(arr.get(4), None);
}

#[test]
fn get_reads_logical_order_after_wrapping() {
    let mut arr = CircularArray::<3, u32>::new();
    for v in 1..=5u32 {
        arr.push(v);
    }
    assert_eq!(arr.get(0), Some(&3));
    assert_eq!(arr.get(1), Some(&4));
    assert_eq!(arr.get(2), Some(&5));
    assert_eq!(arr.get(3), None);
    assert_eq!(arr.get(usize::MAX), None);
    assert_eq!(arr[0], 3);
    assert_eq!(arr[2], 5);
}

#[test]
fn set_then_get_while_filling() {
    let mut arr = CircularArray::<4, u32>::new();
    arr.push(1);
    arr.push(2);
    assert_eq!(arr.set(1, 20), Ok(()));
    assert_eq!(arr.get(1), Some(&20));
    assert_eq!(arr.get(0), Some(&1));
    assert_eq!(arr.len(), 2);
    assert_eq!(arr.to_array(), [1, 20, 0, 0]);
}

#[test]
fn set_then_get_after_wrapping() {
    let mut arr = CircularArray::<3, u32>::new();
    for v in 1..=4u32 {
        arr.push(v);
    }
    assert_eq!(arr.set(0, 20), Ok(()));
    assert_eq!(arr.get(0), Some(&20));
    assert_eq!(arr.to_array(), [20, 3, 4]);
    assert_eq!(*arr.storage(), [4, 20, 3]);
    assert_eq!(arr.set(2, 40), Ok(()));
    assert_eq!(arr.get(2), Some(&40));
    assert_eq!(arr.to_array(), [20, 3, 40]);
    assert_eq!(arr.len(), 4);
}

#[test]
fn set_out_of_range_is_refused_and_changes_nothing() {
    let mut arr = CircularArray::<3, u32>::new();
    arr.push(1);
    assert_eq!(arr.set(1, 9), Err(IndexOutOfRange { index: 1, live: 1 }));
    assert_eq!(arr.set(3, 9), Err(IndexOutOfRange { index: 3, live: 1 }));
    assert_eq!(arr.to_array(), [1, 0, 0]);
    assert_eq!(arr.len(), 1);
    arr.push(2);
    arr.push(3);
    arr.push(4);
    assert_eq!(arr.set(3, 9), Err(IndexOutOfRange { index: 3, live: 3 }));
    assert_eq!(arr.to_array(), [2, 3, 4]);
    assert_eq!(arr.len(), 4);
}

#[test]
fn index_mut_writes_in_place_while_filling() {
    let mut arr = CircularArray::<4, u32>::new();
    arr.push(1);
    arr.push(2);
    arr[0] = 10;
    arr[1] += 5;
    assert_eq!(arr[0], 10);
    assert_eq!(arr[1], 7);
    assert_eq!(*arr.storage(), [10, 7, 0, 0]);
}

#[test]
fn push_after_set_overwrites_the_oldest() {
    let mut arr = CircularArray::<3, u32>::new();
    for v in 1..=3u32 {
        arr.push(v);
    }
    arr[0] = 100;
    arr.push(4);
    assert_eq!(arr.to_array(), [2, 3, 4]);
    assert_eq!(arr.last(), Some(&4));
}

#[test]
fn capacity_one_keeps_only_the_latest() {
    let mut arr = CircularArray::<1, u32>::new();
    assert_eq!(arr.last(), None);
    arr.push(1);
    assert_eq!(arr.to_array(), [1]);
    arr.push(2);
    assert_eq!(arr.to_array(), [2]);
    assert_eq!(arr.last(), Some(&2));
    assert_eq!(arr.get(0), Some(&2));
    assert_eq!(arr.get(1), None);
    assert_eq!(arr.len(), 2);
}

#[test]
fn capacity_zero_holds_nothing() {
    let mut arr = CircularArray::<0, u32>::new();
    arr.push(1);
    arr.push(2);
    assert_eq!(arr.len(), 2);
    assert_eq!(arr.to_array(), [0u32; 0]);
    assert_eq!(arr.last(), None);
    assert_eq!(arr.get(0), None);
    assert_eq!(arr.set(0, 5), Err(IndexOutOfRange { index: 0, live: 0 }));
    assert_eq!(arr.iter().next(), None);
}

#[test]
fn scenario_of_three_slots() {
    let mut arr = CircularArray::<3, u32>::new();
    arr.push(1);
    arr.push(2);
    arr.push(3);
    assert_eq!(arr.to_array(), [1, 2, 3]);
    arr.push(4);
    assert_eq!(arr.to_array(), [2, 3, 4]);
    assert_eq!(arr.last(), Some(&4));
    assert_eq!(arr.len(), 4);
    let mut seen = Vec::new();
    let mut sum = 0;
    let mut it = arr.iter();
    while let Some(&item) = it.next() {
        seen.push(item);
        sum += item;
    }
    assert_eq!(seen, vec![2, 3, 4]);
    assert_eq!(sum, 9);
}
