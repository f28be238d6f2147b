use buffer_utils::error::UtilsError;
use buffer_utils::vec_utils::{EqUtils, VecMapperUtils};

#[test]
fn eq_unorder_cases() {
    assert!(vec![1u64, 2, 3].eq_unorder(&vec![3, 1, 2]));
    assert!(vec![1u64, 1, 2].eq_unorder(&vec![1, 2, 1]));
    assert!(!vec![1u64, 1, 2].eq_unorder(&vec![1, 2, 2]));
    assert!(!vec![1u64, 2].eq_unorder(&vec![1, 2, 3]));
    assert!(Vec::<u64>::new().eq_unorder(&Vec::new()));
}

#[test]
fn find_index_counts_from_one() {
    let v = vec![5u64, 6, 7, 6];
    assert_eq!(v.find_index(&5), Some(1));
    assert_eq!(v.find_index(&6), Some(2));
    assert_eq!(v.find_index(&9), None);
}

#[test]
fn has_item_cases() {
    let v = vec![5u64, 6];
    assert!(v.has_item(&6));
    assert!(!v.has_item(&7));
}

#[test]
fn remove_item_swaps_last_in() {
    let mut v = vec![5u64, 6, 7, 8];
    assert_eq!(v.remove_item(&6), Ok(()));
    assert_eq!(v, vec![5, 8, 7]);
    assert_eq!(v.remove_item(&9), Err(UtilsError::ItemNotFound));
    assert_eq!(v, vec![5, 8, 7]);
}
