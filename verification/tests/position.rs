use balanced_shuffle::disperse::disperse;
use balanced_shuffle::error::ShuffleError;
use balanced_shuffle::position::{assign_ring, ring_slot, spread, sum_sizes};

#[test]
fn spread_is_the_floor_of_the_ratio() {
    assert_eq!(spread(12, 2), Ok(6));
    assert_eq!(spread(12, 3), Ok(4));
    assert_eq!(spread(12, 5), Ok(2));
    assert_eq!(spread(12, 12), Ok(1));
    assert_eq!(spread(3, 5), Ok(0));
}

#[test]
fn spread_refuses_an_empty_group() {
    assert_eq!(spread(12, 0), Err(ShuffleError::EmptyGroup));
    assert_eq!(spread(0, 0), Err(ShuffleError::EmptyGroup));
}

#[test]
fn ring_slot_steps_by_the_spread_and_wraps() {
    assert_eq!(ring_slot(12, 6, 0, 0), 0);
    assert_eq!(ring_slot(12, 6, 0, 1), 6);
    assert_eq!(ring_slot(12, 4, 1, 2), 9);
    assert_eq!(ring_slot(12, 3, 2, 3), 11);
    assert_eq!(ring_slot(12, 4, 3, 2), 11);
    assert_eq!(ring_slot(4, 2, 3, 1), 1);
    assert_eq!(ring_slot(5, 7, 4, 3), 0);
}

#[test]
fn ring_slot_holds_for_the_largest_numbers() {
    assert_eq!(ring_slot(usize::MAX, usize::MAX, usize::MAX, usize::MAX), 0);
    assert_eq!(ring_slot(usize::MAX, 1, usize::MAX, 1), 1);
}

#[test]
fn sum_sizes_adds_up() {
    assert_eq!(sum_sizes(&vec![2, 3, 4, 3]), 12);
    assert_eq!(sum_sizes(&vec![]), 0);
    assert_eq!(sum_sizes(&vec![0, 0]), 0);
}

#[test]
fn assign_ring_places_group_after_group() {
    assert_eq!(
        assign_ring(&vec![2, 3, 4, 3]),
        Ok(vec![0, 6, 1, 5, 9, 2, 5, 8, 11, 3, 7, 11])
    );
    assert_eq!(assign_ring(&vec![5]), Ok(vec![0, 1, 2, 3, 4]));
    assert_eq!(assign_ring(&vec![]), Ok(vec![]));
}

#[test]
fn assign_ring_refuses_an_empty_group() {
    assert_eq!(assign_ring(&vec![2, 0, 1]), Err(ShuffleError::EmptyGroup));
    assert_eq!(assign_ring(&vec![0]), Err(ShuffleError::EmptyGroup));
}

#[test]
fn disperse_reads_slot_after_slot() {
    assert_eq!(
        disperse(&vec![0, 6, 1, 5, 9, 2, 5, 8, 11, 3, 7, 11]),
        vec![0, 2, 5, 9, 3, 6, 1, 10, 7, 4, 8, 11]
    );
    assert_eq!(disperse(&vec![]), Vec::<usize>::new());
}

#[test]
fn disperse_keeps_the_items_of_one_slot_in_order() {
    assert_eq!(disperse(&vec![2, 2, 2, 2]), vec![0, 1, 2, 3]);
    assert_eq!(disperse(&vec![3, 0, 3, 0]), vec![1, 3, 0, 2]);
}
