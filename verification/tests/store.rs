use balanced_shuffle::BalancedGroupShuffle;

fn test_data() -> BalancedGroupShuffle<&'static str, &'static str> {
    let mut shuffle = BalancedGroupShuffle::new();
    shuffle.insert("a", "a1");
    shuffle.insert("a", "a2");
    shuffle.insert("b", "b1");
    shuffle.insert("b", "b2");
    shuffle.insert("b", "b3");
    shuffle.insert("c", "c1");
    shuffle.insert("c", "c2");
    shuffle.insert("c", "c3");
    shuffle.insert("c", "c4");
    shuffle.insert("d", "d1");
    shuffle.insert("d", "d2");
    shuffle.insert("d", "d3");
    shuffle
}

fn owned(items: Vec<&&'static str>) -> Vec<&'static str> {
    items.into_iter().map(|item| *item).collect()
}

#[test]
fn test_insert() {
    let shuffle = test_data();
    assert!(shuffle.len() == 4);
    assert!(shuffle.values().len() == 12);
}

#[test]
fn test_shuffle() {
    let shuffle = test_data();
    assert!(shuffle.shuffle().len() == 12);
}

#[test]
fn counts_follow_the_insertions() {
    let shuffle = test_data();
    assert_eq!(shuffle.group_count(), 4);
    assert_eq!(shuffle.total_items(), 12);
    assert_eq!(shuffle.all_values().len(), 12);
    assert_eq!(shuffle.shuffle().len(), 12);
}

#[test]
fn all_values_lists_group_after_group() {
    let shuffle = test_data();
    assert_eq!(
        owned(shuffle.all_values()),
        vec!["a1", "a2", "b1", "b2", "b3", "c1", "c2", "c3", "c4", "d1", "d2", "d3"]
    );
    assert_eq!(shuffle.values(), owned(shuffle.all_values()));
}

#[test]
fn shuffle_interleaves_by_the_ring_rule() {
    let shuffle = test_data();
    assert_eq!(
        owned(shuffle.shuffle()),
        vec!["a1", "b1", "c1", "d1", "b2", "c2", "a2", "d2", "c3", "b3", "c4", "d3"]
    );
}

#[test]
fn shuffle_hands_out_every_item_once() {
    let shuffle = test_data();
    let out = owned(shuffle.shuffle());
    let literals = [
        "a1", "a2", "b1", "b2", "b3", "c1", "c2", "c3", "c4", "d1", "d2", "d3",
    ];
    for literal in literals {
        assert_eq!(out.iter().filter(|item| **item == literal).count(), 1);
    }
}

#[test]
fn disperse_is_another_name_for_shuffle() {
    let shuffle = test_data();
    assert_eq!(owned(shuffle.disperse()), owned(shuffle.shuffle()));
}

#[test]
fn shuffle_twice_gives_the_same_sequence() {
    let shuffle = test_data();
    let first = owned(shuffle.shuffle());
    let second = owned(shuffle.shuffle());
    assert_eq!(first, second);
    assert_eq!(shuffle.total_items(), 12);
}

#[test]
fn insert_returns_what_the_group_held_before() {
    let mut shuffle = BalancedGroupShuffle::new();
    assert_eq!(shuffle.insert("a", "a1"), None);
    assert_eq!(shuffle.insert("a", "a2"), Some(vec!["a1"]));
    assert_eq!(shuffle.insert("b", "b1"), None);
    assert_eq!(shuffle.insert("a", "a3"), Some(vec!["a1", "a2"]));
    assert_eq!(shuffle.group_count(), 2);
    assert_eq!(shuffle.total_items(), 4);
}

#[test]
fn groups_stand_in_the_order_in_which_their_keys_came() {
    let mut shuffle = BalancedGroupShuffle::new();
    shuffle.insert("z", "z1");
    shuffle.insert("a", "a1");
    shuffle.insert("z", "z2");
    assert_eq!(owned(shuffle.all_values()), vec!["z1", "z2", "a1"]);
    assert_eq!(owned(shuffle.shuffle()), vec!["z1", "z2", "a1"]);
}

#[test]
fn a_single_group_keeps_its_order() {
    let mut shuffle = BalancedGroupShuffle::new();
    for item in [5u32, 3, 9, 1, 7] {
        shuffle.insert("only", item);
    }
    let out: Vec<u32> = shuffle.shuffle().into_iter().map(|item| *item).collect();
    assert_eq!(out, vec![5, 3, 9, 1, 7]);
    assert_eq!(shuffle.group_count(), 1);
}

#[test]
fn an_empty_store_gives_an_empty_shuffle() {
    let shuffle: BalancedGroupShuffle<u8, u8> = BalancedGroupShuffle::new();
    assert_eq!(shuffle.total_items(), 0);
    assert_eq!(shuffle.group_count(), 0);
    assert!(shuffle.all_values().is_empty());
    assert!(shuffle.shuffle().is_empty());
    assert!(shuffle.group_sizes().is_empty());
}

#[test]
fn items_that_share_a_slot_all_stay() {
    let mut shuffle = BalancedGroupShuffle::new();
    for item in ["a1", "a2", "a3", "a4"] {
        shuffle.insert("a", item);
    }
    for item in ["b1", "b2"] {
        shuffle.insert("b", item);
    }
    assert_eq!(
        owned(shuffle.shuffle()),
        vec!["a1", "a2", "b1", "a3", "a4", "b2"]
    );
}

#[test]
fn zero_is_an_item_like_any_other() {
    let mut shuffle = BalancedGroupShuffle::new();
    shuffle.insert(0u8, 0i32);
    shuffle.insert(0u8, 0i32);
    shuffle.insert(1u8, 0i32);
    let out: Vec<i32> = shuffle.shuffle().into_iter().map(|item| *item).collect();
    assert_eq!(out, vec![0, 0, 0]);
}

#[test]
fn group_sizes_follow_the_groups() {
    let shuffle = test_data();
    assert_eq!(shuffle.group_sizes(), vec![2, 3, 4, 3]);
}

#[test]
fn arrange_reads_the_given_slots() {
    let shuffle = test_data();
    let slots = vec![11, 10, 9, 8, 7, 6, 5, 4, 3, 2, 1, 0];
    assert_eq!(
        owned(shuffle.arrange(&slots)),
        vec!["d3", "d2", "d1", "c4", "c3", "c2", "c1", "b3", "b2", "b1", "a2", "a1"]
    );
    let one_slot = vec![4; 12];
    assert_eq!(owned(shuffle.arrange(&one_slot)), owned(shuffle.all_values()));
}

#[test]
fn from_groups_files_batch_after_batch() {
    let shuffle = BalancedGroupShuffle::from_groups(vec![
        ("a", vec!["a1", "a2"]),
        ("b", vec!["b1", "b2", "b3"]),
        ("c", vec!["c1", "c2", "c3", "c4"]),
        ("d", vec!["d1", "d2", "d3"]),
    ]);
    assert_eq!(shuffle.group_count(), 4);
    assert_eq!(shuffle.total_items(), 12);
    assert_eq!(owned(shuffle.shuffle()), owned(test_data().shuffle()));
}

#[test]
fn from_groups_joins_batches_under_one_key_and_drops_empty_ones() {
    let shuffle = BalancedGroupShuffle::from_groups(vec![
        ("a", vec!["a1", "a2"]),
        ("b", vec![]),
        ("c", vec!["c1"]),
        ("a", vec!["a3"]),
    ]);
    assert_eq!(shuffle.group_count(), 2);
    assert_eq!(shuffle.total_items(), 4);
    assert_eq!(owned(shuffle.all_values()), vec!["a1", "a2", "a3", "c1"]);
    assert_eq!(shuffle.group_sizes(), vec![3, 1]);
}

#[test]
fn from_groups_of_nothing_is_an_empty_store() {
    let shuffle: BalancedGroupShuffle<u8, u8> = BalancedGroupShuffle::from_groups(vec![]);
    assert_eq!(shuffle.group_count(), 0);
    assert!(shuffle.shuffle().is_empty());
}
