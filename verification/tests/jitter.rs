use balanced_shuffle::error::ShuffleError;
use balanced_shuffle::jitter::{
    assign_jittered, draw_offsets, jittered_slot, JitterConfig, ShuffleMode,
};
use balanced_shuffle::store::BalancedGroupShuffle;

fn fraction(numerator: u64, denominator: u64) -> JitterConfig {
    match JitterConfig::new(numerator, denominator) {
        Ok(config) => config,
        Err(_) => panic!("not a proper fraction"),
    }
}

fn twelve() -> BalancedGroupShuffle<&'static str, &'static str> {
    BalancedGroupShuffle::from_groups(vec![
        ("a", vec!["a1", "a2"]),
        ("b", vec!["b1", "b2", "b3"]),
        ("c", vec!["c1", "c2", "c3", "c4"]),
        ("d", vec!["d1", "d2", "d3"]),
    ])
}

fn hundred() -> BalancedGroupShuffle<u32, u32> {
    let mut store = BalancedGroupShuffle::new();
    for item in 0..100u32 {
        store.insert(item % 7, item);
    }
    store
}

fn owned(items: Vec<&&'static str>) -> Vec<&'static str> {
    items.into_iter().map(|item| *item).collect()
}

fn numbers(items: Vec<&u32>) -> Vec<u32> {
    items.into_iter().map(|item| *item).collect()
}

#[test]
fn a_fraction_must_lie_between_zero_and_one() {
    assert!(JitterConfig::new(1, 20).is_ok());
    assert!(JitterConfig::new(19, 20).is_ok());
    assert!(matches!(
        JitterConfig::new(0, 20),
        Err(ShuffleError::InvalidJitterConfig)
    ));
    assert!(matches!(
        JitterConfig::new(20, 20),
        Err(ShuffleError::InvalidJitterConfig)
    ));
    assert!(matches!(
        JitterConfig::new(21, 20),
        Err(ShuffleError::InvalidJitterConfig)
    ));
    assert!(matches!(
        JitterConfig::new(1, 0),
        Err(ShuffleError::InvalidJitterConfig)
    ));
    assert!(matches!(
        JitterConfig::new(0, 0),
        Err(ShuffleError::InvalidJitterConfig)
    ));
}

#[test]
fn a_config_keeps_its_fraction() {
    let config = fraction(3, 8);
    assert_eq!(config.numerator(), 3);
    assert_eq!(config.denominator(), 8);
}

#[test]
fn the_default_fraction_is_a_twentieth() {
    let config = JitterConfig::default();
    assert_eq!(config.numerator(), 1);
    assert_eq!(config.denominator(), 20);
}

#[test]
fn the_radius_is_the_fraction_of_the_ring_rounded_down() {
    let config = JitterConfig::default();
    assert_eq!(config.radius(100), 5);
    assert_eq!(config.radius(40), 2);
    assert_eq!(config.radius(39), 1);
    assert_eq!(config.radius(12), 0);
    assert_eq!(config.radius(0), 0);
    assert_eq!(fraction(1, 2).radius(7), 3);
    assert_eq!(
        fraction(u64::MAX - 1, u64::MAX).radius(usize::MAX),
        usize::MAX - 1
    );
}

#[test]
fn the_first_item_of_a_group_takes_its_draw_as_its_slot() {
    assert_eq!(jittered_slot(12, 4, 6, 0, 0, 0), 0);
    assert_eq!(jittered_slot(12, 4, 6, 0, 0, 3), 3);
    assert_eq!(jittered_slot(12, 4, 6, 0, 0, 7), 3);
    assert_eq!(jittered_slot(12, 1, 12, 5, 0, 99), 0);
}

#[test]
fn a_later_item_lands_in_the_window_round_its_even_place() {
    assert_eq!(jittered_slot(100, 4, 10, 5, 1, 0), 5);
    assert_eq!(jittered_slot(100, 4, 10, 5, 1, 5), 10);
    assert_eq!(jittered_slot(100, 4, 10, 5, 1, 10), 15);
    assert_eq!(jittered_slot(100, 4, 10, 5, 1, 11), 5);
    assert_eq!(jittered_slot(100, 4, 10, 5, 3, 7), 32);
}

#[test]
fn the_window_wraps_around_the_ring() {
    assert_eq!(jittered_slot(100, 4, 2, 5, 1, 0), 97);
    assert_eq!(jittered_slot(100, 4, 2, 5, 1, 3), 0);
    assert_eq!(jittered_slot(10, 2, 3, 2, 3, 4), 1);
}

#[test]
fn a_window_of_one_place_is_the_even_place() {
    assert_eq!(jittered_slot(12, 4, 4, 0, 2, 0), 8);
    assert_eq!(jittered_slot(12, 4, 4, 0, 2, 999), 8);
    assert_eq!(jittered_slot(12, 4, 4, 0, 5, 1), 8);
}

#[test]
fn assign_jittered_places_by_the_draws() {
    let config = JitterConfig::default();
    let sizes = vec![2, 3, 4, 3];
    assert_eq!(
        assign_jittered(&sizes, &config, &vec![0; 12]),
        Ok(vec![0, 6, 0, 4, 8, 0, 3, 6, 9, 0, 4, 8])
    );
    let counting: Vec<u128> = (0..12).collect();
    assert_eq!(
        assign_jittered(&sizes, &config, &counting),
        Ok(vec![0, 6, 2, 4, 8, 1, 3, 6, 9, 1, 4, 8])
    );
    assert_eq!(
        assign_jittered(&vec![2, 2], &fraction(1, 2), &vec![1, 4, 0, 0]),
        Ok(vec![1, 0, 0, 0])
    );
}

#[test]
fn assign_jittered_refuses_an_empty_group() {
    let config = JitterConfig::default();
    assert_eq!(
        assign_jittered(&vec![1, 0, 2], &config, &vec![0, 0, 0]),
        Err(ShuffleError::EmptyGroup)
    );
}

#[test]
fn shuffle_with_draws_reads_the_jittered_slots() {
    let store = twelve();
    let config = JitterConfig::default();
    let counting: Vec<u128> = (0..12).collect();
    assert_eq!(
        owned(store.shuffle_with_draws(&config, &counting)),
        vec!["a1", "c1", "d1", "b1", "c2", "b2", "d2", "a2", "c3", "b3", "d3", "c4"]
    );
    let mut pair = BalancedGroupShuffle::new();
    for item in ["a1", "a2"] {
        pair.insert("a", item);
    }
    for item in ["b1", "b2"] {
        pair.insert("b", item);
    }
    assert_eq!(
        owned(pair.shuffle_with_draws(&fraction(1, 2), &vec![1, 4, 0, 0])),
        vec!["a2", "b1", "b2", "a1"]
    );
}

#[test]
fn every_draw_lies_below_its_span() {
    let config = fraction(1, 2);
    let sizes = vec![3, 3, 4];
    for seed in [0u64, 1, 2, 1_000_000, u64::MAX] {
        let draws = draw_offsets(&sizes, &config, seed);
        assert_eq!(draws.len(), 10);
        let firsts = [0usize, 3, 6];
        for (k, draw) in draws.iter().enumerate() {
            if firsts.contains(&k) {
                assert!(*draw < 3);
            } else {
                assert!(*draw < 11);
            }
        }
    }
}

#[test]
fn nothing_is_drawn_where_one_place_is_open() {
    let config = JitterConfig::default();
    assert_eq!(draw_offsets(&vec![4], &config, 77), vec![0, 0, 0, 0]);
}

#[test]
fn a_seed_settles_the_draws() {
    let config = fraction(1, 3);
    let sizes = vec![20, 30, 50];
    let first = draw_offsets(&sizes, &config, 42);
    let second = draw_offsets(&sizes, &config, 42);
    assert_eq!(first, second);
    let mut differing = 0;
    for seed in 0..8u64 {
        if draw_offsets(&sizes, &config, seed) != first {
            differing += 1;
        }
    }
    assert!(differing > 0);
    let mut distinct = first.clone();
    distinct.sort();
    distinct.dedup();
    assert!(distinct.len() > 1);
}

#[test]
fn a_seed_settles_the_jittered_shuffle() {
    let store = hundred();
    let config = JitterConfig::default();
    let first = numbers(store.shuffle_jittered(&config, 7));
    let second = numbers(store.shuffle_jittered(&config, 7));
    assert_eq!(first, second);
}

#[test]
fn a_jittered_shuffle_hands_out_every_item_once() {
    let store = hundred();
    let config = fraction(1, 4);
    for seed in 0..10u64 {
        let mut out = numbers(store.shuffle_jittered(&config, seed));
        assert_eq!(out.len(), 100);
        out.sort();
        let all: Vec<u32> = (0..100).collect();
        assert_eq!(out, all);
    }
}

#[test]
fn a_jittered_shuffle_of_the_twelve_holds_them_all() {
    let store = twelve();
    let config = fraction(1, 3);
    for seed in [3u64, 14, 15, 92] {
        let mut out = owned(store.shuffle_jittered(&config, seed));
        assert_eq!(out.len(), 12);
        out.sort();
        assert_eq!(
            out,
            vec!["a1", "a2", "b1", "b2", "b3", "c1", "c2", "c3", "c4", "d1", "d2", "d3"]
        );
    }
}

#[test]
fn a_jittered_shuffle_of_nothing_is_empty() {
    let store: BalancedGroupShuffle<u8, u8> = BalancedGroupShuffle::new();
    let config = JitterConfig::default();
    assert!(store.shuffle_jittered(&config, 1).is_empty());
    assert!(store.shuffle_with_draws(&config, &vec![]).is_empty());
}

#[test]
fn the_mode_picks_the_rule() {
    let store = hundred();
    let config = fraction(1, 4);
    assert_eq!(
        numbers(store.shuffle_in(&ShuffleMode::Deterministic)),
        numbers(store.shuffle())
    );
    assert_eq!(
        numbers(store.shuffle_in(&ShuffleMode::Jittered { config, seed: 9 })),
        numbers(store.shuffle_jittered(&config, 9))
    );
}

#[test]
fn jitter_moves_items_off_their_even_places() {
    let store = hundred();
    let config = fraction(1, 4);
    let even = numbers(store.shuffle());
    let mut moved = 0;
    for seed in 0..8u64 {
        if numbers(store.shuffle_jittered(&config, seed)) != even {
            moved += 1;
        }
    }
    assert!(moved > 0);
}
