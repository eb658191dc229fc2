use humansort::{
    pick_indices, rank_of, sort_by_rating, warp_index, HumansortError, HumansortItem,
    HumansortState, DEFAULT_NUM_ITEMS, DRAW_RANGE, ZERO_RATING,
};

fn names(list: &[&str]) -> Vec<String> {
    list.iter().map(|s| s.to_string()).collect()
}

fn values(state: &HumansortState) -> Vec<String> {
    state.get_all_items().iter().map(|i| i.value().clone()).collect()
}

fn ratings(state: &HumansortState) -> Vec<f32> {
    state.get_all_items().iter().map(|i| f32::from_bits(i.rating_bits())).collect()
}

fn item(value: &str, rating: f32) -> HumansortItem {
    HumansortItem::new(value.to_string(), rating.to_bits())
}

/// The expected score of the winner against a loser.
fn expected_score(loser: f32, winner: f32) -> f32 {
    1. / (1. + 10_f32.powf(loser - winner))
}

/// New ratings for a judgment, computed from the ratings before it.
fn outcome(before: &[HumansortItem]) -> Vec<HumansortItem> {
    let winner = f32::from_bits(before[0].rating_bits());
    let mut increase = 0.;
    let mut out = vec![before[0].clone()];
    for loser in &before[1..] {
        let rating = f32::from_bits(loser.rating_bits());
        let expected = expected_score(rating, winner);
        out.push(HumansortItem::new(loser.value().clone(), (rating - expected).to_bits()));
        increase += expected;
    }
    out[0] = HumansortItem::new(before[0].value().clone(), (winner + increase).to_bits());
    out
}

fn judge(state: &mut HumansortState, order: &[&str]) {
    let before = state.judged_items(&names(order)).unwrap();
    state.update(&outcome(&before)).unwrap();
}

#[test]
fn from_items_keeps_first_occurrences() {
    let state = HumansortState::from_items(&names(&["b", "a", "b", "c", "a", ""]));
    assert_eq!(values(&state), names(&["b", "a", "c", ""]));
    assert!(ratings(&state).iter().all(|r| *r == 0.0));
    assert_eq!(state.num_items(), DEFAULT_NUM_ITEMS);
}

#[test]
fn from_items_empty() {
    let state = HumansortState::from_items(&[]);
    assert!(state.get_all_items().is_empty());
    assert_eq!(HumansortState::new(), state);
    assert_eq!(HumansortState::default(), state);
}

#[test]
fn next_returns_distinct_known_values() {
    let list = names(&["a", "b", "c", "d", "e", "f", "g", "h", "i", "j", "k"]);
    let state = HumansortState::from_items(&list);
    for _ in 0..50 {
        let batch = state.next().unwrap();
        assert_eq!(batch.len(), 5);
        for (k, v) in batch.iter().enumerate() {
            assert!(list.contains(v));
            assert!(!batch[..k].contains(v));
        }
    }
}

#[test]
fn next_with_as_many_items_as_the_batch() {
    let list = names(&["a", "b"]);
    let mut state = HumansortState::from_items(&list);
    state.set_num_items(2).unwrap();
    let mut batch = state.next().unwrap();
    batch.sort();
    assert_eq!(batch, list);
}

#[test]
fn next_draws_vary() {
    let list: Vec<String> = (0..30).map(|i| format!("item{}", i)).collect();
    let mut state = HumansortState::from_items(&list);
    state.set_num_items(2).unwrap();
    let first = state.next().unwrap();
    let varied = (0..200).any(|_| state.next().unwrap() != first);
    assert!(varied);
}

#[test]
fn next_insufficient_items() {
    let state = HumansortState::from_items(&names(&["a", "b", "c", "d"]));
    assert_eq!(state.next(), Err(HumansortError::InsufficientItems));
    assert_eq!(state.next_from_draws(&[1, 2, 3]), Err(HumansortError::InsufficientItems));
}

#[test]
fn next_from_draws_exact() {
    let list: Vec<String> = (0..10).map(|i| format!("i{}", i)).collect();
    let state = HumansortState::from_items(&list);
    let batch = state.next_from_draws(&[0, 0, 65535, 30000, 50000, 16384]).unwrap();
    assert_eq!(batch, names(&["i0", "i9", "i2", "i5", "i1"]));
    let filled = state.next_from_draws(&[]).unwrap();
    assert_eq!(filled, names(&["i0", "i1", "i2", "i3", "i4"]));
}

#[test]
fn warp_index_values() {
    assert_eq!(warp_index(0, 10), 0);
    assert_eq!(warp_index(16384, 10), 2);
    assert_eq!(warp_index(16385, 10), 2);
    assert_eq!(warp_index(30000, 10), 2);
    assert_eq!(warp_index(50000, 10), 5);
    assert_eq!(warp_index(60000, 10), 7);
    assert_eq!(warp_index(DRAW_RANGE - 1, 10), 9);
    assert_eq!(warp_index(DRAW_RANGE - 1, 1), 0);
}

#[test]
fn pick_indices_distinct() {
    assert_eq!(pick_indices(&[65535, 65535, 0], 10, 3), vec![9, 0, 1]);
    assert_eq!(pick_indices(&[7, 7, 7], 3, 3), vec![0, 1, 2]);
}

#[test]
fn judgment_with_equal_priors() {
    let mut state = HumansortState::from_items(&names(&["A", "B", "C"]));
    let before = state.judged_items(&names(&["B", "A", "C"])).unwrap();
    assert_eq!(before, vec![item("B", 0.0), item("A", 0.0), item("C", 0.0)]);
    let after = outcome(&before);
    assert_eq!(after, vec![item("B", 1.0), item("A", -0.5), item("C", -0.5)]);
    state.update(&after).unwrap();
    assert_eq!(values(&state), names(&["B", "A", "C"]));
    assert_eq!(ratings(&state), vec![1.0, -0.5, -0.5]);
}

#[test]
fn judgment_against_unequal_ratings() {
    let mut state = HumansortState::from_items(&names(&["A", "B", "C"]));
    judge(&mut state, &["B", "A", "C"]);
    judge(&mut state, &["C", "B"]);
    let expected = 1. / (1. + 10_f32.powf(1.0 - (-0.5)));
    assert_eq!(values(&state), names(&["B", "C", "A"]));
    assert_eq!(ratings(&state), vec![1.0 - expected, -0.5 + expected, -0.5]);
}

#[test]
fn update_too_few_items() {
    let mut state = HumansortState::from_items(&names(&["A", "B"]));
    let copy = state.clone();
    assert_eq!(state.judged_items(&names(&["A"])), Err(HumansortError::TooFewItems));
    assert_eq!(state.update(&[item("A", 1.0)]), Err(HumansortError::TooFewItems));
    assert_eq!(state.update(&[]), Err(HumansortError::TooFewItems));
    assert_eq!(state, copy);
}

#[test]
fn update_unknown_item() {
    let mut state = HumansortState::from_items(&names(&["A", "B"]));
    let copy = state.clone();
    assert_eq!(state.judged_items(&names(&["A", "Z"])), Err(HumansortError::UnknownItem));
    assert_eq!(
        state.update(&[item("A", 1.0), item("Z", -1.0)]),
        Err(HumansortError::UnknownItem)
    );
    assert_eq!(state, copy);
}

#[test]
fn save_and_restore_round_trip() {
    let mut state = HumansortState::from_items(&names(&["A", "B", "C", "D"]));
    judge(&mut state, &["C", "A", "D"]);
    state.set_num_items(3).unwrap();
    let restored = HumansortState::from_saved(state.get_all_items(), state.num_items()).unwrap();
    assert_eq!(restored.get_all_items(), state.get_all_items());
    assert_eq!(restored.num_items(), 3);
}

#[test]
fn restore_sorts_and_rejects() {
    let restored = HumansortState::from_saved(
        vec![item("x", -1.0), item("y", 2.0), item("z", 0.0), item("w", 2.0)],
        4,
    )
    .unwrap();
    assert_eq!(values(&restored), names(&["y", "w", "z", "x"]));
    assert_eq!(
        HumansortState::from_saved(vec![item("x", 0.0)], 1),
        Err(HumansortError::InvalidBatchSize)
    );
    assert_eq!(
        HumansortState::from_saved(vec![item("x", 0.0), item("x", 1.0)], 5),
        Err(HumansortError::DuplicateItem)
    );
}

#[test]
fn merge_is_idempotent() {
    let mut state = HumansortState::from_items(&names(&["A", "B", "C"]));
    judge(&mut state, &["C", "A", "B"]);
    let list = names(&["D", "C", "A", "D", "E"]);
    state.merge(&list);
    let once = state.clone();
    state.merge(&list);
    assert_eq!(state, once);
}

#[test]
fn merge_keeps_ratings_of_listed_items() {
    let mut state = HumansortState::from_items(&names(&["A", "B", "C"]));
    judge(&mut state, &["C", "A", "B"]);
    state.merge(&names(&["D", "C", "A", "D", "E"]));
    assert_eq!(values(&state), names(&["C", "D", "E", "A"]));
    assert_eq!(ratings(&state), vec![1.0, 0.0, 0.0, -0.5]);
}

#[test]
fn remove_then_add_resets_rating() {
    let mut state = HumansortState::from_items(&names(&["A", "B", "C", "D"]));
    judge(&mut state, &["C", "A", "B"]);
    assert_eq!(values(&state), names(&["C", "D", "A", "B"]));
    state.remove_item(&"C".to_string()).unwrap();
    assert_eq!(values(&state), names(&["D", "A", "B"]));
    state.add_item(&"C".to_string()).unwrap();
    assert_eq!(values(&state), names(&["D", "C", "A", "B"]));
    assert_eq!(f32::from_bits(state.get_all_items()[1].rating_bits()), 0.0);
}

#[test]
fn add_item_rejects_duplicates() {
    let mut state = HumansortState::from_items(&names(&["A"]));
    assert_eq!(state.add_item(&"A".to_string()), Err(HumansortError::DuplicateItem));
    assert_eq!(state.add_item(&"B".to_string()), Ok(()));
    assert_eq!(values(&state), names(&["A", "B"]));
}

#[test]
fn remove_unknown_item() {
    let mut state = HumansortState::from_items(&names(&["A"]));
    assert_eq!(state.remove_item(&"B".to_string()), Err(HumansortError::UnknownItem));
    assert_eq!(values(&state), names(&["A"]));
}

#[test]
fn rename_item_cases() {
    let mut state = HumansortState::from_items(&names(&["A", "B"]));
    judge(&mut state, &["B", "A"]);
    assert_eq!(
        state.rename_item(&"Z".to_string(), &"Y".to_string()),
        Err(HumansortError::UnknownItem)
    );
    assert_eq!(
        state.rename_item(&"A".to_string(), &"B".to_string()),
        Err(HumansortError::DuplicateItem)
    );
    assert_eq!(state.rename_item(&"A".to_string(), &"A".to_string()), Ok(()));
    assert_eq!(state.rename_item(&"A".to_string(), &"C".to_string()), Ok(()));
    assert_eq!(values(&state), names(&["B", "C"]));
    assert_eq!(ratings(&state), vec![0.5, -0.5]);
}

#[test]
fn batch_size_bounds() {
    let mut state = HumansortState::new();
    assert_eq!(state.set_num_items(1), Err(HumansortError::InvalidBatchSize));
    assert_eq!(state.set_num_items(10), Err(HumansortError::InvalidBatchSize));
    assert_eq!(state.num_items(), DEFAULT_NUM_ITEMS);
    assert_eq!(state.set_num_items(2), Ok(()));
    assert_eq!(state.num_items(), 2);
    assert_eq!(state.set_num_items(9), Ok(()));
    assert_eq!(state.num_items(), 9);
}

#[test]
fn ranked_read_out() {
    let mut state = HumansortState::from_items(&names(&["A", "B", "C"]));
    judge(&mut state, &["B", "A"]);
    let mut out = Vec::new();
    while let Some(i) = state.next_ranked() {
        out.push(i.to_string());
    }
    assert_eq!(out, names(&["B", "C", "A"]));
    assert_eq!(state.next_ranked(), None);
}

#[test]
fn read_out_cursor_stays_within_items() {
    let mut state = HumansortState::from_items(&names(&["A", "B"]));
    state.next_ranked();
    state.next_ranked();
    state.remove_item(&"A".to_string()).unwrap();
    assert_eq!(state.next_ranked(), None);
    state.add_item(&"C".to_string()).unwrap();
    assert_eq!(state.next_ranked().map(|i| i.to_string()), Some("C".to_string()));
}

#[test]
fn rank_follows_number_order() {
    let ordered = [f32::NEG_INFINITY, -2.5, -0.5, 0.0, 1e-30, 0.5, 1.0, f32::INFINITY];
    for w in ordered.windows(2) {
        assert!(rank_of(w[0].to_bits()) < rank_of(w[1].to_bits()));
    }
    assert_eq!(rank_of((-0.0f32).to_bits()), rank_of(0.0f32.to_bits()));
    assert_eq!(ZERO_RATING, 0.0f32.to_bits());
}

#[test]
fn sort_by_rating_is_stable() {
    let items = vec![item("a", 0.0), item("b", 1.0), item("c", 0.0), item("d", -1.0), item("e", 1.0)];
    let sorted = sort_by_rating(&items);
    let order: Vec<String> = sorted.iter().map(|i| i.value().clone()).collect();
    assert_eq!(order, names(&["b", "e", "a", "c", "d"]));
}

#[test]
fn item_accessors() {
    let mut i = item("x", 2.0);
    assert_eq!(i.to_string(), "x");
    i.set_rating_bits(3.0f32.to_bits());
    assert_eq!(i.copy(), item("x", 3.0));
    assert_eq!(HumansortItem::default(), item("", 0.0));
}

#[test]
fn list_lines_skip_empty_ones() {
    let lines = names(&["a", "", "b", "", "a", " "]);
    assert_eq!(humansort::non_blank_lines(&lines), names(&["a", "b", "a", " "]));
    assert!(humansort::non_blank_lines(&names(&["", ""])).is_empty());
}

#[test]
fn warp_index_is_monotone() {
    for len in [1usize, 2, 9, 10, 1000] {
        let mut last = 0;
        for d in 0..DRAW_RANGE {
            let i = warp_index(d, len);
            assert!(i >= last && i < len);
            last = i;
        }
    }
}
