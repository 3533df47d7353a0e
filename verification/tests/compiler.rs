use fsrs_binding::convert::{
    convert_entries_to_fsrs_items, convert_to_fsrs_items_internal,
    remove_revlog_before_last_first_learn, resolve_with_fixed_offset, ConvertError,
    RevlogEntry, DEFAULT_OFFSET_MINUTES, MAX_VALID_SECONDS, MIN_VALID_SECONDS,
};
use fsrs_binding::model::{FSRSItem, FSRSReview};

const DAY_MS: i64 = 86_400_000;

fn entry(card_id: &str, review_time: i64, rating: u32, state: u32) -> RevlogEntry {
    RevlogEntry {
        card_id: card_id.to_string(),
        review_time,
        review_rating: rating,
        review_state: state,
        review_duration: 0,
        last_interval: 0,
    }
}

fn pairs(item: &FSRSItem) -> Vec<(u32, u32)> {
    item.reviews().iter().map(|r| (r.rating(), r.delta_t())).collect()
}

#[test]
fn no_learning_state_yields_no_items() {
    // A card whose history holds only review (2) and relearning (3) states
    // contributes nothing.
    let entries = vec![
        entry("a", DAY_MS * 100, 3, 2),
        entry("a", DAY_MS * 105, 4, 3),
        entry("a", DAY_MS * 111, 3, 2),
    ];
    let resolved = resolve_with_fixed_offset(entries, 0);
    let items = convert_entries_to_fsrs_items(resolved, 0).unwrap();
    assert_eq!(items.len(), 0);
}

#[test]
fn trim_keeps_only_last_learning_block() {
    // History [new, learning, review, learning, learning]: the working
    // sequence is the last two learning entries only.
    let entries = vec![
        entry("a", 1000, 3, 0),
        entry("a", 2000, 3, 1),
        entry("a", 3000, 3, 2),
        entry("a", 4000, 3, 1),
        entry("a", 5000, 3, 1),
    ];
    let trimmed = remove_revlog_before_last_first_learn(entries);
    assert_eq!(trimmed.len(), 2);
    assert_eq!(trimmed[0].review_time, 4000);
    assert_eq!(trimmed[1].review_time, 5000);
    assert_eq!(trimmed[0].review_state, 1);
    assert_eq!(trimmed[1].review_state, 1);
}

#[test]
fn trim_keeps_reviews_after_last_learning_block() {
    // Entries after the last learning block stay in the working sequence.
    let entries = vec![
        entry("a", 1000, 3, 1),
        entry("a", 2000, 3, 2),
        entry("a", 3000, 3, 2),
    ];
    let trimmed = remove_revlog_before_last_first_learn(entries);
    assert_eq!(trimmed.len(), 3);
    assert_eq!(trimmed[0].review_time, 1000);
}

#[test]
fn trim_of_pure_relearning_history_is_empty() {
    let entries = vec![entry("a", 1000, 3, 2), entry("a", 2000, 3, 3)];
    let trimmed = remove_revlog_before_last_first_learn(entries);
    assert_eq!(trimmed.len(), 0);
}

#[test]
fn same_day_gap_is_excluded_two_day_gap_is_kept() {
    // Events at local dates D, D, D+2 with ratings 3, 3, 4: the item built
    // at the second event has final delta_t 0 and is discarded; the item at
    // the third has final delta_t 2 and is kept.
    let t0 = DAY_MS * 100;
    let entries = vec![
        entry("a", t0, 3, 1),
        entry("a", t0 + 3_600_000, 3, 1),
        entry("a", t0 + 2 * DAY_MS, 4, 1),
    ];
    let resolved = resolve_with_fixed_offset(entries, 0);
    let items = convert_entries_to_fsrs_items(resolved, 0).unwrap();
    assert_eq!(items.len(), 1);
    assert_eq!(pairs(&items[0]), vec![(3, 0), (3, 0), (4, 2)]);
}

#[test]
fn output_is_ordered_by_source_review_time_across_cards() {
    // Card a reviews on days 100 and 105; card b on days 101 and 103. The
    // emitted items interleave by their emitting review's time.
    let entries = vec![
        entry("a", DAY_MS * 100, 3, 1),
        entry("a", DAY_MS * 105, 4, 1),
        entry("b", DAY_MS * 101, 2, 1),
        entry("b", DAY_MS * 103, 3, 1),
    ];
    let resolved = resolve_with_fixed_offset(entries, 0);
    let items = convert_entries_to_fsrs_items(resolved, 0).unwrap();
    assert_eq!(items.len(), 2);
    // day 103 item (card b) comes before day 105 item (card a)
    assert_eq!(pairs(&items[0]), vec![(2, 0), (3, 2)]);
    assert_eq!(pairs(&items[1]), vec![(3, 0), (4, 5)]);
}

#[test]
fn input_order_of_cards_does_not_matter() {
    let forward = vec![
        entry("a", DAY_MS * 100, 3, 1),
        entry("a", DAY_MS * 105, 4, 1),
        entry("b", DAY_MS * 101, 2, 1),
        entry("b", DAY_MS * 103, 3, 1),
    ];
    let backward = vec![
        entry("b", DAY_MS * 103, 3, 1),
        entry("b", DAY_MS * 101, 2, 1),
        entry("a", DAY_MS * 105, 4, 1),
        entry("a", DAY_MS * 100, 3, 1),
    ];
    let fw = convert_entries_to_fsrs_items(resolve_with_fixed_offset(forward, 0), 0).unwrap();
    let bw = convert_entries_to_fsrs_items(resolve_with_fixed_offset(backward, 0), 0).unwrap();
    let fw_pairs: Vec<Vec<(u32, u32)>> = fw.iter().map(pairs).collect();
    let bw_pairs: Vec<Vec<(u32, u32)>> = bw.iter().map(pairs).collect();
    assert_eq!(fw_pairs, bw_pairs);
}

#[test]
fn emitted_review_sequences_round_trip() {
    // Rebuilding an item from its own reviews reproduces the same
    // (rating, delta_t) pairs.
    let entries = vec![
        entry("a", DAY_MS * 100, 3, 1),
        entry("a", DAY_MS * 103, 2, 1),
        entry("a", DAY_MS * 110, 4, 1),
    ];
    let resolved = resolve_with_fixed_offset(entries, 0);
    let items = convert_entries_to_fsrs_items(resolved, 0).unwrap();
    assert_eq!(items.len(), 2);
    for item in &items {
        let rebuilt = FSRSItem::new(item.reviews());
        assert_eq!(pairs(&rebuilt), pairs(item));
    }
}

#[test]
fn default_offset_shifts_the_day_boundary() {
    // With the +480 minute fallback offset and next_day_starts_at of 4
    // hours, the local day of an instant is floor((secs + 28800 - 14400) /
    // 86400). Two reviews 12 hours apart straddling that boundary land on
    // consecutive local days.
    let t0 = DAY_MS * 200 + 10 * 3_600_000; // 10:00 UTC, local day boundary at 20:00 UTC
    let t1 = t0 + 12 * 3_600_000; // 22:00 UTC
    let entries = vec![entry("a", t0, 3, 1), entry("a", t1, 4, 1)];
    let resolved = resolve_with_fixed_offset(entries, DEFAULT_OFFSET_MINUTES);
    let items = convert_entries_to_fsrs_items(resolved, 4).unwrap();
    // local day of t0: floor((200*86400 + 10*3600 + 14400)/86400) = day 200
    // local day of t1: floor((200*86400 + 22*3600 + 14400)/86400) = day 201
    assert_eq!(items.len(), 1);
    assert_eq!(pairs(&items[0]), vec![(3, 0), (4, 1)]);
}

#[test]
fn negative_gap_is_clamped_to_zero() {
    // A resolver may hand different offsets to different events; a negative
    // day gap counts as zero and the item carrying it is discarded.
    let entries = vec![entry("a", DAY_MS * 100, 3, 1), entry("a", DAY_MS * 100 + 1000, 4, 1)];
    let mut resolved = resolve_with_fixed_offset(entries, 0);
    // Shift only the second event one day back.
    resolved[1].offset_minutes = -24 * 60;
    let items = convert_entries_to_fsrs_items(resolved, 0).unwrap();
    assert_eq!(items.len(), 0);
}

#[test]
fn out_of_range_timestamp_fails_the_whole_compilation() {
    let entries = vec![
        entry("a", DAY_MS * 100, 3, 1),
        entry("a", (MAX_VALID_SECONDS + 10) * 1000, 4, 1),
    ];
    let resolved = resolve_with_fixed_offset(entries, 0);
    let r = convert_entries_to_fsrs_items(resolved, 0);
    assert_eq!(r.unwrap_err(), ConvertError::InvalidTimestamp);
}

#[test]
fn out_of_range_timestamp_outside_working_sequence_is_ignored() {
    // An invalid timestamp trimmed away before the last learning block
    // never has its date resolved. The under-range review entry sorts
    // first and the learning block that follows it cuts it off.
    let entries = vec![
        entry("a", (MIN_VALID_SECONDS - 10) * 1000, 3, 2),
        entry("a", DAY_MS * 100, 3, 1),
        entry("a", DAY_MS * 101, 4, 1),
    ];
    let resolved = resolve_with_fixed_offset(entries, 0);
    let items = convert_entries_to_fsrs_items(resolved, 0).unwrap();
    assert_eq!(items.len(), 1);
    assert_eq!(pairs(&items[0]), vec![(3, 0), (4, 1)]);
}

#[test]
fn per_card_conversion_pairs_items_with_their_review_times() {
    let entries = vec![
        entry("a", DAY_MS * 100, 3, 1),
        entry("a", DAY_MS * 103, 2, 1),
        entry("a", DAY_MS * 110, 4, 1),
    ];
    let resolved = resolve_with_fixed_offset(entries, 0);
    let out = convert_to_fsrs_items_internal(resolved, 0).unwrap();
    assert_eq!(out.len(), 2);
    assert_eq!(out[0].1, DAY_MS * 103);
    assert_eq!(out[1].1, DAY_MS * 110);
    assert_eq!(pairs(&out[0].0), vec![(3, 0), (2, 3)]);
    assert_eq!(pairs(&out[1].0), vec![(3, 0), (2, 3), (4, 7)]);
}

#[test]
fn unsorted_input_is_ordered_before_gaps_are_computed() {
    let entries = vec![
        entry("a", DAY_MS * 110, 4, 1),
        entry("a", DAY_MS * 100, 3, 1),
        entry("a", DAY_MS * 103, 2, 1),
    ];
    let resolved = resolve_with_fixed_offset(entries, 0);
    let items = convert_entries_to_fsrs_items(resolved, 0).unwrap();
    assert_eq!(items.len(), 2);
    assert_eq!(pairs(&items[0]), vec![(3, 0), (2, 3)]);
    assert_eq!(pairs(&items[1]), vec![(3, 0), (2, 3), (4, 7)]);
}

#[test]
fn empty_input_compiles_to_empty_output() {
    let items = convert_entries_to_fsrs_items(Vec::new(), 0).unwrap();
    assert_eq!(items.len(), 0);
}
