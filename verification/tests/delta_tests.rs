use logblock::delta::{BlockKeyArrowBuilder, KeyWrapper, StringValueStorage};
use logblock::sizing::{round_upto_multiple_of_64, SingleValueSizeTracker};

fn key(s: &str) -> KeyWrapper {
    KeyWrapper(s.to_string())
}

#[test]
fn offset_buffer_sizes() {
    // One more 4-byte offset than elements, padded to 64 bytes.
    assert_eq!(KeyWrapper::offset_size(0), 64);
    assert_eq!(KeyWrapper::offset_size(15), 64);
    assert_eq!(KeyWrapper::offset_size(16), 128);
}

#[test]
fn round_up_64_values() {
    assert_eq!(round_upto_multiple_of_64(0), 0);
    assert_eq!(round_upto_multiple_of_64(1), 64);
    assert_eq!(round_upto_multiple_of_64(64), 64);
    assert_eq!(round_upto_multiple_of_64(65), 128);
}

#[test]
fn tracker_add_and_subtract() {
    let mut t = SingleValueSizeTracker::new();
    t.add_prefix_size(5);
    t.add_key_size(7);
    t.add_value_size(9);
    assert_eq!(t.get_prefix_size(), 5);
    assert_eq!(t.get_key_size(), 7);
    assert_eq!(t.get_value_size(), 9);
    assert_eq!(t.get_arrow_padded_prefix_size(), 64);
    t.subtract_prefix_size(5);
    t.subtract_key_size(7);
    t.subtract_value_size(9);
    assert_eq!(t.get_prefix_size(), 0);
    assert_eq!(t.get_key_size(), 0);
    assert_eq!(t.get_value_size(), 0);
}

#[test]
fn add_and_delete_track_exact_sums() {
    let mut s = StringValueStorage::new();
    s.add("pre", key("k1"), "value1");
    assert_eq!(s.len(), 1);
    assert_eq!(s.get_prefix_size(), 3);
    assert_eq!(s.get_key_size(), 2);
    assert_eq!(s.get_value_size(), 6);
    s.add("pre", key("k2"), "v2");
    assert_eq!(s.len(), 2);
    assert_eq!(s.get_prefix_size(), 6);
    assert_eq!(s.get_key_size(), 4);
    assert_eq!(s.get_value_size(), 8);
    s.delete("pre", key("k1"));
    assert_eq!(s.len(), 1);
    assert_eq!(s.get_prefix_size(), 3);
    assert_eq!(s.get_key_size(), 2);
    assert_eq!(s.get_value_size(), 2);
}

#[test]
fn add_then_delete_restores_tracker() {
    let mut s = StringValueStorage::new();
    s.add("p", key("a"), "one");
    let p0 = s.get_prefix_size();
    let k0 = s.get_key_size();
    let v0 = s.get_value_size();
    s.add("q", key("b"), "two");
    s.delete("q", key("b"));
    assert_eq!(s.get_prefix_size(), p0);
    assert_eq!(s.get_key_size(), k0);
    assert_eq!(s.get_value_size(), v0);
    assert_eq!(s.len(), 1);
}

#[test]
fn delete_of_absent_key_is_noop() {
    let mut s = StringValueStorage::new();
    s.add("p", key("a"), "one");
    s.delete("p", key("zz"));
    assert_eq!(s.len(), 1);
    assert_eq!(s.get_value_size(), 3);
}

#[test]
fn overwrite_keeps_superseded_value_bytes_counted() {
    // `add` does not subtract the overwritten value's size; exact
    // accounting on overwrite needs an explicit delete first.
    let mut s = StringValueStorage::new();
    s.add("p", key("a"), "aa");
    s.add("p", key("a"), "bbbb");
    assert_eq!(s.len(), 1);
    assert_eq!(s.get_value_size(), 6);
}

#[test]
fn min_key_follows_composite_order() {
    let mut s = StringValueStorage::new();
    s.add("zz", key("a"), "1");
    s.add("aa", key("z"), "2");
    s.add("aa", key("b"), "3");
    let min = s.get_min_key().unwrap();
    assert_eq!(min.prefix, "aa");
    assert_eq!(min.key.0, "b");
    assert_eq!(s.len(), 3);
}

#[test]
fn build_keys_hands_keys_in_order() {
    let mut s = StringValueStorage::new();
    s.add("b", key("x"), "1");
    s.add("a", key("y"), "2");
    let builder = BlockKeyArrowBuilder::new();
    let out = s.build_keys(builder);
    assert_eq!(out.len(), 2);
    assert_eq!(out.key_at(0).prefix, "a");
    assert_eq!(out.key_at(0).key.0, "y");
    assert_eq!(out.key_at(1).prefix, "b");
    assert_eq!(out.key_at(1).key.0, "x");
}

#[test]
fn get_size_counts_padded_sums_and_offsets() {
    let mut s = StringValueStorage::new();
    s.add("pre", key("k"), "val");
    // 64 (padded prefix) + 64 (padded key) + 64 (padded value)
    // + 3 * 64 (offset buffers for one entry) = 384.
    assert_eq!(s.get_size(), 384);
}

#[test]
fn split_moves_suffix_into_new_buffer() {
    let mut s = StringValueStorage::new();
    s.add("p", key("a"), "v1");
    s.add("p", key("b"), "v2");
    s.add("p", key("c"), "v3");
    // Budget zero: the first entry already exceeds it, so the boundary is
    // the second key.
    let (boundary, rest) = s.split(0);
    assert_eq!(boundary.prefix, "p");
    assert_eq!(boundary.key.0, "b");
    assert_eq!(s.len(), 1);
    assert_eq!(rest.len(), 2);
    assert_eq!(s.get_min_key().unwrap().key.0, "a");
    assert_eq!(rest.get_min_key().unwrap().key.0, "b");
    // Both trackers are seeded exactly from the walk.
    assert_eq!(s.get_value_size(), 2);
    assert_eq!(rest.get_value_size(), 4);
    assert_eq!(s.get_prefix_size(), 1);
    assert_eq!(rest.get_prefix_size(), 2);
}

#[test]
fn split_of_single_entry_moves_it() {
    let mut s = StringValueStorage::new();
    s.add("p", key("only"), "v");
    let (boundary, rest) = s.split(0);
    assert_eq!(boundary.key.0, "only");
    assert_eq!(s.len(), 0);
    assert_eq!(rest.len(), 1);
    assert_eq!(s.get_value_size(), 0);
    assert_eq!(rest.get_value_size(), 1);
}

#[test]
fn split_with_large_budget_moves_last_entry() {
    let mut s = StringValueStorage::new();
    let v = "x".repeat(100);
    s.add("p", key("a"), &v);
    s.add("p", key("b"), &v);
    s.add("p", key("c"), &v);
    // The cumulative padded size first exceeds 500 at the second entry, so
    // the boundary points at the third key: two entries stay, one moves.
    let (boundary, rest) = s.split(500);
    assert_eq!(boundary.key.0, "c");
    assert_eq!(s.len(), 2);
    assert_eq!(rest.len(), 1);
    assert_eq!(s.get_value_size(), 200);
    assert_eq!(rest.get_value_size(), 100);
}

#[test]
fn to_arrow_exports_values_in_key_order() {
    let mut s = StringValueStorage::new();
    s.add("b", key("k"), "second");
    s.add("a", key("k"), "first");
    let (_field, column) = s.to_arrow();
    assert_eq!(column.len(), 2);
    assert_eq!(column.value(0), "first");
    assert_eq!(column.value(1), "second");
}

#[test]
fn split_walk_total_measures_the_walk() {
    let mut s = StringValueStorage::new();
    s.add("p", key("x"), "vv");
    s.add("p", key("y"), "vv");
    s.add("p", key("z"), "vv");
    // 64 (padded prefixes) + 64 (padded keys) + 64 (padded values)
    // + 3 * 64 (offset buffers for three entries) = 384.
    assert_eq!(s.split_walk_total(), Some(384));
    let empty = StringValueStorage::new();
    assert_eq!(empty.split_walk_total(), Some(0));
}

#[test]
fn to_arrow_of_empty_buffer_is_empty() {
    let s = StringValueStorage::new();
    let (_field, column) = s.to_arrow();
    assert_eq!(column.len(), 0);
}
