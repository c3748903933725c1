use consistent_hash::hyperloglog::count_distinct;
use consistent_hash::hyperloglog::first_non_zero_bit_position;
use consistent_hash::hyperloglog::hll_buckets;
use consistent_hash::hyperloglog::to_binary;

#[test]
fn first_one_bit_is_one_indexed() {
    assert_eq!(first_non_zero_bit_position(0), 0);
    assert_eq!(first_non_zero_bit_position(1), 1);
    assert_eq!(first_non_zero_bit_position(2), 2);
    assert_eq!(first_non_zero_bit_position(6), 2);
    assert_eq!(first_non_zero_bit_position(8), 4);
    assert_eq!(first_non_zero_bit_position(u32::MAX), 1);
    assert_eq!(first_non_zero_bit_position(1 << 31), 32);
}

#[test]
fn binary_is_least_significant_first() {
    assert_eq!(to_binary(0), "");
    assert_eq!(to_binary(1), "1");
    assert_eq!(to_binary(6), "011");
    assert_eq!(to_binary(10), "0101");
}

#[test]
fn distinct_count_ignores_repeats() {
    assert_eq!(count_distinct(&vec!["a".to_owned(), "b".to_owned(), "a".to_owned()]), 2);
    assert_eq!(count_distinct(&vec!["x".to_owned()]), 1);
    let same = vec!["k".to_owned(), "k".to_owned(), "k".to_owned()];
    assert_eq!(count_distinct(&same), 1);
    // The counter reports 1 for an empty stream, as the stream checker does.
    assert_eq!(count_distinct(&Vec::new()), 1);
}

#[test]
fn buckets_have_power_of_two_length() {
    let buckets = hll_buckets(&Vec::new(), 4);
    assert_eq!(buckets.len(), 16);
    assert!(buckets.iter().all(|v| *v == 0));
    let wider = hll_buckets(&Vec::new(), 8);
    assert_eq!(wider.len(), 256);
}

#[test]
fn buckets_track_deepest_run_per_element() {
    let one = hll_buckets(&vec!["17".to_owned()], 4);
    // Exactly one bucket records the element, and the bucket index is the
    // low four bits of the element's hash.
    let occupied: Vec<usize> = (0..one.len()).filter(|i| one[*i] != 0).collect();
    assert!(occupied.len() <= 1);
    // Feeding the same element twice changes nothing: the bucket keeps a
    // maximum.
    let twice = hll_buckets(&vec!["17".to_owned(), "17".to_owned()], 4);
    assert_eq!(one, twice);
}
