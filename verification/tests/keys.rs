use vault_index::clock::{now_ts, seconds_or_zero};
use vault_index::keys::{deletion_key, push_decimal, push_fixed, snapshot_key};

#[test]
fn deletion_keys_hold_the_time_and_the_hash() {
    assert_eq!(
        deletion_key(1700000000, "abc123"),
        "deleted::00000000001700000000::abc123"
    );
    assert_eq!(deletion_key(0, ""), "deleted::00000000000000000000::");
}

#[test]
fn snapshot_keys_hold_the_time_and_the_name() {
    assert_eq!(snapshot_key(42, "weekly"), "snapshot::42::weekly");
    assert_eq!(
        snapshot_key(u64::MAX, "a::b"),
        "snapshot::18446744073709551615::a::b"
    );
}

#[test]
fn numbers_are_written_in_decimal() {
    let mut s = String::from("n=");
    push_decimal(&mut s, 9);
    push_decimal(&mut s, 10);
    push_decimal(&mut s, 907);
    assert_eq!(s, "n=910907");
}

#[test]
fn the_clock_counts_seconds_since_the_epoch() {
    let first = now_ts();
    let second = now_ts();
    assert!(first > 1_600_000_000);
    assert!(second >= first);
}

#[test]
fn a_clock_before_the_epoch_counts_as_zero() {
    assert_eq!(seconds_or_zero(None), 0);
    assert_eq!(seconds_or_zero(Some(1_700_000_000)), 1_700_000_000);
    assert_eq!(seconds_or_zero(Some(0)), 0);
}

#[test]
fn deletion_keys_of_later_times_come_later() {
    assert!(deletion_key(9, "z") < deletion_key(10, "a"));
    assert!(deletion_key(999_999, "z") < deletion_key(1_000_000, "a"));
}

#[test]
fn numbers_are_written_in_a_fixed_width() {
    let mut s = String::new();
    push_fixed(&mut s, 42, 5);
    push_fixed(&mut s, 123456, 3);
    push_fixed(&mut s, 7, 0);
    assert_eq!(s, "00042456");
}
