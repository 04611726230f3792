use codesize::format::{format_human_readable, push_decimal};

#[test]
fn plain_numbers_are_written_in_decimal() {
    assert_eq!(format_human_readable(0, None), "0");
    assert_eq!(format_human_readable(7, None), "7");
    assert_eq!(format_human_readable(10, None), "10");
    assert_eq!(format_human_readable(10000, None), "10000");
    assert_eq!(format_human_readable(123_456_789, None), "123456789");
    assert_eq!(format_human_readable(u64::MAX, None), "18446744073709551615");
}

#[test]
fn decimal_digits_agree_with_the_standard_library() {
    let mut n: u64 = 1;
    for _ in 0..19 {
        for probe in [n - 1, n, n + 1] {
            let mut out = String::from("#");
            push_decimal(&mut out, probe);
            assert_eq!(out, format!("#{}", probe));
        }
        n *= 10;
    }
}

#[test]
fn values_below_ten_thousand_are_not_scaled() {
    assert_eq!(format_human_readable(9999, Some(1000)), "9999");
    assert_eq!(format_human_readable(9999, Some(1024)), "9999");
    assert_eq!(format_human_readable(0, Some(1000)), "0");
}

#[test]
fn ten_thousand_is_scaled_once() {
    assert_eq!(format_human_readable(10000, Some(1000)), "10K");
}

#[test]
fn ten_million_is_scaled_twice() {
    assert_eq!(format_human_readable(10_000_000, Some(1000)), "10M");
}

#[test]
fn scaling_goes_through_every_unit() {
    assert_eq!(format_human_readable(9_999_999, Some(1000)), "9999K");
    assert_eq!(format_human_readable(10_000_000_000, Some(1000)), "10G");
    assert_eq!(format_human_readable(10_000_000_000_000, Some(1000)), "10T");
}

#[test]
fn scaling_stops_at_the_last_unit() {
    assert_eq!(format_human_readable(u64::MAX, Some(1000)), "18446744T");
    assert_eq!(format_human_readable(10_000_000_000_000_000, Some(1000)), "10000T");
}

#[test]
fn bytes_are_scaled_by_1024() {
    assert_eq!(format_human_readable(10240, Some(1024)), "10K");
    assert_eq!(format_human_readable(10239, Some(1024)), "9K");
    assert_eq!(format_human_readable(10 * 1024 * 1024, Some(1024)), "10M");
    assert_eq!(format_human_readable(u64::MAX, Some(1024)), "16777215T");
}

#[test]
fn a_base_of_one_changes_the_unit_only() {
    assert_eq!(format_human_readable(10000, Some(1)), "10000T");
    assert_eq!(format_human_readable(9999, Some(1)), "9999");
}
