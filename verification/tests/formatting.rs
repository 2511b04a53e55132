use cpr::util::{human_readable_bytes, u64_to_string};

#[test]
fn digits_render_exactly() {
    assert_eq!(u64_to_string(0), "0");
    assert_eq!(u64_to_string(7), "7");
    assert_eq!(u64_to_string(10), "10");
    assert_eq!(u64_to_string(90210), "90210");
    assert_eq!(u64_to_string(u64::MAX), "18446744073709551615");
}

#[test]
fn small_counts_stay_plain_bytes() {
    assert_eq!(human_readable_bytes(0), "0 bytes");
    assert_eq!(human_readable_bytes(1), "1 bytes");
    assert_eq!(human_readable_bytes(999), "999 bytes");
}

#[test]
fn kilobytes_scale_by_thousand() {
    assert_eq!(human_readable_bytes(1000), "1.00 KB");
    assert_eq!(human_readable_bytes(1234), "1.23 KB");
    // Fractions truncate rather than round.
    assert_eq!(human_readable_bytes(1239), "1.23 KB");
    assert_eq!(human_readable_bytes(123456), "123.45 KB");
    assert_eq!(human_readable_bytes(999999), "999.99 KB");
}

#[test]
fn megabytes_and_gigabytes_scale_decimally() {
    assert_eq!(human_readable_bytes(1_000_000), "1.00 MB");
    assert_eq!(human_readable_bytes(12_345_678), "12.34 MB");
    assert_eq!(human_readable_bytes(999_999_999), "999.99 MB");
    assert_eq!(human_readable_bytes(1_000_000_000), "1.00 GB");
    assert_eq!(human_readable_bytes(9_876_543_210), "9.87 GB");
}
