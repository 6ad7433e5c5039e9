use extcopy::human::decimal_string;
use extcopy::human::humanize_bytes;

#[test]
fn bytes_zero() {
    assert_eq!(humanize_bytes(0), "0 B");
}

#[test]
fn bytes_just_under_one_kilobyte() {
    assert_eq!(humanize_bytes(1023), "1023 B");
}

#[test]
fn bytes_one_kilobyte() {
    assert_eq!(humanize_bytes(1024), "1.0 KB");
}

#[test]
fn bytes_one_megabyte() {
    assert_eq!(humanize_bytes(1048576), "1.0 MB");
}

#[test]
fn bytes_one_and_a_half_kilobytes() {
    assert_eq!(humanize_bytes(1536), "1.5 KB");
}

#[test]
fn bytes_decimal_is_truncated() {
    assert_eq!(humanize_bytes(1997), "1.9 KB");
}

#[test]
fn bytes_one_gigabyte() {
    assert_eq!(humanize_bytes(1073741824), "1.0 GB");
}

#[test]
fn bytes_one_terabyte() {
    assert_eq!(humanize_bytes(1099511627776), "1.0 TB");
}

#[test]
fn bytes_largest_count_stays_in_terabytes() {
    assert_eq!(humanize_bytes(u64::MAX), "16777215.9 TB");
}

#[test]
fn decimal_renders_all_digits() {
    assert_eq!(decimal_string(0), "0");
    assert_eq!(decimal_string(9), "9");
    assert_eq!(decimal_string(90210), "90210");
    assert_eq!(decimal_string(1000000), "1000000");
}
