use dupe_finder::cli::{human_bytes, parse_bytes};

#[test]
fn parse_bytes_plain_number() {
    assert_eq!(parse_bytes("1024"), Some(1024));
    assert_eq!(parse_bytes("0"), Some(0));
}

#[test]
fn parse_bytes_b_suffix() {
    assert_eq!(parse_bytes("100B"), Some(100));
    assert_eq!(parse_bytes("100b"), Some(100));
    assert_eq!(parse_bytes("100 B"), Some(100));
}

#[test]
fn parse_bytes_kb_mb_gb() {
    assert_eq!(parse_bytes("1KB"), Some(1024));
    assert_eq!(parse_bytes("1kb"), Some(1024));
    assert_eq!(parse_bytes("1K"), Some(1024));
    assert_eq!(parse_bytes("1MB"), Some(1024 * 1024));
    assert_eq!(parse_bytes("2 MB"), Some(2 * 1024 * 1024));
    assert_eq!(parse_bytes("1GB"), Some(1024 * 1024 * 1024));
    assert_eq!(parse_bytes("1.5GB"), Some((1.5 * 1024.0 * 1024.0 * 1024.0) as u64));
}

#[test]
fn parse_bytes_invalid() {
    assert_eq!(parse_bytes("abc"), None);
    assert_eq!(parse_bytes(""), None);
    assert_eq!(parse_bytes("1TB"), None);
}

#[test]
fn human_bytes_units() {
    assert_eq!(human_bytes(0), "0 B");
    assert_eq!(human_bytes(512), "512 B");
    assert_eq!(human_bytes(2048), "2.0 KB");
    assert_eq!(human_bytes(1024 * 1024), "1.00 MB");
    assert_eq!(human_bytes(1024 * 1024 * 1024), "1.00 GB");
}

#[test]
fn parse_bytes_whitespace_and_case() {
    assert_eq!(parse_bytes("  5mb  "), Some(5 * 1024 * 1024));
    assert_eq!(parse_bytes("5Mb"), parse_bytes("5mB"));
    assert_eq!(parse_bytes("3 g"), Some(3 * 1024 * 1024 * 1024));
    assert_eq!(parse_bytes(" 7 "), Some(7));
}

#[test]
fn parse_bytes_fractions_round_down() {
    assert_eq!(parse_bytes("0.5KB"), Some(512));
    assert_eq!(parse_bytes("1.1KB"), Some((1.1f64 * 1024.0) as u64));
    assert_eq!(parse_bytes(".5K"), Some(512));
    assert_eq!(parse_bytes("2."), Some(2));
    assert_eq!(parse_bytes("+3"), Some(3));
}

#[test]
fn parse_bytes_negative_is_zero_and_huge_saturates() {
    assert_eq!(parse_bytes("-5"), Some(0));
    assert_eq!(parse_bytes("-1.5GB"), Some(0));
    assert_eq!(parse_bytes("99999999999999999999GB"), Some(u64::MAX));
}

#[test]
fn parse_bytes_malformed_amounts() {
    assert_eq!(parse_bytes("1.2.3"), None);
    assert_eq!(parse_bytes("."), None);
    assert_eq!(parse_bytes("KB"), None);
    assert_eq!(parse_bytes("1 0"), None);
    assert_eq!(parse_bytes("1e3"), None);
    assert_eq!(parse_bytes("1kib"), None);
}

#[test]
fn human_bytes_rounding() {
    assert_eq!(human_bytes(1023), "1023 B");
    assert_eq!(human_bytes(1024), "1.0 KB");
    assert_eq!(human_bytes(1536), "1.5 KB");
    assert_eq!(human_bytes(1024 * 1024 - 1), "1024.0 KB");
    assert_eq!(human_bytes(1536 * 1024), "1.50 MB");
    assert_eq!(human_bytes(5 * 1024 * 1024 * 1024 + 10 * 1024 * 1024), "5.01 GB");
    assert_eq!(human_bytes(u64::MAX), "17179869184.00 GB");
}
