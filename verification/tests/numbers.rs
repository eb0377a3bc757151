use kvstore::numbers::{format_i64, format_u64, parse_i64, parse_u64};
use kvstore::text::chars_of;

fn p64(s: &str) -> Option<i64> {
    let v = chars_of(s);
    parse_i64(&v, 0, v.len())
}

fn pu64(s: &str) -> Option<u64> {
    let v = chars_of(s);
    parse_u64(&v, 0, v.len())
}

#[test]
fn parses_like_std() {
    for s in ["0", "-0", "+12", "-9223372036854775808", "9223372036854775807", "007", "", "-", "+", "1a", " 1", "9223372036854775808", "-9223372036854775809"] {
        assert_eq!(p64(s), s.parse::<i64>().ok(), "{s:?}");
    }
    for s in ["0", "+5", "-5", "18446744073709551615", "18446744073709551616", "", "+"] {
        assert_eq!(pu64(s), s.parse::<u64>().ok(), "{s:?}");
    }
}

#[test]
fn formats_like_std_and_round_trips() {
    for n in [0i64, 7, -7, 10, 1234567, i64::MIN, i64::MAX] {
        let t = format_i64(n);
        assert_eq!(t, n.to_string());
        assert_eq!(p64(&t), Some(n));
    }
    assert_eq!(format_u64(u64::MAX), u64::MAX.to_string());
    assert_eq!(format_u64(0), "0");
}
