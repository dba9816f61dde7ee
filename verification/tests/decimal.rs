use market_making::decimal::{parse_decimal_text, Dec};

fn dec(m: i128, s: u32) -> Dec {
    Dec { mantissa: m, scale: s }
}

#[test]
fn parses_decimal_texts() {
    assert_eq!(parse_decimal_text("123.45"), Some(dec(12345, 2)));
    assert_eq!(parse_decimal_text("-0.001"), Some(dec(-1, 3)));
    assert_eq!(parse_decimal_text("42"), Some(dec(42, 0)));
    assert_eq!(parse_decimal_text("1.50"), Some(dec(150, 2)));
    assert_eq!(parse_decimal_text("abc"), None);
    assert_eq!(parse_decimal_text(""), None);
}

#[test]
fn key_is_floor_and_fraction() {
    assert_eq!(dec(12345, 2).key(), (123, 4_500_000_000_000_000_000_000_000_000));
    assert_eq!(dec(-5, 1).key(), (-1, 5_000_000_000_000_000_000_000_000_000));
    assert_eq!(dec(-20, 1).key(), (-2, 0));
    assert_eq!(dec(7, 0).key(), (7, 0));
    assert_eq!(dec(1, 28).key(), (0, 1));
}

#[test]
fn equal_values_share_a_key() {
    assert_eq!(dec(15, 1).key(), dec(1500, 3).key());
    assert_ne!(dec(15, 1).key(), dec(1501, 3).key());
}

#[test]
fn keys_order_like_values() {
    let values = [dec(-15, 1), dec(-1, 0), dec(-1, 28), dec(0, 5), dec(12, 1), dec(125, 2), dec(2, 0)];
    for w in values.windows(2) {
        assert!(w[0].key() < w[1].key());
    }
}

#[test]
fn zero_test() {
    assert!(dec(0, 4).is_zero());
    assert!(!dec(1, 4).is_zero());
}
