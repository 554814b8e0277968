use dapil::text::{decimal_string, is_float_text, parse_bool, parse_i64};
use dapil::dict::{string_dict, Dict};

#[test]
fn parse_i64_accepts_signed_decimals() {
    assert_eq!(parse_i64("42"), Some(42));
    assert_eq!(parse_i64("-7"), Some(-7));
    assert_eq!(parse_i64("+5"), Some(5));
    assert_eq!(parse_i64("007"), Some(7));
    assert_eq!(parse_i64("9223372036854775807"), Some(i64::MAX));
    assert_eq!(parse_i64("-9223372036854775808"), Some(i64::MIN));
}

#[test]
fn parse_i64_rejects_malformed_and_overflowing_text() {
    assert_eq!(parse_i64(""), None);
    assert_eq!(parse_i64("-"), None);
    assert_eq!(parse_i64("+"), None);
    assert_eq!(parse_i64(" 1"), None);
    assert_eq!(parse_i64("1a"), None);
    assert_eq!(parse_i64("1.0"), None);
    assert_eq!(parse_i64("9223372036854775808"), None);
    assert_eq!(parse_i64("-9223372036854775809"), None);
    assert_eq!(parse_i64("99999999999999999999999"), None);
}

#[test]
fn parse_i64_agrees_with_std() {
    for s in ["0", "-0", "12", "+12", "-12", "1_0", "٣", "", "18446744073709551615", "00000000000000000000001"] {
        assert_eq!(parse_i64(s), s.parse::<i64>().ok(), "input {:?}", s);
    }
}

#[test]
fn parse_bool_accepts_exact_words() {
    assert_eq!(parse_bool("true"), Some(true));
    assert_eq!(parse_bool("false"), Some(false));
    assert_eq!(parse_bool("True"), None);
    assert_eq!(parse_bool("1"), None);
    assert_eq!(parse_bool(""), None);
}

#[test]
fn float_syntax_matches_std() {
    let cases = [
        "1.5", ".5", "5.", ".", "1e10", "1E-3", "+2.5e+7", "inf", "-Infinity", "NaN", "nan",
        "e5", "1e", "abc", "", "+", "1.2.3", "--1", "1e5.0", "0x10", " 1", "infin", "1_000",
    ];
    for s in cases {
        assert_eq!(is_float_text(s), s.parse::<f64>().is_ok(), "input {:?}", s);
    }
}

#[test]
fn decimal_string_writes_numbers() {
    assert_eq!(decimal_string(0), "0");
    assert_eq!(decimal_string(7), "7");
    assert_eq!(decimal_string(8080), "8080");
    assert_eq!(decimal_string(u64::MAX), "18446744073709551615");
}

#[test]
fn decimal_then_parse_round_trips() {
    for n in [0u64, 9, 10, 65535, i64::MAX as u64] {
        assert_eq!(parse_i64(&decimal_string(n)), Some(n as i64));
    }
}

#[test]
fn dict_write_then_read() {
    let mut d: Dict<u32> = Dict::new();
    d.insert("a".to_string(), 1);
    d.insert("b".to_string(), 2);
    d.insert("a".to_string(), 3);
    assert_eq!(d.get("a"), Some(&3));
    assert_eq!(d.get("b"), Some(&2));
    assert_eq!(d.get("c"), None);
    assert_eq!(d.len(), 2);
    let entries = d.into_entries();
    assert_eq!(entries, vec![("a".to_string(), 3), ("b".to_string(), 2)]);
}

#[test]
fn string_dict_last_value_wins_first_position_kept() {
    let d = string_dict(vec![
        ("x".to_string(), "1".to_string()),
        ("y".to_string(), "2".to_string()),
        ("x".to_string(), "3".to_string()),
    ]);
    assert_eq!(
        d.into_entries(),
        vec![("x".to_string(), "3".to_string()), ("y".to_string(), "2".to_string())]
    );
}
