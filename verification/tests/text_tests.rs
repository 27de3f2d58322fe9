use square_wheel::config_value::{clone_value, find_at, with_value_at, ConfigValue};
use square_wheel::number_text::{is_float_text, parse_i64, parse_u64};
use square_wheel::text::{
    chars_of, find_common_prefix, join_with, sort_texts, split_at_char, split_words, string_of, utf8_length,
};

fn cs(s: &str) -> Vec<char> {
    s.chars().collect()
}

fn texts(v: &[Vec<char>]) -> Vec<String> {
    v.iter().map(|c| c.iter().collect()).collect()
}

#[test]
fn words_are_split_on_ascii_whitespace() {
    assert_eq!(texts(&split_words(&cs("  map\te1m1  fast "))), vec!["map", "e1m1", "fast"]);
    assert!(split_words(&cs(" \n ")).is_empty());
}

#[test]
fn paths_are_split_and_joined() {
    let parts = split_at_char(&cs("a..b"), '.');
    assert_eq!(texts(&parts), vec!["a", "", "b"]);
    assert_eq!(string_of(&join_with(&parts, '.')), "a..b");
    assert_eq!(texts(&split_at_char(&cs(""), '.')), vec![""]);
}

#[test]
fn common_prefix_of_strings() {
    assert_eq!(string_of(&find_common_prefix(&vec![cs("map_a"), cs("map_b"), cs("mapx")])), "map");
    assert_eq!(string_of(&find_common_prefix(&vec![cs("abc")])), "abc");
    assert_eq!(string_of(&find_common_prefix(&vec![])), "");
    assert_eq!(string_of(&find_common_prefix(&vec![cs("x"), cs("y")])), "");
}

#[test]
fn texts_are_sorted_like_strings() {
    let mut v = vec![cs("b"), cs("ab"), cs("a"), cs("B"), cs("ab")];
    sort_texts(&mut v);
    assert_eq!(texts(&v), vec!["B", "a", "ab", "ab", "b"]);
}

#[test]
fn utf8_length_counts_bytes() {
    assert_eq!(utf8_length(&chars_of("aé€😀")), 1 + 2 + 3 + 4);
}

#[test]
fn integers_parse_as_std_does() {
    assert_eq!(parse_u64(&cs("18446744073709551615")), Some(u64::MAX));
    assert_eq!(parse_u64(&cs("18446744073709551616")), None);
    assert_eq!(parse_u64(&cs("+7")), Some(7));
    assert_eq!(parse_u64(&cs("-7")), None);
    assert_eq!(parse_u64(&cs("")), None);
    assert_eq!(parse_i64(&cs("-9223372036854775808")), Some(i64::MIN));
    assert_eq!(parse_i64(&cs("9223372036854775808")), None);
    assert_eq!(parse_i64(&cs("-")), None);
    assert_eq!(parse_i64(&cs("12a")), None);
}

#[test]
fn float_texts_are_recognized_as_std_does() {
    for ok in ["1", "-2.5", "+.5", "5.", "1e10", "1E-3", "inf", "-Infinity", "NaN", "0.1e+2"] {
        assert!(is_float_text(&cs(ok)), "{}", ok);
        assert!(ok.parse::<f64>().is_ok());
    }
    for bad in ["", ".", "e5", "1e", "1.2.3", "infin", "--1", "1 "] {
        assert!(!is_float_text(&cs(bad)), "{}", bad);
        assert!(bad.parse::<f64>().is_err());
    }
}

#[test]
fn config_write_then_read_gives_the_written_value() {
    let config = ConfigValue::Object(vec![
        ("a".to_string(), ConfigValue::Object(vec![("b".to_string(), ConfigValue::Unsigned(1))])),
        ("c".to_string(), ConfigValue::Bool(true)),
    ]);
    let path = vec![cs("a"), cs("b")];
    let updated = with_value_at(clone_value(&config), &path, 0, ConfigValue::Text("x".to_string()));
    assert!(matches!(find_at(&updated, &path, 0), Some(ConfigValue::Text(t)) if t == "x"));
    assert!(matches!(find_at(&updated, &vec![cs("c")], 0), Some(ConfigValue::Bool(true))));
    assert!(find_at(&updated, &vec![cs("a"), cs("z")], 0).is_none());
    assert!(find_at(&updated, &vec![cs("c"), cs("d")], 0).is_none());
}
