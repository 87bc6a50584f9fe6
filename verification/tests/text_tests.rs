use tower_defense::hex::{are_hex_adjacent, same_hex};
use tower_defense::text::{
    float_literal_ok, parse_i32, parse_u32, parse_u8, split_char, split_whitespace, trim_chars,
};

fn cs(s: &str) -> Vec<char> {
    s.chars().collect()
}

fn st(v: &[char]) -> String {
    v.iter().collect()
}

#[test]
fn hex_neighbours() {
    assert!(are_hex_adjacent((0, 0), (1, 0)));
    assert!(are_hex_adjacent((0, 0), (1, -1)));
    assert!(are_hex_adjacent((0, 0), (-1, 1)));
    assert!(!are_hex_adjacent((0, 0), (1, 1)));
    assert!(!are_hex_adjacent((0, 0), (0, 0)));
    assert!(!are_hex_adjacent((i32::MIN, 0), (i32::MAX, 0)));
    assert!(same_hex((2, 3), (2, 3)));
}

#[test]
fn number_parsing_follows_from_str() {
    assert_eq!(parse_i32(&cs("-17")), Some(-17));
    assert_eq!(parse_i32(&cs("+8")), Some(8));
    assert_eq!(parse_i32(&cs("2147483648")), None);
    assert_eq!(parse_i32(&cs("-2147483648")), Some(i32::MIN));
    assert_eq!(parse_i32(&cs("")), None);
    assert_eq!(parse_i32(&cs("-")), None);
    assert_eq!(parse_u8(&cs("255")), Some(255));
    assert_eq!(parse_u8(&cs("256")), None);
    assert_eq!(parse_u8(&cs("-1")), None);
    assert_eq!(parse_u32(&cs("4294967295")), Some(u32::MAX));
    assert_eq!(parse_u32(&cs("1a")), None);
}

#[test]
fn float_grammar() {
    for ok in ["1.5", "0.", ".5", "3", "-2.25", "1e3", "2.5E-2", "inf", "-Infinity", "NaN"] {
        assert!(float_literal_ok(&cs(ok)), "{ok}");
        assert!(ok.parse::<f32>().is_ok());
    }
    for bad in ["", ".", "e5", "1e", "1.2.3", "x", "1,5", " 1"] {
        assert!(!float_literal_ok(&cs(bad)), "{bad}");
        assert!(bad.parse::<f32>().is_err());
    }
}

#[test]
fn splitting_and_trimming() {
    assert_eq!(st(&trim_chars(&cs("  a b \t"))), "a b");
    let pieces: Vec<String> = split_char(&cs("a|b||c"), '|').iter().map(|p| st(p)).collect();
    assert_eq!(pieces, vec!["a", "b", "", "c"]);
    let words: Vec<String> = split_whitespace(&cs("  x  yy z ")).iter().map(|p| st(p)).collect();
    assert_eq!(words, vec!["x", "yy", "z"]);
}
