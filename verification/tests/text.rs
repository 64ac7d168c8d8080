use linpow::sysfs::read_parse;
use linpow::text::{
    parse_i32_chars, parse_i64_chars, parse_u32_chars, parse_u64_chars, push_decimal,
    split_char, split_lines, split_ws, to_chars, trim_chars,
};

fn chars(s: &str) -> Vec<char> {
    s.chars().collect()
}

fn strs(v: Vec<Vec<char>>) -> Vec<String> {
    v.into_iter().map(|c| c.into_iter().collect()).collect()
}

const SAMPLES: &[&str] = &[
    "", "0", "7", "+7", "-7", "+", "-", "++1", "--1", "+-1", "007", " 7", "7 ", "1_000", "12a",
    "4294967295", "4294967296", "-2147483648", "-2147483649", "2147483647", "2147483648",
    "18446744073709551615", "18446744073709551616", "9223372036854775807",
    "9223372036854775808", "-9223372036854775808", "-9223372036854775809",
    "000000000000000000000000000000000001", "٣", "99999999999999999999999",
];

#[test]
fn integer_parsing_matches_std() {
    for s in SAMPLES {
        let v = chars(s);
        assert_eq!(parse_u64_chars(&v), s.parse::<u64>().ok(), "u64 {:?}", s);
        assert_eq!(parse_u32_chars(&v), s.parse::<u32>().ok(), "u32 {:?}", s);
        assert_eq!(parse_i64_chars(&v), s.parse::<i64>().ok(), "i64 {:?}", s);
        assert_eq!(parse_i32_chars(&v), s.parse::<i32>().ok(), "i32 {:?}", s);
    }
}

#[test]
fn splitting_matches_std() {
    let texts = [
        "", "a", "a\n", "a\nb", "a\r\nb\r\n", "a\r", "\n\n", " x  y\tz\n", "a,b,,c,", ",", "\u{a0}x\u{a0}",
        "x\r\r\ny", " \u{2003}trim me\u{3000} ",
    ];
    for t in texts {
        let v = chars(t);
        let lines: Vec<String> = t.lines().map(|s| s.to_string()).collect();
        assert_eq!(strs(split_lines(&v)), lines, "lines {:?}", t);
        let ws: Vec<String> = t.split_ascii_whitespace().map(|s| s.to_string()).collect();
        assert_eq!(strs(split_ws(&v)), ws, "words {:?}", t);
        let parts: Vec<String> = t.split(',').map(|s| s.to_string()).collect();
        assert_eq!(strs(split_char(&v, ',')), parts, "split {:?}", t);
        let trimmed: String = trim_chars(&v).into_iter().collect();
        assert_eq!(trimmed, t.trim(), "trim {:?}", t);
    }
}

#[test]
fn decimal_formatting_matches_display() {
    for n in [0u64, 1, 9, 10, 99, 100, 12345, u32::MAX as u64, u64::MAX] {
        let mut s = String::from("x");
        push_decimal(&mut s, n);
        assert_eq!(s, format!("x{}", n));
    }
}

#[test]
fn chars_round_trip() {
    assert_eq!(to_chars("héllo, wörld"), chars("héllo, wörld"));
}

#[test]
fn read_parse_trims_then_parses() {
    assert_eq!(read_parse::<u64>(Some(" 42\n")), Some(42));
    assert_eq!(read_parse::<i64>(Some("-3\n")), Some(-3));
    assert_eq!(read_parse::<u32>(Some("4294967296")), None);
    assert_eq!(read_parse::<i32>(Some("1 2")), None);
    assert_eq!(read_parse::<u64>(None), None);
}
