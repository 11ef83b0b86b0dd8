use bitobase::text::{
    i32_to_string, int_error_message, is_whitespace, parse_i32_chars, split_whitespace_chars,
    str_chars, trim_chars, trim_end_matches_chars, usize_to_string, IntErrorKind,
};

fn chars(s: &str) -> Vec<char> {
    s.chars().collect()
}

fn parse(s: &str) -> Result<i32, IntErrorKind> {
    parse_i32_chars(&chars(s))
}

#[test]
fn parse_matches_std() {
    let cases = [
        "0", "7", "-7", "+7", "007", "-0", "2147483647", "2147483648", "-2147483648",
        "-2147483649", "", "+", "-", "1a", "a1", " 1", "1 ", "99999999999x", "12x9999999999",
        "--1", "+-1", "٣",
    ];
    for c in cases {
        let ours = parse(c);
        let std_result = c.parse::<i32>();
        match (ours, std_result) {
            (Ok(a), Ok(b)) => assert_eq!(a, b, "{:?}", c),
            (Err(k), Err(e)) => assert_eq!(int_error_message(k), e.to_string(), "{:?}", c),
            (a, b) => panic!("{:?}: {:?} vs {:?}", c, a, b),
        }
    }
}

#[test]
fn parse_error_kinds() {
    assert_eq!(parse(""), Err(IntErrorKind::Empty));
    assert_eq!(parse("x"), Err(IntErrorKind::InvalidDigit));
    assert_eq!(parse("2147483648"), Err(IntErrorKind::PosOverflow));
    assert_eq!(parse("-2147483649"), Err(IntErrorKind::NegOverflow));
}

#[test]
fn decimal_reads_back() {
    for v in [0, 1, 9, 10, 42, -1, -10, i32::MAX, i32::MIN, 1000000] {
        let s = i32_to_string(v);
        assert_eq!(s, v.to_string());
        assert_eq!(parse(&s), Ok(v));
    }
    assert_eq!(usize_to_string(0), "0");
    assert_eq!(usize_to_string(1234567890), "1234567890");
}

#[test]
fn whitespace_matches_std() {
    for c in ['\t', '\n', '\u{b}', '\u{c}', '\r', ' ', '\u{85}', '\u{a0}', '\u{1680}', '\u{2000}',
        '\u{200a}', '\u{2028}', '\u{2029}', '\u{202f}', '\u{205f}', '\u{3000}', 'a', '0', '\u{200b}',
        '\u{180e}', '\u{feff}', '\u{1f}']
    {
        assert_eq!(is_whitespace(c), c.is_whitespace(), "{:?}", c);
    }
}

#[test]
fn trim_and_split_match_std() {
    for s in ["", "  ", " a ", "a  b\t c\r\n", "\u{3000}x\u{a0}y", "abc", "\n\r"] {
        assert_eq!(trim_chars(&chars(s)), chars(s.trim()), "{:?}", s);
        let words: Vec<String> = s.split_whitespace().map(String::from).collect();
        assert_eq!(split_whitespace_chars(&chars(s)), words, "{:?}", s);
    }
}

#[test]
fn trim_end_matches_matches_std() {
    for s in ["a\r\n\r\n", "a\r\r\n", "\r\n", "", "a\n\n", "a\r\n\n"] {
        for pat in ["\r\n", "\n"] {
            let ours: String = trim_end_matches_chars(&chars(s), &chars(pat)).into_iter().collect();
            assert_eq!(ours, s.trim_end_matches(pat), "{:?} {:?}", s, pat);
        }
    }
}

#[test]
fn chars_of_str() {
    assert_eq!(str_chars("héllo"), vec!['h', 'é', 'l', 'l', 'o']);
}
