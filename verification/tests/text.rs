use lh_mount::text::{
    decimal, parse_i64, replace, split, split_once, split_words, starts_with, str_eq, strip,
    to_chars, trim, Strip,
};

#[test]
fn numerals_are_read_as_std_reads_them() {
    for s in ["0", "-0", "+0", "17", "-17", "+17", "007", "", "-", "+", "1 ", " 1", "1_0", "٣",
        "9223372036854775807", "9223372036854775808", "-9223372036854775808",
        "-9223372036854775809", "99999999999999999999999", "0x10", "1e3"]
    {
        assert_eq!(parse_i64(s), s.parse::<i64>().ok(), "{:?}", s);
    }
}

#[test]
fn numerals_are_written_as_std_writes_them() {
    for n in [0, 1, -1, 9, 10, -10, 12345, i64::MAX, i64::MIN, i64::MIN + 1] {
        assert_eq!(decimal(n), n.to_string());
        assert_eq!(parse_i64(&decimal(n)), Some(n));
    }
}

#[test]
fn trimming_is_as_std_has_it() {
    for s in ["", " ", "a", " a ", "\t\na b\r\n", "\u{a0}x\u{3000}", "\u{200b}x", "x\u{85}",
        "\u{1680}\u{2000}\u{200a}\u{2028}\u{2029}\u{202f}\u{205f}y"]
    {
        assert_eq!(trim(s), s.trim(), "{:?}", s);
    }
    assert_eq!(strip("\0\0a\0b\0", Strip::Char('\0')), "a\0b");
    assert_eq!(strip("xx", Strip::Char('x')), "");
}

#[test]
fn white_space_is_what_std_calls_white_space() {
    for code in 0..=0x10ffffu32 {
        if let Some(c) = char::from_u32(code) {
            let s = c.to_string();
            assert_eq!(trim(&s).is_empty(), c.is_whitespace(), "{:?}", c);
            assert_eq!(split_words(&s).is_empty(), c.is_ascii_whitespace(), "{:?}", c);
        }
    }
}

#[test]
fn words_are_split_at_ascii_white_space() {
    for s in ["", "   ", "a", " a  b\tc\n", "a\u{b}b", "a\u{a0}b c", "\u{c}x\ry"] {
        let expected: Vec<String> = s.split_ascii_whitespace().map(|w| w.to_string()).collect();
        assert_eq!(split_words(s), expected, "{:?}", s);
    }
}

#[test]
fn texts_are_split_at_a_character() {
    for s in ["", "=", "a=b", "a=b=c", "=a", "a=", "no separator", "==" ] {
        let expected = s.split_once('=').map(|(a, b)| (a.to_string(), b.to_string()));
        assert_eq!(split_once(s, '='), expected, "{:?}", s);
        let pieces: Vec<String> = s.split('=').map(|p| p.to_string()).collect();
        assert_eq!(split(s, '='), pieces, "{:?}", s);
    }
}

#[test]
fn small_text_helpers() {
    assert_eq!(replace("a\0b\0", '\0', ' '), "a b ");
    assert!(starts_with("PPid:\t1", "PPid:"));
    assert!(!starts_with("PPi", "PPid:"));
    assert!(!starts_with("xPPid:", "PPid:"));
    assert!(starts_with("anything", ""));
    assert!(str_eq("é", "é"));
    assert!(!str_eq("a", "b"));
    assert_eq!(to_chars("hé"), vec!['h', 'é']);
}
