use vnstat_dashboard::number::{decimal_text, parse_i32, parse_u32, parse_u64};
use vnstat_dashboard::text::{
    begins_with, chars_of, finishes_with, index_of, is_text, leading_len, nth_word, position_of,
    split_line, string_of, trimmed, CharClass,
};

const SAMPLES: [&str; 12] = [
    "",
    " ",
    "a",
    "  eth0:\t1 2\r\n",
    "one\ntwo\r\nthree\r",
    "\n\n",
    "\u{a0}wide\u{3000}",
    "x\u{2028}y \u{1680} z",
    "trailing \u{200b}",
    "a\rb\n\rc",
    "\u{85}next\u{b}line\u{c}",
    "caf\u{e9} \u{1f310} end",
];

fn all_lines(s: &str) -> Vec<String> {
    let text = chars_of(s);
    let mut rest = text.as_slice();
    let mut r = Vec::new();
    while !rest.is_empty() {
        let (line, below) = split_line(rest);
        r.push(string_of(line));
        rest = below;
    }
    r
}

fn all_words(s: &str) -> Vec<String> {
    let text = chars_of(s);
    let mut r = Vec::new();
    while let Some(w) = nth_word(&text, r.len()) {
        r.push(string_of(w));
    }
    r
}

#[test]
fn characters_make_the_text_again() {
    for s in SAMPLES {
        assert_eq!(string_of(&chars_of(s)), s);
    }
}

#[test]
fn blanks_are_those_of_unicode() {
    for n in 0..=0x10ffffu32 {
        if let Some(c) = char::from_u32(n) {
            assert_eq!(leading_len(&[c], CharClass::Blank) == 1, c.is_whitespace(), "{:x}", n);
            assert_eq!(leading_len(&[c], CharClass::Digit) == 1, c.is_ascii_digit());
        }
    }
}

#[test]
fn trimming_agrees_with_std() {
    for s in SAMPLES {
        let c = chars_of(s);
        let t = trimmed(&c);
        assert_eq!(string_of(t), s.trim());
        assert_eq!(trimmed(t), t);
    }
}

#[test]
fn lines_agree_with_std() {
    for s in SAMPLES {
        let want: Vec<String> = s.lines().map(|l| l.to_string()).collect();
        assert_eq!(all_lines(s), want, "{:?}", s);
    }
    assert_eq!(all_lines("a\r\n\nb\r"), vec!["a", "", "b\r"]);
}

#[test]
fn words_agree_with_std() {
    for s in SAMPLES {
        let want: Vec<String> = s.split_whitespace().map(|l| l.to_string()).collect();
        assert_eq!(all_words(s), want, "{:?}", s);
    }
}

#[test]
fn searching_finds_the_first_place() {
    let s = chars_of("ab=ab=cd");
    assert_eq!(position_of(&s, "ab="), Some(0));
    assert_eq!(position_of(&s, "b=c"), Some(4));
    assert_eq!(position_of(&s, "dd"), None);
    assert_eq!(position_of(&s, ""), Some(0));
    assert_eq!(position_of(&[], "x"), None);
    assert_eq!(index_of(&s, '='), Some(2));
    assert_eq!(index_of(&s, 'x'), None);
}

#[test]
fn beginnings_and_ends() {
    let s = chars_of("chart.umd.js");
    assert!(begins_with(&s, "chart") && begins_with(&s, "") && !begins_with(&s, "hart"));
    assert!(finishes_with(&s, ".js") && finishes_with(&s, "") && !finishes_with(&s, ".j"));
    assert!(!begins_with(&s, "chart.umd.js.map") && !finishes_with(&s, "a chart.umd.js"));
    assert!(is_text(&s, "chart.umd.js") && !is_text(&s, "chart.umd.jsx"));
    assert_eq!(leading_len(&chars_of("//x/"), CharClass::Slash), 2);
    assert_eq!(leading_len(&chars_of("ab c"), CharClass::Solid), 2);
}

#[test]
fn numbers_read_as_std_reads_them() {
    let texts = [
        "0", "00", "7", "+7", "-7", "-0", "+", "-", "", " 1", "1 ", "1a", "--1", "+-1",
        "4294967295", "4294967296", "2147483647", "2147483648", "-2147483648", "-2147483649",
        "18446744073709551615", "18446744073709551616", "99999999999999999999999999999999",
        "000000000000000000000000000000012", "\u{661}",
    ];
    for t in texts {
        let c = chars_of(t);
        assert_eq!(parse_u64(&c), t.parse::<u64>().ok(), "{}", t);
        assert_eq!(parse_u32(&c), t.parse::<u32>().ok(), "{}", t);
        assert_eq!(parse_i32(&c), t.parse::<i32>().ok(), "{}", t);
    }
}

#[test]
fn written_numbers_read_back() {
    for n in [0u64, 9, 10, 12345, 4294967295, 18446744073709551615] {
        let t = decimal_text(n);
        assert_eq!(t, n.to_string());
        assert_eq!(parse_u64(&chars_of(&t)), Some(n));
    }
}
