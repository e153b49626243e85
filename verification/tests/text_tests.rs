use dexopt_analyzer::text::{
    chars_of, contains_char, contains_slice, find_first, find_last, is_whitespace_char,
    lex_le_slices, line_spans, slices_equal, starts_with, str_eq, str_lex_le, string_of,
    trim_slice,
};

fn chars(s: &str) -> Vec<char> {
    s.chars().collect()
}

fn lines_of(s: &str) -> Vec<String> {
    let text = chars(s);
    line_spans(&text).iter().map(|span| text[span.start..span.end].iter().collect()).collect()
}

#[test]
fn whitespace_matches_the_unicode_property() {
    let mut c = 0u32;
    while c <= 0x10FFFF {
        if let Some(ch) = char::from_u32(c) {
            assert_eq!(is_whitespace_char(ch), ch.is_whitespace(), "U+{:04X}", c);
        }
        c += 1;
    }
}

#[test]
fn chars_of_keeps_every_character() {
    assert_eq!(chars_of("a\u{e9}\u{1F600}z"), vec!['a', '\u{e9}', '\u{1F600}', 'z']);
    assert_eq!(chars_of(""), Vec::<char>::new());
}

#[test]
fn string_of_is_the_inverse_of_chars_of() {
    for s in ["", "abc", "na\u{ef}ve \u{2603}", "  x  "] {
        assert_eq!(string_of(&chars_of(s)), s);
    }
}

#[test]
fn trim_slice_agrees_with_str_trim() {
    for s in [
        "",
        " ",
        "\t\r\n",
        "abc",
        "  abc",
        "abc  ",
        " \t a b \u{a0}\u{3000}",
        "\u{2003}x\u{2003}",
        "a",
        " a",
        "\u{feff}a ",
    ] {
        let text = chars(s);
        let got: String = trim_slice(&text).iter().collect();
        assert_eq!(got, s.trim(), "{:?}", s);
    }
}

#[test]
fn line_spans_split_at_line_feeds() {
    assert_eq!(lines_of(""), vec![""]);
    assert_eq!(lines_of("a"), vec!["a"]);
    assert_eq!(lines_of("a\n"), vec!["a", ""]);
    assert_eq!(lines_of("\n"), vec!["", ""]);
    assert_eq!(lines_of("a\nb"), vec!["a", "b"]);
    assert_eq!(lines_of("a\r\nb\n\nc"), vec!["a\r", "b", "", "c"]);
}

#[test]
fn find_first_and_last_give_the_outermost_hits() {
    let text = chars("a=b=c");
    assert_eq!(find_first(&text, '='), Some(1));
    assert_eq!(find_last(&text, '='), Some(3));
    assert_eq!(find_first(&text, 'z'), None);
    assert_eq!(find_last(&text, 'z'), None);
    assert_eq!(find_first(&[], '='), None);
    assert_eq!(find_last(&chars("="), '='), Some(0));
}

#[test]
fn contains_char_and_slice() {
    let text = chars("com.example.app");
    assert!(contains_char(&text, '.'));
    assert!(!contains_char(&text, ' '));
    assert!(contains_slice(&text, &chars("example")));
    assert!(contains_slice(&text, &chars("")));
    assert!(contains_slice(&text, &chars("com.example.app")));
    assert!(contains_slice(&text, &chars("app")));
    assert!(!contains_slice(&text, &chars("apps")));
    assert!(!contains_slice(&text, &chars("com.example.app.more")));
    assert!(contains_slice(&[], &[]));
    assert!(!contains_slice(&[], &chars("a")));
}

#[test]
fn starts_with_compares_the_prefix() {
    assert!(starts_with(&chars("package:x"), &chars("package:")));
    assert!(starts_with(&chars("package:"), &chars("package:")));
    assert!(!starts_with(&chars("package"), &chars("package:")));
    assert!(!starts_with(&chars("Package:x"), &chars("package:")));
    assert!(starts_with(&chars("x"), &[]));
}

#[test]
fn slices_equal_and_str_eq() {
    assert!(slices_equal(&chars("abc"), &chars("abc")));
    assert!(!slices_equal(&chars("abc"), &chars("abd")));
    assert!(!slices_equal(&chars("abc"), &chars("ab")));
    assert!(slices_equal(&[], &[]));
    assert!(str_eq("", ""));
    assert!(str_eq("speed", "speed"));
    assert!(!str_eq("speed", "speed-profile"));
    assert!(!str_eq("speed-profile", "speed"));
    assert!(!str_eq("verify", "verifx"));
    assert!(str_eq("\u{e9}t\u{e9}", "\u{e9}t\u{e9}"));
}

#[test]
fn lexicographic_order_agrees_with_str_order() {
    let samples = [
        "",
        "a",
        "ab",
        "abc",
        "abd",
        "b",
        "B",
        "com.a",
        "com.a.b",
        "com.b",
        "z\u{e9}",
        "z\u{1F600}",
        "z\u{ffff}",
        "\u{e9}",
        "~",
    ];
    for a in samples {
        for b in samples {
            assert_eq!(str_lex_le(a, b), a <= b, "{:?} {:?}", a, b);
            assert_eq!(lex_le_slices(&chars(a), &chars(b)), a <= b, "{:?} {:?}", a, b);
            assert_eq!(str_lex_le(a, b), a.as_bytes() <= b.as_bytes());
        }
    }
}
