use tabletop_atlas::text::{
    chars_of, has_infix, has_prefix, has_suffix, is_numeric, is_uppercase, is_whitespace,
    join_parts, lowercase_with, push_decimal, push_signed_decimal, replace_all, same_text,
    string_of, strip_prefix_str, to_lowercase, trim_slice,
};

fn chars(s: &str) -> Vec<char> {
    s.chars().collect()
}

fn text(c: &[char]) -> String {
    c.iter().collect()
}

#[test]
fn whitespace_is_what_the_standard_library_says() {
    for code in 0u32..=0x10FFFF {
        if let Some(c) = char::from_u32(code) {
            assert_eq!(is_whitespace(c), c.is_whitespace(), "U+{:04X}", code);
        }
    }
}

#[test]
fn numeric_and_uppercase_are_what_the_standard_library_says() {
    for code in 0u32..=0x10FFFF {
        if let Some(c) = char::from_u32(code) {
            assert_eq!(is_numeric(c), c.is_numeric(), "U+{:04X}", code);
            assert_eq!(is_uppercase(c), c.is_uppercase(), "U+{:04X}", code);
        }
    }
}

#[test]
fn lowercase_is_what_the_standard_library_says() {
    for s in [
        "",
        "Hello World",
        "ALL CAPS 123 !?",
        "already lower",
        "Ünïcödé ÀÉÎ",
        "ΟΔΥΣΣΕΥΣ",
        "İstanbul",
        "mixed ASCII and Ω",
    ] {
        assert_eq!(text(&to_lowercase(&chars(s))), s.to_lowercase(), "{}", s);
    }
}

#[test]
fn lowercase_with_reads_the_given_result_only_beyond_ascii() {
    assert_eq!(text(&lowercase_with(&chars("AbC"), &chars("zzz"))), "abc");
    assert_eq!(text(&lowercase_with(&chars("Äb"), &chars("zzz"))), "zzz");
}

#[test]
fn conversions_round_trip() {
    for s in ["", "a", "héllo wörld", "tab\tand\nnewline"] {
        assert_eq!(string_of(&chars_of(s)), s);
        assert_eq!(chars_of(s), chars(s));
    }
}

#[test]
fn trim_is_what_the_standard_library_says() {
    for s in [
        "",
        " ",
        "  \t\n",
        "a",
        "  a  ",
        "\u{a0}x y\u{3000}",
        "\r\nline\r\n",
        "no-trim",
        " inner  spaces stay ",
    ] {
        assert_eq!(text(trim_slice(&chars(s))), s.trim(), "{:?}", s);
    }
}

#[test]
fn matching_is_what_the_standard_library_says() {
    let cases = [
        ("hello world", "hello"),
        ("hello world", "world"),
        ("hello world", "o w"),
        ("hello world", ""),
        ("", ""),
        ("", "a"),
        ("abc", "abcd"),
        ("aaa", "aa"),
        ("wins.", "wins."),
        ("x", "xx"),
    ];
    for (s, p) in cases {
        assert_eq!(has_prefix(&chars(s), &chars(p)), s.starts_with(p), "{:?} {:?}", s, p);
        assert_eq!(has_suffix(&chars(s), &chars(p)), s.ends_with(p), "{:?} {:?}", s, p);
        assert_eq!(has_infix(&chars(s), &chars(p)), s.contains(p), "{:?} {:?}", s, p);
        assert_eq!(same_text(s, p), s == p);
    }
}

#[test]
fn replace_is_what_the_standard_library_says() {
    let cases = [
        ("what happens when", "what happens", "when"),
        ("aaaa", "aa", "b"),
        ("aaa", "aa", "b"),
        ("abc", "x", "y"),
        ("", "x", "y"),
        ("when and when", "when", "if"),
        ("abab", "ab", ""),
        ("abab", "ab", "abab"),
    ];
    for (s, from, to) in cases {
        assert_eq!(
            text(&replace_all(&chars(s), &chars(from), &chars(to))),
            s.replace(from, to),
            "{:?} {:?} {:?}",
            s,
            from,
            to
        );
    }
}

#[test]
fn replace_with_an_empty_pattern_changes_nothing() {
    assert_eq!(text(&replace_all(&chars("abc"), &chars(""), &chars("x"))), "abc");
}

#[test]
fn strip_prefix_is_what_the_standard_library_says() {
    let how = chars("how do i win");
    assert_eq!(strip_prefix_str(&how, "how do i ").map(text), Some("win".to_string()));
    assert_eq!(strip_prefix_str(&how, "how to "), None);
    assert_eq!(strip_prefix_str(&how, "").map(text), Some("how do i win".to_string()));
}

#[test]
fn join_puts_one_space_between_parts() {
    let parts = vec![chars("a"), chars(""), chars("b c")];
    assert_eq!(text(&join_parts(&parts)), "a  b c");
    assert_eq!(text(&join_parts(&vec![chars("only")])), "only");
    assert_eq!(text(&join_parts(&Vec::new())), "");
}

#[test]
fn decimal_is_what_format_gives() {
    for n in [0u64, 1, 9, 10, 11, 99, 100, 12345, u32::MAX as u64, u64::MAX] {
        let mut buf = chars("n=");
        push_decimal(&mut buf, n);
        assert_eq!(text(&buf), format!("n={}", n));
    }
    for n in [0i64, 1, -1, 123, -123, i64::MAX, i64::MIN] {
        let mut buf = Vec::new();
        push_signed_decimal(&mut buf, n);
        assert_eq!(text(&buf), format!("{}", n));
    }
}
