use dars::text::{
    find_from, is_space_char, join, last_segment_start, push_decimal, push_kept_lines, str_eq,
    to_chars, trim_range, trim_str,
};

fn chars(s: &str) -> Vec<char> {
    s.chars().collect()
}

#[test]
fn chars_come_in_order() {
    assert_eq!(to_chars("héllo"), vec!['h', 'é', 'l', 'l', 'o']);
    assert_eq!(to_chars(""), Vec::<char>::new());
}

#[test]
fn equal_strings_are_equal() {
    assert!(str_eq("", ""));
    assert!(str_eq("type", "type"));
    assert!(!str_eq("type", "types"));
    assert!(!str_eq("type", "typo"));
    assert!(!str_eq("a", ""));
    assert!(str_eq("ü/ß", "ü/ß"));
}

#[test]
fn find_gives_the_first_occurrence() {
    let text = chars("abcabcabc");
    let pat = chars("bc");
    assert_eq!(find_from(&text, &pat, 0), Some(1));
    assert_eq!(find_from(&text, &pat, 1), Some(1));
    assert_eq!(find_from(&text, &pat, 2), Some(4));
    assert_eq!(find_from(&text, &pat, 8), None);
    assert_eq!(find_from(&text, &pat, 9), None);
    assert_eq!(find_from(&text, &chars("abcabcabcd"), 0), None);
    assert_eq!(find_from(&text, &chars("x"), 0), None);
}

#[test]
fn empty_pattern_is_found_at_once() {
    let text = chars("abc");
    assert_eq!(find_from(&text, &chars(""), 0), Some(0));
    assert_eq!(find_from(&text, &chars(""), 3), Some(3));
    assert_eq!(find_from(&chars(""), &chars(""), 0), Some(0));
}

#[test]
fn white_space_is_what_unicode_says() {
    for c in [' ', '\t', '\n', '\r', '\u{0B}', '\u{0C}', '\u{85}', '\u{A0}', '\u{1680}', '\u{2000}', '\u{200A}', '\u{2028}', '\u{2029}', '\u{202F}', '\u{205F}', '\u{3000}'] {
        assert!(is_space_char(c));
    }
    for c in ['a', '0', '_', '\u{8}', '\u{E}', '\u{200B}', '\u{1F}', '\u{FEFF}'] {
        assert!(!is_space_char(c));
    }
    let mut c = '\0';
    loop {
        assert_eq!(is_space_char(c), c.is_whitespace());
        if c == '\u{FFFF}' {
            break;
        }
        c = char::from_u32(c as u32 + 1).unwrap_or('\u{E000}');
    }
}

#[test]
fn trim_drops_both_ends() {
    assert_eq!(trim_str("  a b \n"), "a b");
    assert_eq!(trim_str("a"), "a");
    assert_eq!(trim_str(" \t "), "");
    assert_eq!(trim_str(""), "");
    assert_eq!(trim_str("\u{3000}é \u{A0}"), "é");
}

#[test]
fn trim_range_stays_inside_the_span() {
    let text = chars("ab  cd  ef");
    assert_eq!(trim_range(&text, 2, 8), (4, 6));
    assert_eq!(trim_range(&text, 2, 4), (4, 4));
    assert_eq!(trim_range(&text, 0, 10), (0, 10));
    assert_eq!(trim_range(&text, 3, 3), (3, 3));
}

#[test]
fn decimal_has_no_leading_zero() {
    for (n, text) in [(0usize, "0"), (7, "7"), (10, "10"), (42, "42"), (100, "100"), (9876543210, "9876543210")] {
        let mut buf = String::from("n=");
        push_decimal(&mut buf, n);
        assert_eq!(buf, format!("n={}", text));
    }
    let mut buf = String::new();
    push_decimal(&mut buf, usize::MAX);
    assert_eq!(buf, usize::MAX.to_string());
}

#[test]
fn last_segment_follows_the_last_separator() {
    assert_eq!(last_segment_start(&chars("#/$defs/Step"), '/'), 8);
    assert_eq!(last_segment_start(&chars("Step"), '/'), 0);
    assert_eq!(last_segment_start(&chars("a/b/"), '/'), 4);
    assert_eq!(last_segment_start(&chars(""), '/'), 0);
    assert_eq!(last_segment_start(&chars("/"), '/'), 1);
}

#[test]
fn kept_lines_are_trimmed() {
    let mut lines = vec!["first"];
    push_kept_lines(&mut lines, "  a \n\n \t\nb  c\r\n\n");
    assert_eq!(lines, vec!["first", "a", "b  c"]);
    push_kept_lines(&mut lines, "");
    push_kept_lines(&mut lines, "\n\n");
    assert_eq!(lines, vec!["first", "a", "b  c"]);
    push_kept_lines(&mut lines, "last");
    assert_eq!(lines, vec!["first", "a", "b  c", "last"]);
}

#[test]
fn join_puts_the_separator_between() {
    assert_eq!(join(&vec![], ", "), "");
    assert_eq!(join(&vec!["a"], ", "), "a");
    assert_eq!(join(&vec!["a", "b", "c"], ", "), "a, b, c");
    assert_eq!(join(&vec!["", ""], "-"), "-");
}
