use saba_core::text::{
    blank, cut, cut_once, digit, find_in, letter, part, read_u32, replaced, spells, stands_at,
    string_of, to_chars, trimmed, trimmed_start, up_to, white_space,
};

fn chars(text: &str) -> Vec<char> {
    text.chars().collect()
}

fn text(chars: &[char]) -> String {
    chars.iter().collect()
}

#[test]
fn strings_and_characters_convert_both_ways() {
    for s in ["", "a", "a\u{3042}\u{1F600}b", "\n\r "] {
        assert_eq!(chars(s), to_chars(s));
        assert_eq!(s, string_of(&chars(s)));
    }
}

#[test]
fn blank_is_space_or_line_feed() {
    assert!(blank(' '));
    assert!(blank('\n'));
    for c in ['\t', '\r', 'a', '\u{3000}', '\u{a0}'] {
        assert!(!blank(c));
    }
}

#[test]
fn letter_is_ascii_letter() {
    for c in ['a', 'z', 'A', 'Z', 'm'] {
        assert!(letter(c));
    }
    for c in ['0', '`', '{', '@', '[', ' ', '\u{e9}', '/'] {
        assert!(!letter(c));
    }
}

#[test]
fn spells_compares_whole_words() {
    assert!(spells(&chars("html"), "html"));
    assert!(spells(&chars(""), ""));
    assert!(!spells(&chars("html"), "htm"));
    assert!(!spells(&chars("htm"), "html"));
    assert!(!spells(&chars("html"), "htmL"));
}

#[test]
fn stands_at_and_find() {
    let hay = chars("abcabc");
    assert!(stands_at(&hay, &chars("bc"), 1));
    assert!(!stands_at(&hay, &chars("bc"), 2));
    assert!(stands_at(&hay, &chars(""), 6));
    assert!(!stands_at(&hay, &chars(""), 7));
    assert!(!stands_at(&hay, &chars("c"), usize::MAX));
    assert!(!stands_at(&hay, &chars("abcabca"), 0));
    assert_eq!(Some(1), find_in(&hay, &chars("bc"), 0));
    assert_eq!(Some(1), find_in(&hay, &chars("bc"), 1));
    assert_eq!(Some(4), find_in(&hay, &chars("bc"), 2));
    assert_eq!(None, find_in(&hay, &chars("bc"), 5));
    assert_eq!(None, find_in(&hay, &chars("bd"), 0));
    assert_eq!(Some(6), find_in(&hay, &chars(""), 6));
    assert_eq!(None, find_in(&hay, &chars(""), 7));
    assert_eq!(Some(0), find_in(&hay, &hay, 0));
    for (pattern, from) in [("a", 0), ("c", 3), ("ca", 1), ("x", 0), ("abc", 1)] {
        let expected = "abcabc"[from..].find(pattern).map(|at| at + from);
        assert_eq!(expected, find_in(&hay, &chars(pattern), from));
    }
}

#[test]
fn part_is_a_range() {
    let hay = chars("abcdef");
    assert_eq!(chars("cd"), part(&hay, 2, 4));
    assert_eq!(chars(""), part(&hay, 6, 6));
    assert_eq!(hay, part(&hay, 0, 6));
}

#[test]
fn cut_once_is_split_once() {
    for (s, pattern) in
        [("a:b:c", ":"), ("abc", ":"), (":", ":"), ("", ":"), ("a\n\nb\n\nc", "\n\n"), ("a://b", "://")]
    {
        let expected =
            s.split_once(pattern).map(|(head, tail)| (head.to_string(), tail.to_string()));
        let found = cut_once(&chars(s), pattern).map(|(head, tail)| (text(&head), text(&tail)));
        assert_eq!(expected, found);
        assert_eq!(s.split(pattern).next().unwrap(), text(&up_to(chars(s), pattern)));
    }
}

#[test]
fn cut_is_split() {
    for (s, pattern) in [
        ("a b c", " "),
        ("a  b", " "),
        (" a ", " "),
        ("", " "),
        ("abc", " "),
        ("aaa", "aa"),
        ("x\ny\n", "\n"),
    ] {
        let expected: Vec<String> = s.split(pattern).map(|p| p.to_string()).collect();
        let found: Vec<String> = cut(chars(s), pattern).iter().map(|p| text(p)).collect();
        assert_eq!(expected, found, "{:?} cut at {:?}", s, pattern);
    }
}

#[test]
fn white_space_is_the_unicode_property() {
    let mut code = 0u32;
    while code <= 0x3100 {
        if let Some(c) = char::from_u32(code) {
            assert_eq!(c.is_whitespace(), white_space(c), "U+{:04X}", code);
        }
        code += 1;
    }
    assert!(!white_space('\u{200b}'));
    assert!(!white_space('\u{feff}'));
}

#[test]
fn trimming_is_that_of_strings() {
    for s in ["", " ", " a ", "\n\t a b \r\n", "a", "\u{3000}a\u{a0}", "  \u{200b} "] {
        assert_eq!(s.trim(), text(&trimmed(&chars(s))));
        assert_eq!(s.trim_start(), text(&trimmed_start(&chars(s))));
    }
}

#[test]
fn replacing_is_that_of_strings() {
    for (s, pattern, with) in [
        ("a\n\rb\n\r", "\n\r", "\n"),
        ("\n\r\n\r", "\n\r", "\n"),
        ("\n\n\r\r", "\n\r", "\n"),
        ("aaa", "aa", "b"),
        ("abc", "x", "y"),
        ("", "x", "y"),
        ("abab", "ab", ""),
        ("abab", "b", "abab"),
    ] {
        assert_eq!(s.replace(pattern, with), text(&replaced(&chars(s), pattern, with)));
    }
}

#[test]
fn digits_have_their_value() {
    for (c, d) in "0123456789".chars().zip(0u32..) {
        assert_eq!(Some(d), digit(c));
    }
    for c in ['/', ':', 'a', '+', '\u{661}', ' '] {
        assert_eq!(None, digit(c));
    }
}

#[test]
fn numbers_are_read_as_strings_are_parsed() {
    for s in [
        "0", "7", "200", "+200", "007", "4294967295", "4294967296", "42949672950",
        "99999999999999999999", "", "+", "-1", "++1", "1+", " 1", "1 ", "12a", "a", "+0",
        "\u{661}",
    ] {
        assert_eq!(s.parse::<u32>().ok(), read_u32(&chars(s)), "{:?}", s);
    }
    assert_eq!(Some(200), read_u32(&chars("200")));
    assert_eq!(Some(4294967295), read_u32(&chars("4294967295")));
    assert_eq!(None, read_u32(&chars("4294967296")));
}
