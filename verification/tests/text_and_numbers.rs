use nodesailor::number::{parse_unsigned, push_decimal};
use nodesailor::text::{
    chars_of, is_hex_char, is_space_char, push_text, same_chars, same_text, split_chars,
    split_lines, starts_with, string_of, to_upper_chars, trim_chars, upper_char,
};

fn chars(s: &str) -> Vec<char> {
    s.chars().collect()
}

fn strings(rows: Vec<Vec<char>>) -> Vec<String> {
    rows.into_iter().map(|r| r.into_iter().collect()).collect()
}

#[test]
fn strings_and_characters_convert_both_ways() {
    assert_eq!(chars_of("a—ü1"), vec!['a', '—', 'ü', '1']);
    assert_eq!(chars_of(""), Vec::<char>::new());
    assert_eq!(string_of(&['a', '—', 'ü', '1']), "a—ü1");
    assert_eq!(string_of(&[]), "");
}

#[test]
fn texts_compare_by_their_characters() {
    assert!(same_text("basic", "basic"));
    assert!(!same_text("basic", "Basic"));
    assert!(!same_text("basic", "basi"));
    assert!(same_text("", ""));
    assert!(same_chars(&chars("abc"), &chars("abc")));
    assert!(!same_chars(&chars("abc"), &chars("abd")));
    assert!(!same_chars(&chars("abc"), &chars("ab")));
}

#[test]
fn split_gives_the_pieces_between_separators() {
    assert_eq!(strings(split_chars(&chars("a.b.c"), '.')), vec!["a", "b", "c"]);
    assert_eq!(strings(split_chars(&chars(""), '.')), vec![""]);
    assert_eq!(strings(split_chars(&chars("."), '.')), vec!["", ""]);
    assert_eq!(strings(split_chars(&chars("a..b."), '.')), vec!["a", "", "b", ""]);
    assert_eq!(strings(split_chars(&chars("abc"), '.')), vec!["abc"]);
}

#[test]
fn lines_end_at_line_feeds() {
    assert_eq!(strings(split_lines(&chars("a\nb\nc"))), vec!["a", "b", "c"]);
    assert_eq!(strings(split_lines(&chars("a\nb\n"))), vec!["a", "b"]);
    assert_eq!(strings(split_lines(&chars(""))), Vec::<String>::new());
    assert_eq!(strings(split_lines(&chars("\n"))), vec![""]);
    assert_eq!(strings(split_lines(&chars("\n\na"))), vec!["", "", "a"]);
}

#[test]
fn lines_lose_a_carriage_return_before_the_line_feed_only() {
    assert_eq!(strings(split_lines(&chars("a\r\nb\r\n"))), vec!["a", "b"]);
    assert_eq!(strings(split_lines(&chars("a\r\r\nb"))), vec!["a\r", "b"]);
    assert_eq!(strings(split_lines(&chars("a\rb\nc\r"))), vec!["a\rb", "c\r"]);
    let text = "one\r\ntwo\nthree\r";
    let expected: Vec<String> = text.lines().map(|l| l.to_string()).collect();
    assert_eq!(strings(split_lines(&chars(text))), expected);
}

#[test]
fn trim_takes_the_white_space_off_both_ends() {
    let trimmed = |s: &str| -> String { trim_chars(&chars(s)).into_iter().collect() };
    assert_eq!(trimmed("  a b  "), "a b");
    assert_eq!(trimmed("\t\r\n a\u{a0}\u{3000}"), "a");
    assert_eq!(trimmed(""), "");
    assert_eq!(trimmed("   "), "");
    assert_eq!(trimmed("abc"), "abc");
    assert_eq!(trimmed("\u{200b}a"), "\u{200b}a");
}

#[test]
fn white_space_is_what_the_standard_library_takes_for_it() {
    for code in 0u32..0x3100 {
        if let Some(c) = char::from_u32(code) {
            assert_eq!(is_space_char(c), c.is_whitespace(), "U+{:04X}", code);
        }
    }
    assert!(!is_space_char('\u{feff}'));
    assert!(!is_space_char('\u{10ffff}'));
}

#[test]
fn upper_case_changes_ascii_letters_only() {
    assert_eq!(upper_char('a'), 'A');
    assert_eq!(upper_char('z'), 'Z');
    assert_eq!(upper_char('A'), 'A');
    assert_eq!(upper_char('5'), '5');
    assert_eq!(upper_char(':'), ':');
    assert_eq!(upper_char('ü'), 'ü');
    assert_eq!(upper_char('{'), '{');
    assert_eq!(upper_char('`'), '`');
    let upper: String = to_upper_chars(&chars("aa:bb-0f xyz")).into_iter().collect();
    assert_eq!(upper, "AA:BB-0F XYZ");
    for code in 0u32..128 {
        let c = char::from_u32(code).unwrap();
        assert_eq!(upper_char(c), c.to_ascii_uppercase());
        assert_eq!(is_hex_char(c), c.is_ascii_hexdigit());
    }
}

#[test]
fn prefixes() {
    assert!(starts_with(&chars("127.0.0.1"), &chars("127.")));
    assert!(!starts_with(&chars("12.7.0.1"), &chars("127.")));
    assert!(!starts_with(&chars("127"), &chars("127.")));
    assert!(starts_with(&chars("abc"), &chars("")));
    assert!(starts_with(&chars(""), &chars("")));
}

#[test]
fn numbers_are_read_as_the_standard_library_reads_them() {
    for text in ["0", "7", "007", "255", "256", "+5", "+", "-5", "", " 5", "5 ", "1e2", "0x10", "99999999999999999999", "+0255", "٣"] {
        assert_eq!(
            parse_unsigned(&chars(text), 255),
            text.parse::<u8>().ok().map(u32::from),
            "{:?}",
            text
        );
    }
    for text in ["4294967295", "4294967296", "0004294967295", "123456789"] {
        assert_eq!(parse_unsigned(&chars(text), u32::MAX), text.parse::<u32>().ok(), "{:?}", text);
    }
}

#[test]
fn numbers_are_written_in_decimal() {
    let written = |n: u32| -> String {
        let mut out = Vec::new();
        push_decimal(&mut out, n);
        out.into_iter().collect()
    };
    assert_eq!(written(0), "0");
    assert_eq!(written(7), "7");
    assert_eq!(written(10), "10");
    assert_eq!(written(254), "254");
    assert_eq!(written(4093), "4093");
    assert_eq!(written(u32::MAX), "4294967295");
    for n in [0u32, 9, 10, 99, 100, 1_000_000, 305_419_896] {
        assert_eq!(written(n), n.to_string());
    }
}

#[test]
fn text_is_appended() {
    let mut out = vec!['a'];
    push_text(&mut out, "bc—");
    assert_eq!(out, vec!['a', 'b', 'c', '—']);
    push_text(&mut out, "");
    assert_eq!(out.len(), 4);
}
