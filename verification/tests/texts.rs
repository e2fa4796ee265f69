use tk::number::{parse_number, push_decimal};
use tk::text::{
    count_leading_space, count_trailing_space, find, find_char, has_prefix, is_whitespace,
    matches_at, same_text, split_commas, string_of, to_chars, trimmed,
};

fn chars(s: &str) -> Vec<char> {
    s.chars().collect()
}

#[test]
fn white_space_is_what_unicode_says() {
    for c in 0..0x4000u32 {
        if let Some(c) = char::from_u32(c) {
            assert_eq!(is_whitespace(c), c.is_whitespace());
        }
    }
    assert!(!is_whitespace('\u{200B}'));
}

#[test]
fn characters_go_there_and_back() {
    let s = "h\u{e9}llo \u{4e16}\u{754c}\n";
    assert_eq!(to_chars(s), chars(s));
    assert_eq!(string_of(&chars(s)), s);
    assert_eq!(to_chars(""), Vec::<char>::new());
}

#[test]
fn trimming_drops_white_space_at_both_ends() {
    assert_eq!(trimmed(&chars("  a b \t\n")), &chars("a b")[..]);
    assert_eq!(trimmed(&chars("\u{a0}x\u{3000}")), &chars("x")[..]);
    assert_eq!(trimmed(&chars(" \n\t ")), &chars("")[..]);
    assert_eq!(trimmed(&chars("")), &chars("")[..]);
    assert_eq!(count_leading_space(&chars("  a ")), 2);
    assert_eq!(count_trailing_space(&chars("  a ")), 1);
    assert_eq!(count_leading_space(&chars("   ")), 3);
    assert_eq!(count_trailing_space(&chars("   ")), 3);
}

#[test]
fn the_first_occurrence_is_found() {
    assert_eq!(find(&chars("a\n---\n---"), &chars("\n---")), Some(1));
    assert_eq!(find(&chars("abcabc"), &chars("bc")), Some(1));
    assert_eq!(find(&chars("abc"), &chars("abc")), Some(0));
    assert_eq!(find(&chars("abc"), &chars("")), Some(0));
    assert_eq!(find(&chars(""), &chars("")), Some(0));
    assert_eq!(find(&chars("ab"), &chars("abc")), None);
    assert_eq!(find(&chars("aaab"), &chars("ab")), Some(2));
    assert_eq!(find(&chars("aaa"), &chars("b")), None);
}

#[test]
fn prefixes_and_equal_texts() {
    assert!(has_prefix(&chars("# title"), &chars("# ")));
    assert!(!has_prefix(&chars("#"), &chars("# ")));
    assert!(has_prefix(&chars("x"), &chars("")));
    assert!(matches_at(&chars("hello"), &chars("ll"), 2));
    assert!(!matches_at(&chars("hello"), &chars("ll"), 1));
    assert!(same_text(&chars("abc"), &chars("abc")));
    assert!(!same_text(&chars("abc"), &chars("abd")));
    assert!(!same_text(&chars("abc"), &chars("ab")));
    assert_eq!(find_char(&chars("a,b"), ',', 0), 1);
    assert_eq!(find_char(&chars("a,b"), ',', 2), 3);
    assert_eq!(find_char(&chars("a,b"), ',', 7), 3);
    assert!(!matches_at(&chars("hello"), &chars("lo"), 4));
    assert!(!matches_at(&chars("hello"), &chars("o"), 9));
    assert!(matches_at(&chars("hello"), &chars(""), 5));
}

#[test]
fn a_list_is_split_at_its_commas() {
    assert_eq!(split_commas("a, b ,c"), vec!["a", "b", "c"]);
    assert_eq!(split_commas("one"), vec!["one"]);
    assert_eq!(split_commas(""), vec![""]);
    assert_eq!(split_commas("a,,b,"), vec!["a", "", "b", ""]);
}

#[test]
fn numbers_are_read_as_rust_reads_them() {
    for text in ["0", "7", "42", "007", "+5", "4294967295", "4294967296", "", "+", "-1", "1a", " 1", "1 ", "++1", "12.3", "99999999999999999999999"] {
        assert_eq!(parse_number(&chars(text)), text.parse::<u32>().ok(), "{:?}", text);
    }
}

#[test]
fn numbers_are_written_in_decimal() {
    for n in [0u32, 1, 9, 10, 11, 99, 100, 101, 4096, 1000000, 4294967295] {
        let mut s = String::from("n=");
        push_decimal(&mut s, n);
        assert_eq!(s, format!("n={}", n));
        assert_eq!(parse_number(&chars(&s[2..])), Some(n));
    }
}
