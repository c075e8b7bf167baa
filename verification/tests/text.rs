use stinkpot::number;
use stinkpot::text;

#[test]
fn white_space_is_unicode_white_space() {
    for code in 0..=0x10_ffffu32 {
        if let Some(c) = char::from_u32(code) {
            assert_eq!(text::is_white_space(c), c.is_whitespace(), "{code:x}");
        }
    }
}

#[test]
fn trimming() {
    for s in [
        "", " ", "\t \n", "git", " git", "git ", "  git  log \t", "\u{3000}x\u{a0}", "é ü ", "a\nb\n",
    ] {
        assert_eq!(text::trim(s), s.trim());
        assert_eq!(text::is_blank(s), s.trim().is_empty());
        assert_eq!(text::trim_end_blanks(s), s.trim_end_matches([' ', '\t']));
        assert_eq!(text::flatten(s), s.replace('\n', "  "));
        assert_eq!(text::char_count(s), s.chars().count());
        assert_eq!(text::string_of(&text::chars_of(s)), s);
    }
    assert_eq!(text::trim_end_blanks("ls \t \n"), "ls \t \n");
    assert!(!text::flatten("a\n\nb").contains('\n'));
}

#[test]
fn joining_and_padding() {
    let words = |list: &[&str]| -> Vec<String> { list.iter().map(|w| w.to_string()).collect() };
    assert_eq!(text::join_words(&words(&[])), "");
    assert_eq!(text::join_words(&words(&["git"])), "git");
    assert_eq!(text::join_words(&words(&["git", "", "log"])), "git  log");
    assert_eq!(text::pad_start("3m", 5, ' '), "   3m");
    assert_eq!(text::pad_start("3m", 2, ' '), "3m");
    assert_eq!(text::pad_start("3mo", 2, ' '), "3mo");
    assert_eq!(text::pad_start("é", 3, '0'), "00é");
}

#[test]
fn numbers_in_decimal_notation() {
    for n in [0u64, 7, 10, 99, 100, 12_345, u64::MAX] {
        assert_eq!(number::to_decimal(n), n.to_string());
        assert_eq!(number::to_zero_padded(n, 4), format!("{n:04}"));
    }
    for n in [0i64, 7, -7, i64::MAX, i64::MIN, -10] {
        assert_eq!(number::to_signed_decimal(n), n.to_string());
        assert_eq!(number::parse_i64(&number::to_signed_decimal(n)), Some(n));
    }
}

#[test]
fn reading_numbers() {
    for s in [
        "", "+", "-", "0", "-0", "+0", "007", "12", "-12", "+12", "--1", "+-1", "1_000", " 1", "1 ", "1a",
        "9223372036854775807", "9223372036854775808", "-9223372036854775808", "-9223372036854775809",
        "00000000000000000000000000000000001", "18446744073709551615", "18446744073709551616",
        "99999999999999999999999999", "99999999999999999999999999x", "٣", "1.5",
    ] {
        assert_eq!(number::parse_i64(s), s.parse::<i64>().ok(), "{s}");
        assert_eq!(number::parse_usize(s), s.parse::<usize>().ok(), "{s}");
    }
}
