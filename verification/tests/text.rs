use std::num::IntErrorKind;

use jj_sync_prs::text::{
    blank, chars_of, contains, join, join_before, lines, parse_int, push_decimal, same_text,
    split_once, text_between, trim, words, CharClass, IntError,
};

const SAMPLES: [&str; 24] = [
    "",
    " ",
    "\n",
    "\r\n",
    "\r",
    "a",
    "a\n",
    "a\r\n",
    "a\r",
    "a\r\r\n",
    "a\nb",
    "a\n\nb\n",
    "\na\n",
    "a\rb\n",
    "  a  b ",
    "\t a\u{a0}b\u{3000}",
    "*a*",
    "**",
    "* *",
    "*a b*",
    "a*b",
    "x 👈 y\nzz\n",
    "one two\nthree\r\nfour",
    "\u{200b}a\u{200b}",
];

#[test]
fn whitespace_is_what_unicode_says() {
    for n in 0..=0x10ffffu32 {
        if let Some(c) = char::from_u32(n) {
            assert_eq!(CharClass::Whitespace.has(c), c.is_whitespace(), "{n:x}");
            assert_eq!(CharClass::Star.has(c), c == '*');
        }
    }
}

#[test]
fn trimming_cuts_both_ends() {
    for s in SAMPLES {
        assert_eq!(trim(s, CharClass::Whitespace), s.trim(), "{s:?}");
        assert_eq!(trim(s, CharClass::Star), s.trim_matches('*'), "{s:?}");
        assert_eq!(blank(s), s.trim().is_empty(), "{s:?}");
    }
}

#[test]
fn a_visible_character_makes_a_text_not_blank() {
    assert!(blank(" \t\r\n\u{3000}"));
    assert!(!blank(" \t.\r\n"));
}

#[test]
fn lines_are_what_std_reads() {
    for s in SAMPLES {
        assert_eq!(lines(s), s.lines().collect::<Vec<_>>(), "{s:?}");
        assert!(lines(s).iter().all(|line| !line.contains('\n')));
    }
}

#[test]
fn lines_of_two_texts_come_one_after_the_other() {
    for front in ["", "a\n", "a\r\nb\n", "\n\n"] {
        for back in SAMPLES {
            let mut both = lines(front);
            both.extend(lines(back));
            assert_eq!(lines(&format!("{front}{back}")), both);
        }
    }
}

#[test]
fn joined_lines_are_read_again() {
    let rows: Vec<String> = vec!["a".to_owned(), String::new(), "b c".to_owned()];
    let text = join(&rows, 0, 3);
    assert_eq!(text, "a\n\nb c");
    assert_eq!(lines(&format!("{text}\n")), rows);
    assert_eq!(join(&rows, 1, 3), "\nb c");
    assert_eq!(join(&rows, 2, 2), "");
}

#[test]
fn words_are_what_std_splits() {
    for s in SAMPLES {
        assert_eq!(words(s), s.split_whitespace().collect::<Vec<_>>(), "{s:?}");
    }
}

#[test]
fn split_once_is_what_std_splits() {
    for s in SAMPLES {
        for c in [' ', '\n', '*', 'a', '👈'] {
            let expected = s.split_once(c).map(|(a, b)| (a.to_owned(), b.to_owned()));
            assert_eq!(split_once(s, c), expected, "{s:?} {c:?}");
        }
    }
}

#[test]
fn contains_is_what_std_finds() {
    for s in SAMPLES {
        for part in ["", "a", "b", "a\n", "👈 y", "two\nthree", "aa", "a  b ", "nope at all"] {
            assert_eq!(contains(s, part), s.contains(part), "{s:?} {part:?}");
        }
    }
    assert!(contains("aab", "ab"));
    assert!(!contains("aba", "abb"));
}

#[test]
fn join_before_stops_at_the_marked_line() {
    let rows = lines("a\nb\nc MARK d\ne\nMARK\n");
    assert_eq!(join_before(&rows, 0, "MARK"), "a\nb");
    assert_eq!(join_before(&rows, 1, "MARK"), "b");
    assert_eq!(join_before(&rows, 2, "MARK"), "");
    assert_eq!(join_before(&rows, 3, "MARK"), "e");
    assert_eq!(join_before(&rows, 5, "MARK"), "");
    assert_eq!(join_before(&rows, 0, "absent"), "a\nb\nc MARK d\ne\nMARK");
}

#[test]
fn characters_come_apart_and_together() {
    let chars = chars_of("a👈b");
    assert_eq!(chars, vec!['a', '👈', 'b']);
    assert_eq!(text_between(&chars, 1, 3), "👈b");
    assert_eq!(text_between(&chars, 2, 2), "");
    assert!(same_text("a👈b", &text_between(&chars, 0, 3)));
    assert!(!same_text("a", "b"));
}

#[test]
fn decimals_are_what_std_prints() {
    for n in [0, 1, 9, 10, 11, 99, 100, 1234567890, u64::MAX - 1, u64::MAX] {
        let mut out = String::from("#");
        push_decimal(&mut out, n);
        assert_eq!(out, format!("#{n}"));
    }
}

#[test]
fn integers_are_what_std_parses() {
    let samples = [
        "", "-", "+", "0", "-0", "+0", "1", "-1", "+1", "007", "+-1", "--1", "1x", "x", " 1", "1 ",
        "2147483647", "2147483648", "-2147483648", "-2147483649", "99999999999999999999",
        "-99999999999999999999", "99999999999x", "214748364x", "00000000000000000000012", "١",
        "21474836470x",
    ];
    for s in samples {
        let expected = s.parse::<i32>().map_err(|e| match e.kind() {
            IntErrorKind::Empty => IntError::Empty,
            IntErrorKind::InvalidDigit => IntError::InvalidDigit,
            IntErrorKind::PosOverflow => IntError::TooLarge,
            IntErrorKind::NegOverflow => IntError::TooSmall,
            _ => unreachable!(),
        });
        assert_eq!(parse_int(s), expected, "{s:?}");
    }
}

#[test]
fn lines_with_a_feed_behind_them_give_the_text_again() {
    for s in ["", "a", "a\n", "\n\na b\n\nc", "a\rb\n"] {
        let rows = lines(&format!("{s}\n"));
        assert_eq!(join(&rows, 0, rows.len()), s);
    }
}
