use jetti::output::{ahead_behind_from, count_nonempty_lines, decimal_string, is_white_space, parse_decimal, rev_from_output, trim};

#[test]
fn decimal_strings() {
    for n in [0usize, 7, 10, 42, 1000, usize::MAX] {
        assert_eq!(decimal_string(n), n.to_string());
    }
}

#[test]
fn parse_decimal_like_std() {
    for s in ["0", "12", "+7", "", "+", "-1", "1a", " 1", "007", "18446744073709551615", "18446744073709551616", "99999999999999999999"] {
        assert_eq!(parse_decimal(s), s.parse::<usize>().ok(), "{s:?}");
    }
}

#[test]
fn trim_like_std() {
    for s in ["  a b \n", "\t\r\n", "", "x", "\u{3000}y\u{a0}"] {
        assert_eq!(trim(s), s.trim());
    }
}

#[test]
fn count_lines_like_std() {
    for s in ["", "a", "a\n", "a\n\nb", "\n", "\r\n", "a\r\nb\r\n", "x\r", " M f\n?? g\n"] {
        let expected = s.lines().filter(|l| !l.is_empty()).count();
        assert_eq!(count_nonempty_lines(s), expected, "{s:?}");
    }
}

#[test]
fn revision_output() {
    assert_eq!(rev_from_output(true, "abc123\n"), Some("abc123".to_string()));
    assert_eq!(rev_from_output(false, "abc123\n"), None);
}

#[test]
fn ahead_behind_counts() {
    assert_eq!(ahead_behind_from(true, "2\t3\n"), (2, 3));
    assert_eq!(ahead_behind_from(true, "x\t3\n"), (0, 3));
    assert_eq!(ahead_behind_from(true, "2 3\n"), (0, 0));
    assert_eq!(ahead_behind_from(true, "1\t2\t3"), (0, 0));
    assert_eq!(ahead_behind_from(false, "2\t3\n"), (0, 0));
}

#[test]
fn white_space_agrees_with_std_for_every_char() {
    for n in 0u32..=0x10FFFF {
        if let Some(c) = char::from_u32(n) {
            assert_eq!(is_white_space(c), c.is_whitespace(), "U+{n:04X}");
        }
    }
}

#[test]
fn trim_agrees_with_std() {
    for s in ["  a b \n", "\u{3000}x\u{2028}", "\u{85}\u{A0}y\u{180E}", "\t\r\n", "", "z"] {
        assert_eq!(trim(s), s.trim(), "{s:?}");
    }
}
