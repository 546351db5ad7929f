use remote_tools::bytes::{begins_with, split};
use remote_tools::number::{align_right, read_i32, read_u16, write_decimal, write_hex, write_signed};
use remote_tools::text::{is_ordered, joined, sort, split_at_matches, split_lines, split_words, trimmed, trimmed_end};

fn strings(s: &[&str]) -> Vec<String> {
    s.iter().map(|a| a.to_string()).collect()
}

#[test]
fn lines_and_their_endings() {
    for s in ["", "a", "a\n", "a\r\nb\rc\n\n", "\n", "\r\n", "a\r", "é\n\u{2028}x"] {
        assert_eq!(split_lines(s), s.lines().collect::<Vec<_>>(), "{s:?}");
    }
}

#[test]
fn white_space_goes() {
    for s in ["", " a b\t\n", "\u{a0}x\u{3000}", "\u{200b}x", "\u{1680}\u{202f}\u{205f}", "x\u{180e}"] {
        assert_eq!(trimmed(s), s.trim(), "{s:?}");
        assert_eq!(trimmed_end(s), s.trim_end(), "{s:?}");
        assert_eq!(split_words(s), s.split_whitespace().collect::<Vec<_>>(), "{s:?}");
    }
}

#[test]
fn every_white_space_character_is_known() {
    for c in (0..=0x10ffff_u32).filter_map(char::from_u32) {
        let alone = c.to_string();
        assert_eq!(trimmed_end(&alone).is_empty(), alone.trim_end().is_empty(), "{c:?}");
    }
}

#[test]
fn pieces_join_back() {
    for (s, pat) in [("a,b,,c", ","), ("aaa", "aa"), ("", "x"), ("xx", "x"), ("añbñ", "ñ")] {
        let pieces = split_at_matches(s, pat);
        assert_eq!(pieces, s.split(pat).collect::<Vec<_>>());
        assert_eq!(joined(&pieces, pat), s);
        assert!(pieces.iter().all(|p| !p.contains(pat)));
    }
    assert_eq!(joined(&Vec::new(), ", "), "");
}

#[test]
fn texts_in_order() {
    let texts = strings(&["b", "a", "", "ab", "\u{10000}", "\u{ffff}", "a", "B"]);
    let mut expected = texts.clone();
    expected.sort();
    assert_eq!(sort(&texts), expected);
    assert!(is_ordered("a", "a") && is_ordered("a", "ab") && !is_ordered("b", "ab"));
}

#[test]
fn numbers_written() {
    assert_eq!(write_decimal(0), "0");
    assert_eq!(write_decimal(u128::MAX), "340282366920938463463374607431768211455");
    assert_eq!(write_hex(0xdead_beef), "deadbeef");
    assert_eq!(write_hex(0), "0");
    assert_eq!(write_signed(i32::MIN), "-2147483648");
    assert_eq!(write_signed(-1), "-1");
    assert_eq!(write_signed(7), "7");
    assert_eq!(align_right("12", 6), "    12");
    assert_eq!(align_right("1234567", 6), "1234567");
}

#[test]
fn numbers_read() {
    for s in ["0", "65535", "65536", "+1", "-1", "", "+", "007", "1 ", "99999999999999999999", "١"] {
        assert_eq!(read_u16(s), s.parse::<u16>().ok(), "{s:?}");
    }
    for s in ["0", "-0", "2147483647", "2147483648", "-2147483648", "-2147483649", "+-1", "-", "--1", "x"] {
        assert_eq!(read_i32(s), s.parse::<i32>().ok(), "{s:?}");
    }
}

#[test]
fn numbers_read_back() {
    for n in [0u16, 9, 10, 4711, 65535] {
        assert_eq!(read_u16(&write_decimal(n as u128)), Some(n));
    }
    for n in [i32::MIN, -10, 0, i32::MAX] {
        assert_eq!(read_i32(&write_signed(n)), Some(n));
    }
}

#[test]
fn byte_strings() {
    assert_eq!(split(b"a:b::", 58), [b"a".to_vec(), b"b".to_vec(), Vec::new(), Vec::new()]);
    assert!(begins_with(b"abc", b"ab") && begins_with(b"a", b"") && !begins_with(b"a", b"ab"));
}
