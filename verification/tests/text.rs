use parental_watchdog::text::{
    chars_of, chars_of_bytes, copy_bytes, copy_range, decimal_chars, join, parse_u32, parse_u64,
    push_chars, scan, scan_back, scan_byte, split, split_byte_lines, split_lines, split_words,
    string_of, trim, CharClass,
};

#[test]
fn bytes_are_read_as_text() {
    assert_eq!(chars_of_bytes(&b"abc".to_vec()), Some(vec!['a', 'b', 'c']));
    assert_eq!(chars_of_bytes(&Vec::new()), Some(Vec::new()));
    assert_eq!(chars_of_bytes(&"h\u{e9}\u{20ac}\u{1f600}".as_bytes().to_vec()), Some(cs("h\u{e9}\u{20ac}\u{1f600}")));
}

#[test]
fn bytes_that_are_no_text() {
    for bytes in [
        &b"\xff"[..],
        &b"a\x80"[..],
        &b"\xc3"[..],
        &b"\xc3\x28"[..],
        &b"\xc0\xaf"[..],
        &b"\xe0\x80\xaf"[..],
        &b"\xed\xa0\x80"[..],
        &b"\xf4\x90\x80\x80"[..],
        &b"\xf8\x88\x80\x80\x80"[..],
    ] {
        assert_eq!(chars_of_bytes(&bytes.to_vec()), None);
        assert!(std::str::from_utf8(bytes).is_err());
    }
}

#[test]
fn bytes_are_cut_into_lines() {
    assert_eq!(split_byte_lines(b"a\nb\n"), vec![b"a".to_vec(), b"b".to_vec()]);
    assert_eq!(split_byte_lines(b"a\r\nb"), vec![b"a".to_vec(), b"b".to_vec()]);
    assert_eq!(split_byte_lines(b""), Vec::<Vec<u8>>::new());
    assert_eq!(split_byte_lines(b"\n"), vec![Vec::<u8>::new()]);
    assert_eq!(split_byte_lines(b"a\r"), vec![b"a\r".to_vec()]);
    assert_eq!(split_byte_lines(b"\xff\n\n\xfe\r\r\n"), vec![b"\xff".to_vec(), Vec::new(), b"\xfe\r".to_vec()]);
    for text in ["", "\n", "\r", "\r\n", "a", "a\n", "a\r\n", "a\n\r", "\n\n", "a\r\r\n", "x\ny\r\nz", "\u{e9}\n\u{20ac}\r\n"] {
        let expected: Vec<Vec<u8>> = text.lines().map(|l| l.as_bytes().to_vec()).collect();
        assert_eq!(split_byte_lines(text.as_bytes()), expected);
    }
}

#[test]
fn runs_of_bytes() {
    assert_eq!(scan_byte(b"ab\ncd", 0, b'\n'), 2);
    assert_eq!(scan_byte(b"ab\ncd", 2, b'\n'), 2);
    assert_eq!(scan_byte(b"ab\ncd", 3, b'\n'), 5);
    assert_eq!(scan_byte(b"", 0, b'\n'), 0);
    assert_eq!(copy_bytes(b"abcdef", 2, 4), b"cd".to_vec());
    assert_eq!(copy_bytes(b"abcdef", 6, 6), Vec::<u8>::new());
}

fn cs(s: &str) -> Vec<char> {
    s.chars().collect()
}

fn texts(parts: Vec<Vec<char>>) -> Vec<String> {
    parts.iter().map(|p| p.iter().collect()).collect()
}

#[test]
fn strings_and_characters() {
    assert_eq!(chars_of("añb"), vec!['a', 'ñ', 'b']);
    assert_eq!(chars_of(""), Vec::<char>::new());
    assert_eq!(string_of(&cs("héllo")), "héllo");
    assert_eq!(string_of(&Vec::new()), "");
    let mut s = String::from("ab");
    push_chars(&mut s, &cs("cd"));
    assert_eq!(s, "abcd");
    assert_eq!(copy_range(&cs("abcdef"), 2, 4), cs("cd"));
    assert_eq!(copy_range(&cs("abcdef"), 3, 3), cs(""));
}

#[test]
fn numbers_are_read() {
    assert_eq!(parse_u64(&cs("0")), Some(0));
    assert_eq!(parse_u64(&cs("42")), Some(42));
    assert_eq!(parse_u64(&cs("+42")), Some(42));
    assert_eq!(parse_u64(&cs("007")), Some(7));
    assert_eq!(parse_u64(&cs("18446744073709551615")), Some(u64::MAX));
    assert_eq!(parse_u64(&cs("00018446744073709551615")), Some(u64::MAX));
}

#[test]
fn what_is_no_number() {
    for text in ["", "+", "-", "-1", " 1", "1 ", "1_000", "0x10", "1.5", "++1", "1+", "١٢"] {
        assert_eq!(parse_u64(&cs(text)), None);
        assert_eq!(text.parse::<u64>().ok(), None);
    }
    assert_eq!(parse_u64(&cs("18446744073709551616")), None);
    assert_eq!(parse_u64(&cs("99999999999999999999999")), None);
}

#[test]
fn numbers_of_32_bits() {
    assert_eq!(parse_u32(&cs("4294967295")), Some(u32::MAX));
    assert_eq!(parse_u32(&cs("4294967296")), None);
    assert_eq!(parse_u32(&cs("+12")), Some(12));
    assert_eq!(parse_u32(&cs("")), None);
    assert_eq!(parse_u32(&cs("18446744073709551616")), None);
}

#[test]
fn numbers_are_written() {
    assert_eq!(decimal_chars(0), cs("0"));
    assert_eq!(decimal_chars(9), cs("9"));
    assert_eq!(decimal_chars(10), cs("10"));
    assert_eq!(decimal_chars(1234567890), cs("1234567890"));
    assert_eq!(decimal_chars(u64::MAX), cs("18446744073709551615"));
}

#[test]
fn numbers_read_as_the_standard_library_reads_them() {
    for n in [0u64, 1, 9, 10, 99, 100, 65535, 4294967296, u64::MAX - 1, u64::MAX] {
        assert_eq!(string_of(&decimal_chars(n)), n.to_string());
        assert_eq!(parse_u64(&decimal_chars(n)), Some(n));
    }
}

#[test]
fn runs_of_characters() {
    let text = cs("  ab c");
    assert_eq!(scan(&text, 0, CharClass::Space), 2);
    assert_eq!(scan(&text, 2, CharClass::Solid), 4);
    assert_eq!(scan(&text, 4, CharClass::Solid), 4);
    assert_eq!(scan(&text, 0, CharClass::Except('c')), 5);
    assert_eq!(scan(&text, 0, CharClass::Except('z')), 6);
    assert_eq!(scan(&text, 6, CharClass::Space), 6);
    assert_eq!(scan_back(&cs("ab \t\n"), 5, CharClass::Space), 2);
    assert_eq!(scan_back(&cs("ab"), 2, CharClass::Space), 2);
    assert_eq!(scan_back(&cs("  "), 2, CharClass::Space), 0);
}

#[test]
fn white_space_is_what_unicode_says() {
    for c in ['\t', '\n', '\u{b}', '\u{c}', '\r', ' ', '\u{85}', '\u{a0}', '\u{1680}', '\u{2000}',
        '\u{200a}', '\u{2028}', '\u{2029}', '\u{202f}', '\u{205f}', '\u{3000}'] {
        assert!(c.is_whitespace());
        assert!(CharClass::Space.admits(c));
        assert!(!CharClass::Solid.admits(c));
    }
    for c in ['a', '0', '\u{8}', '\u{e}', '\u{1f}', '\u{200b}', '\u{2060}', '\u{feff}', '\u{180e}'] {
        assert!(!c.is_whitespace());
        assert!(!CharClass::Space.admits(c));
        assert!(CharClass::Solid.admits(c));
    }
    assert!(CharClass::Except('x').admits('y'));
    assert!(!CharClass::Except('x').admits('x'));
}

#[test]
fn every_character_is_classed_as_the_standard_library_classes_it() {
    for code in 0u32..0x11_0000 {
        if let Some(c) = char::from_u32(code) {
            assert_eq!(CharClass::Space.admits(c), c.is_whitespace());
        }
    }
}

#[test]
fn text_is_cut_at_a_separator() {
    assert_eq!(texts(split(&cs("a:b:c"), ':')), vec!["a", "b", "c"]);
    assert_eq!(texts(split(&cs(""), ':')), vec![""]);
    assert_eq!(texts(split(&cs(":"), ':')), vec!["", ""]);
    assert_eq!(texts(split(&cs("a::b:"), ':')), vec!["a", "", "b", ""]);
    assert_eq!(texts(split(&cs("no separator"), ':')), vec!["no separator"]);
}

#[test]
fn text_is_cut_as_the_standard_library_cuts_it() {
    for text in ["", ":", "a", "a:b", ":a:", "::", "app:x:1:2:d", "a:b:c:d:e:f:"] {
        let expected: Vec<String> = text.split(':').map(|p| p.to_string()).collect();
        assert_eq!(texts(split(&cs(text), ':')), expected);
    }
}

#[test]
fn text_is_cut_into_lines() {
    assert_eq!(texts(split_lines(&cs("a\nb\n"))), vec!["a", "b"]);
    assert_eq!(texts(split_lines(&cs("a\nb"))), vec!["a", "b"]);
    assert_eq!(texts(split_lines(&cs("a\r\nb\r\n"))), vec!["a", "b"]);
    assert_eq!(texts(split_lines(&cs("a\n\nb"))), vec!["a", "", "b"]);
    assert_eq!(texts(split_lines(&cs(""))), Vec::<String>::new());
    assert_eq!(texts(split_lines(&cs("\n"))), vec![""]);
    assert_eq!(texts(split_lines(&cs("a\r"))), vec!["a\r"]);
    assert_eq!(texts(split_lines(&cs("a\rb\n"))), vec!["a\rb"]);
    assert_eq!(texts(split_lines(&cs("\r\n"))), vec![""]);
}

#[test]
fn lines_are_cut_as_the_standard_library_cuts_them() {
    for text in ["", "\n", "\r", "\r\n", "a", "a\n", "a\r\n", "a\n\r", "\n\n", "a\r\r\n", "x\ny\r\nz", "\r\r", "a\nb\r"] {
        let expected: Vec<String> = text.lines().map(|p| p.to_string()).collect();
        assert_eq!(texts(split_lines(&cs(text))), expected);
    }
}

#[test]
fn text_is_cut_into_words() {
    assert_eq!(texts(split_words(&cs("  12 bash   /bin/bash -c  x \n"))), vec!["12", "bash", "/bin/bash", "-c", "x"]);
    assert_eq!(texts(split_words(&cs(""))), Vec::<String>::new());
    assert_eq!(texts(split_words(&cs(" \t\n"))), Vec::<String>::new());
    assert_eq!(texts(split_words(&cs("one"))), vec!["one"]);
    assert_eq!(texts(split_words(&cs("a\u{a0}b\u{3000}c"))), vec!["a", "b", "c"]);
}

#[test]
fn white_space_around_text_is_removed() {
    assert_eq!(trim(&cs("  a b \n")), cs("a b"));
    assert_eq!(trim(&cs("a")), cs("a"));
    assert_eq!(trim(&cs("")), cs(""));
    assert_eq!(trim(&cs(" \t ")), cs(""));
    assert_eq!(trim(&cs("\u{2003}x\u{85}")), cs("x"));
    for text in ["", " ", "  ", " a", "a ", " a ", "a b", "\n\ta  b\r\n"] {
        assert_eq!(string_of(&trim(&cs(text))), text.trim());
    }
}

#[test]
fn pieces_are_put_together() {
    let parts = vec![cs("12"), cs("bash"), cs("/bin/bash"), cs("-c"), cs("x")];
    assert_eq!(join(&parts, 2, ' '), cs("/bin/bash -c x"));
    assert_eq!(join(&parts, 0, ':'), cs("12:bash:/bin/bash:-c:x"));
    assert_eq!(join(&parts, 4, ' '), cs("x"));
    assert_eq!(join(&parts, 5, ' '), cs(""));
    assert_eq!(join(&vec![cs(""), cs("")], 0, '-'), cs("-"));
}
