use nadt::text::{
    chars_of, eq_ignoring_case, is_white_space, join, keep_digits, parse_number, push_number,
    push_signed, push_two_wide, push_utf16, same_text, split_lines, string_of, to_crlf, trim,
};

#[test]
fn white_space_is_that_of_unicode() {
    for v in 0..=0x10ffffu32 {
        if let Some(c) = char::from_u32(v) {
            assert_eq!(is_white_space(c), c.is_whitespace(), "{v:x}");
        }
    }
}

#[test]
fn trimming_and_lines_follow_std() {
    for s in ["", " ", " a b\t", "\u{3000}x\u{a0}", "x"] {
        assert_eq!(string_of(trim(&chars_of(s))), s.trim());
    }
    for s in ["", "\n", "a", "a\n", "a\r\nb", "\r\n\r\n", "a\r", "a\rb\n\nc\r\r\n"] {
        let got: Vec<String> = split_lines(&chars_of(s)).iter().map(|l| string_of(l)).collect();
        let want: Vec<String> = s.lines().map(|l| l.to_string()).collect();
        assert_eq!(got, want);
    }
}

#[test]
fn numbers_are_written_as_std_does() {
    for n in [0i64, 1, 9, 10, 99, 100, 12345, -1, -12, i64::MAX, i64::MIN] {
        let mut out = Vec::new();
        push_two_wide(&mut out, n);
        assert_eq!(string_of(&out), format!("{:02}", n));
    }
    for n in [0u64, 9, 10, u64::MAX] {
        let mut out = Vec::new();
        push_number(&mut out, n);
        assert_eq!(string_of(&out), format!("{}", n));
    }
    for n in [0i32, -1, 17, i32::MIN, i32::MAX] {
        let mut out = Vec::new();
        push_signed(&mut out, n);
        assert_eq!(string_of(&out), format!("{}", n));
    }
}

#[test]
fn numbers_are_read_as_std_does() {
    for s in ["0", "007", "+5", "4294967295", "4294967296", "99999999999", "", "+", "-1", "1 ", "１", "1a"] {
        assert_eq!(parse_number(&chars_of(s)), s.parse::<u32>().ok(), "{s}");
    }
    assert_eq!(string_of(&keep_digits(&chars_of("a1b22c"))), "122");
}

#[test]
fn other_text_functions() {
    let mut out = vec![9u8];
    push_utf16(&mut out, &chars_of("a𝄞"));
    assert_eq!(out, [9, 0x61, 0, 0x34, 0xd8, 0x1e, 0xdd]);
    assert_eq!(string_of(&to_crlf(&chars_of("a\nb\r\n"))), "a\nb\r\n".replace('\n', "\r\n"));
    assert!(eq_ignoring_case(&chars_of("NcM"), &chars_of("ncm")));
    assert!(!eq_ignoring_case(&chars_of("É"), &chars_of("é")));
    assert!(same_text("a", "a") && !same_text("a", "A"));
    let parts = vec![chars_of("a"), chars_of(""), chars_of("b")];
    assert_eq!(string_of(&join(&parts, &chars_of("/"))), "a//b");
}
