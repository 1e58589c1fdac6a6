use nix_doc::text::{
    chars_of, copy_range, is_space, skip_leading_ws, skip_trailing_ws, split_window, string_of,
};

#[test]
fn whitespace_is_what_unicode_says() {
    for code in 0..=0x10ffffu32 {
        if let Some(c) = char::from_u32(code) {
            assert_eq!(is_space(c), c.is_whitespace(), "U+{:04X}", code);
        }
    }
}

#[test]
fn a_text_is_its_characters() {
    let chars = chars_of("a\u{e9}\u{4e16}\n");
    assert_eq!(chars, vec!['a', '\u{e9}', '\u{4e16}', '\n']);
    assert_eq!(string_of(&chars, 0, 4), "a\u{e9}\u{4e16}\n");
    assert_eq!(string_of(&chars, 1, 3), "\u{e9}\u{4e16}");
    assert_eq!(string_of(&chars, 2, 2), "");
    assert_eq!(copy_range(&chars, 1, 2), vec!['\u{e9}']);
    assert_eq!(chars_of(""), Vec::<char>::new());
}

#[test]
fn whitespace_is_skipped_at_both_ends_of_a_window() {
    let chars = chars_of(" \t a b \n ");
    assert_eq!(skip_leading_ws(&chars, 0, chars.len()), 3);
    assert_eq!(skip_trailing_ws(&chars, 0, chars.len()), 6);
    assert_eq!(skip_leading_ws(&chars, 4, chars.len()), 5);
    assert_eq!(skip_leading_ws(&chars, 6, chars.len()), chars.len());
    assert_eq!(skip_trailing_ws(&chars, 6, chars.len()), 6);
    assert_eq!(skip_trailing_ws(&chars, 0, 4), 4);
}

#[test]
fn a_text_with_n_newlines_has_n_plus_one_lines() {
    let lines = |s: &str| -> Vec<String> {
        let chars = chars_of(s);
        split_window(&chars, 0, chars.len()).iter().map(|l| l.iter().collect()).collect()
    };
    assert_eq!(lines(""), vec![""]);
    assert_eq!(lines("a"), vec!["a"]);
    assert_eq!(lines("a\n"), vec!["a", ""]);
    assert_eq!(lines("\na\n\nb"), vec!["", "a", "", "b"]);
    let chars = chars_of("ab\ncd");
    assert_eq!(split_window(&chars, 1, 4), vec![vec!['b'], vec!['c']]);
}
