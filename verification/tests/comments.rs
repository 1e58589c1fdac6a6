use nix_doc::comment::{cleanup_comments, cleanup_single_line, dedent_comment};

#[test]
fn test_comment_stripping() {
    let ex1 = ["/* blah blah blah\n      foooo baaar\n   blah */"];
    assert_eq!(
        cleanup_comments(&ex1),
        "blah blah blah\n   foooo baaar\nblah"
    );

    let ex2 = ["# a1", "#    a2", "# aa"];
    assert_eq!(cleanup_comments(&ex2), "aa\n   a2\na1");
}

#[test]
fn test_dedent() {
    let ex1 = "a\n   b\n   c\n     d";
    assert_eq!(dedent_comment(ex1), "a\nb\nc\n  d");
    let ex2 = "a\nb\nc";
    assert_eq!(dedent_comment(ex2), ex2);
    let ex3 = "   a\n   b\n\n     c";
    assert_eq!(dedent_comment(ex3), "a\nb\n\n  c");
}

#[test]
fn test_single_line_comment_stripping() {
    let ex1 = "    * a";
    let ex2 = "    # a";
    let ex3 = "   a";
    let ex4 = "   *";
    assert_eq!(cleanup_single_line(ex1), " a");
    assert_eq!(cleanup_single_line(ex2), " a");
    assert_eq!(cleanup_single_line(ex3), ex3);
    assert_eq!(cleanup_single_line(ex4), "");
}

#[test]
fn test_single_line_retains_bold_headings() {
    let ex1 = "   **Foo**:";
    assert_eq!(cleanup_single_line(ex1), ex1);
}

#[test]
fn lib_test_comment_stripping() {
    let ex1 = ["/* blah blah blah\n      foooo baaar\n */"];
    assert_eq!(cleanup_comments(&ex1), "blah blah blah\nfoooo baaar");

    let ex2 = ["# a1", "#    a2", "# aa"];
    assert_eq!(cleanup_comments(&ex2), "aa\n   a2\na1");
}

#[test]
fn a_marker_before_text_stays() {
    assert_eq!(cleanup_single_line("#!shebang"), "#!shebang");
    assert_eq!(cleanup_single_line("  *bold*"), "  *bold*");
    assert_eq!(cleanup_single_line("#"), "");
    assert_eq!(cleanup_single_line("#\ta"), "\ta");
    assert_eq!(cleanup_single_line("a # b"), "a # b");
    assert_eq!(cleanup_single_line(""), "");
    assert_eq!(cleanup_single_line("   "), "   ");
}

#[test]
fn only_one_marker_is_taken_off() {
    assert_eq!(cleanup_single_line("# # a"), " # a");
    assert_eq!(cleanup_single_line("* * a"), " * a");
}

#[test]
fn repeated_delimiters_are_taken_off() {
    assert_eq!(cleanup_comments(&["/*/* a */*/"]), "a");
    assert_eq!(cleanup_comments(&["/** a */"]), "a");
    assert_eq!(cleanup_comments(&["  /* a */  "]), "a");
    assert_eq!(cleanup_comments(&["/**/"]), "");
}

#[test]
fn no_comments_are_no_documentation() {
    let none: [&str; 0] = [];
    assert_eq!(cleanup_comments(&none), "");
    assert_eq!(cleanup_comments(&[""]), "");
    assert_eq!(cleanup_comments(&["#"]), "");
    assert_eq!(cleanup_comments(&["/* */", "#  "]), "");
}

#[test]
fn the_first_line_counts_only_when_alone() {
    assert_eq!(dedent_comment("   a"), "a");
    assert_eq!(dedent_comment("   a\n\n  "), "a");
    assert_eq!(dedent_comment("   a\n\n     "), "a");
    assert_eq!(dedent_comment("   a\n\n     \n b"), "  a\n\n    \nb");
    assert_eq!(dedent_comment("     a\n  b\n    c"), "   a\nb\n  c");
    assert_eq!(dedent_comment(""), "");
    assert_eq!(dedent_comment("\n\n"), "");
}

#[test]
fn blank_lines_lose_their_share_of_the_indentation() {
    assert_eq!(dedent_comment("a\n    b\n  \n    c"), "a\nb\n\nc");
    assert_eq!(dedent_comment("a\n  b\n     \n  c"), "a\nb\n   \nc");
}

#[test]
fn blank_lines_at_the_end_are_dropped() {
    assert_eq!(dedent_comment("a\nb\n\n\n"), "a\nb");
    assert_eq!(dedent_comment("a\n \n"), "a");
    assert_eq!(dedent_comment("a\n \n\t\n  \u{a0}"), "a");
    assert_eq!(dedent_comment("  a  \n  b \n   "), "a  \nb ");
    assert_eq!(dedent_comment(" \n\t\n  "), "");
    assert_eq!(cleanup_comments(&["/* a\n *\n * */"]), "a");
}

#[test]
fn a_carriage_return_before_a_newline_is_no_part_of_the_line() {
    assert_eq!(dedent_comment("a\r\n  b\r\n  c"), "a\nb\nc");
    assert_eq!(dedent_comment("a\r\n  b\r"), "a\nb\r");
    assert_eq!(cleanup_comments(&["/* a\r\n   b */"]), "a\nb");
}

#[test]
fn other_whitespace_than_spaces_counts_as_indentation() {
    assert_eq!(dedent_comment("a\n\t\tb\n\t\tc"), "a\nb\nc");
    assert_eq!(dedent_comment("a\n\u{a0}\u{3000}b"), "a\nb");
    assert_eq!(cleanup_comments(&["\u{2003}# a\u{2003}"]), "a");
}

#[test]
fn clean_documentation_is_normalized_to_itself() {
    for comments in [
        vec!["/* blah blah blah\n      foooo baaar\n   blah */"],
        vec!["# a1", "#    a2", "# aa"],
        vec!["/* Type: f :: a -> b\n\n   Example:\n     f 1\n     => 2\n*/"],
    ] {
        let once = cleanup_comments(&comments);
        assert_eq!(cleanup_comments(&[once.as_str()]), once);
    }
}

#[test]
fn documentation_that_is_not_clean_changes_again() {
    assert_eq!(cleanup_comments(&["# # a"]), "# a");
    assert_eq!(cleanup_comments(&["# a"]), "a");
    assert_eq!(cleanup_comments(&["# b", "#    a"]), "   a\nb");
    assert_eq!(cleanup_comments(&["   a\nb"]), "a\nb");
}
