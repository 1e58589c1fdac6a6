use nix_doc::position::{find_line, find_pos, locate_pos};

#[test]
fn test_bytepos() {
    let fakefile = "abc\ndef\nghi";
    assert_eq!(find_pos(fakefile, 2, 2), 5);
}

#[test]
fn lines_and_columns_count_from_one() {
    let text = "abc\ndef\nghi";
    assert_eq!(locate_pos(text, 1, 1), Some(0));
    assert_eq!(locate_pos(text, 1, 3), Some(2));
    assert_eq!(locate_pos(text, 2, 1), Some(4));
    assert_eq!(locate_pos(text, 2, 2), Some(5));
    assert_eq!(locate_pos(text, 3, 3), Some(10));
    assert_eq!(find_pos(text, 1, 1), 0);
}

#[test]
fn a_newline_stands_behind_the_last_column_of_its_line() {
    let text = "abc\ndef\nghi";
    assert_eq!(locate_pos(text, 1, 4), Some(3));
    assert_eq!(locate_pos(text, 2, 4), Some(7));
    assert_eq!(locate_pos(text, 3, 4), None);
    assert_eq!(locate_pos("\n\n", 2, 1), Some(1));
}

#[test]
fn the_line_of_a_position_is_the_line_asked_for() {
    let text = "abc\n\ndef\nghi\n";
    for line in 1..=5 {
        for col in 1..=5 {
            if let Some(pos) = locate_pos(text, line, col) {
                assert_eq!(find_line(text, pos), line);
            }
        }
    }
}

#[test]
fn a_position_outside_the_text_is_not_found() {
    let text = "abc\ndef\nghi";
    assert_eq!(locate_pos(text, 4, 1), None);
    assert_eq!(locate_pos(text, 2, 9), None);
    assert_eq!(locate_pos(text, 0, 0), None);
    assert_eq!(locate_pos(text, 1, 0), None);
    assert_eq!(locate_pos(text, 0, 1), None);
    assert_eq!(locate_pos("", 1, 1), None);
}

#[test]
fn lines_are_counted_up_to_a_position() {
    let text = "abc\ndef\nghi";
    assert_eq!(find_line(text, 0), 1);
    assert_eq!(find_line(text, 1), 1);
    assert_eq!(find_line(text, 3), 1);
    assert_eq!(find_line(text, 4), 2);
    assert_eq!(find_line(text, 5), 2);
    assert_eq!(find_line(text, 8), 3);
    assert_eq!(find_line(text, 11), 3);
}

#[test]
fn lib_test_bytepos() {
    let fakefile = "abc\ndef\nghi";
    assert_eq!(find_pos(fakefile, 2, 2), 5);
}
