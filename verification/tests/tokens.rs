use nix_doc::tokens::TokenKind::{
    Dot, Ident, Inherit, Literal, Other, ParenClose, ParenOpen, Semicolon, Trivia,
};
use nix_doc::tokens::{parser_ends_on, token_offsets, Token, TokenKind};

fn tokens(kinds: &[(TokenKind, usize)]) -> Vec<Token> {
    kinds.iter().map(|&(kind, len)| Token { kind, len }).collect()
}

#[test]
fn the_offsets_of_tokens_add_up_to_the_source() {
    let three = tokens(&[(Ident, 2), (Trivia, 1), (Semicolon, 1)]);
    assert_eq!(token_offsets(&three, 4), Some(vec![0, 2, 3, 4]));
    assert_eq!(token_offsets(&three, 3), None);
    assert_eq!(token_offsets(&three, 5), None);
    assert_eq!(token_offsets(&Vec::new(), 0), Some(vec![0]));
    let huge = tokens(&[(Ident, usize::MAX), (Ident, 2)]);
    assert_eq!(token_offsets(&huge, 1), None);
}

#[test]
fn an_inherit_must_come_to_its_semicolon() {
    let ok = |source: &str, kinds: &[(TokenKind, usize)]| {
        parser_ends_on(&tokens(kinds), source.as_bytes())
    };
    assert!(ok("inherit a;", &[(Inherit, 7), (Trivia, 1), (Ident, 1), (Semicolon, 1)]));
    assert!(ok("inherit;", &[(Inherit, 7), (Semicolon, 1)]));
    assert!(!ok("inherit a", &[(Inherit, 7), (Trivia, 1), (Ident, 1)]));
    assert!(!ok("inherit a;", &[(Inherit, 7), (Trivia, 1), (Ident, 1)]));
    assert!(!ok("inherit or;", &[(Inherit, 7), (Trivia, 1), (Ident, 2), (Semicolon, 1)]));
    assert!(ok("inherit of;", &[(Inherit, 7), (Trivia, 1), (Ident, 2), (Semicolon, 1)]));
    assert!(ok(
        "inherit(a.b)c;",
        &[
            (Inherit, 7),
            (ParenOpen, 1),
            (Ident, 1),
            (Dot, 1),
            (Ident, 1),
            (ParenClose, 1),
            (Ident, 1),
            (Semicolon, 1)
        ]
    ));
    assert!(!ok(
        "inherit(a.)c;",
        &[(Inherit, 7), (ParenOpen, 1), (Ident, 1), (Dot, 1), (ParenClose, 1), (Ident, 1), (Semicolon, 1)]
    ));
    assert!(ok(
        "inherit(f 1)c.d;",
        &[
            (Inherit, 7),
            (ParenOpen, 1),
            (Ident, 1),
            (Trivia, 1),
            (Literal, 1),
            (ParenClose, 1),
            (Ident, 1),
            (Dot, 1),
            (Ident, 1),
            (Semicolon, 1)
        ]
    ));
    assert!(!ok("inherit(f;", &[(Inherit, 7), (ParenOpen, 1), (Ident, 1), (Semicolon, 1)]));
    assert!(!ok("inherit a.;", &[(Inherit, 7), (Trivia, 1), (Ident, 1), (Dot, 1), (Semicolon, 1)]));
    assert!(!ok("inherit.a;", &[(Inherit, 7), (Dot, 1), (Ident, 1), (Semicolon, 1)]));
    assert!(!ok("inherit(a).a;", &[(Inherit, 7), (ParenOpen, 1), (Ident, 1), (ParenClose, 1), (Dot, 1), (Ident, 1), (Semicolon, 1)]));
    assert!(!ok("inherit{};", &[(Inherit, 7), (Other, 1), (Other, 1), (Semicolon, 1)]));
    assert!(ok("a = 1;", &[(Ident, 1), (Trivia, 1), (Other, 1), (Trivia, 1), (Other, 1), (Semicolon, 1)]));
}

/// Parses every source made of up to `length` of the given pieces, each
/// behind `prefix`. The sources that are handed to the parser come back
/// from it; how many were handed on is returned.
fn parse_all(prefix: &str, pieces: &[&str], length: usize) -> usize {
    let mut parsed = 0;
    let mut choice = vec![0usize; length];
    loop {
        let mut source = prefix.to_string();
        for &piece in choice.iter() {
            source.push_str(pieces[piece]);
            source.push(' ');
        }
        if nix_doc::parse::parse(&source).is_some() {
            parsed += 1;
        }
        let mut place = 0;
        while place < length && choice[place] + 1 == pieces.len() {
            choice[place] = 0;
            place += 1;
        }
        if place == length {
            return parsed;
        }
        choice[place] += 1;
    }
}

#[test]
fn the_parser_returns_on_what_it_is_handed_in_a_set() {
    let pieces = ["inherit", "(", ")", ".", ";", "a", "or", "{", "}", "="];
    for length in 0..=5 {
        assert!(parse_all("{ ", &pieces, length) > 0);
    }
}

#[test]
fn the_parser_returns_on_what_it_is_handed_behind_an_inherit() {
    let pieces = ["inherit", "(", ")", ".", ";", "a", "or", "{", "x:", "\"s\"", "[", "1", "./p", "-"];
    for length in 0..=4 {
        assert!(parse_all("{ inherit ", &pieces, length) <= 14usize.pow(4));
    }
}

#[test]
fn the_parser_returns_on_what_it_is_handed_behind_an_open_group() {
    let pieces = ["inherit", "(", ")", ".", ";", "a", "or", "{", "x:", "\"s\"", "[", "1", "./p", "-"];
    for length in 0..=4 {
        assert!(parse_all("let inherit (a ", &pieces, length) <= 14usize.pow(4));
    }
}

#[test]
fn the_parser_returns_on_longer_values_behind_an_inherit() {
    let pieces = ["(", ")", ".", ";", "a", "or", "2"];
    for length in 0..=6 {
        assert!(parse_all("{ inherit (f ", &pieces, length) <= 7usize.pow(6));
    }
}

#[test]
fn the_parser_returns_on_longer_names_behind_an_inherit() {
    let pieces = ["(", ")", ".", ";", "a", "or", "2"];
    assert!(parse_all("{ inherit ", &pieces, 6) > 0);
    assert!(parse_all("{ inherit (a) ", &pieces, 6) > 0);
}
