//! The tokens of a source, looked at before the source is handed to the
//! parser. The parser reads the names of an `inherit` until it sees the
//! semicolon behind them, and on a source in which that semicolon does not
//! come it never returns. So a source is parsed only where every `inherit`
//! has a form on which the parser is sure to meet that semicolon:
//! `inherit`, then values in parentheses or none, then values, then a
//! semicolon. A value is an identifier other than `or`, a literal, or values
//! in parentheses, with any number of `.name` behind it.
//!
//! On such tokens the parser reads each value with one call of `parse_val`:
//! an identifier, a literal or a group, and the `.name` behind it in the
//! loop that follows. Each call takes the tokens of its value and no more,
//! so the loop over the names stands before the semicolon in the end.

use rnix::tokenizer::Tokenizer;
use rnix::SyntaxKind::{
    TOKEN_COMMENT, TOKEN_DOT, TOKEN_ERROR, TOKEN_FLOAT, TOKEN_IDENT, TOKEN_INHERIT, TOKEN_INTEGER,
    TOKEN_PAREN_CLOSE, TOKEN_PAREN_OPEN, TOKEN_PATH, TOKEN_SEMICOLON, TOKEN_URI, TOKEN_WHITESPACE,
};
use vstd::prelude::*;

verus! {

/// What a token is, as far as the form of an `inherit` goes.
#[derive(Clone, Copy, Debug, PartialEq, Eq, Structural)]
pub enum TokenKind {
    /// The keyword `inherit`.
    Inherit,
    /// `(`
    ParenOpen,
    /// `)`
    ParenClose,
    /// `.`
    Dot,
    /// `;`
    Semicolon,
    /// An identifier.
    Ident,
    /// A literal: a number, a path or a URI.
    Literal,
    /// What the parser passes over between two tokens: whitespace, a
    /// comment, or a piece that the tokenizer could not read.
    Trivia,
    /// Any other token.
    Other,
}

/// One token: its kind and the number of bytes of its text. The tokens of a
/// source follow each other without a gap.
#[derive(Clone, Copy, Debug, PartialEq, Eq, Structural)]
pub struct Token {
    pub kind: TokenKind,
    pub len: usize,
}

/// The tokens that `rnix::tokenizer::Tokenizer` cuts `source` into, in
/// order, each with its kind and the length of its text.
pub uninterp spec fn source_tokens(source: Seq<char>) -> Seq<Token>;

/// Runs `rnix::tokenizer::Tokenizer` over `source` to its end and keeps of
/// each token the kind and the length of the text. The tokenizer takes at
/// least one character for each token but one empty error token at the end
/// of a string, so it comes to an end on every source.
#[verifier::external_body]
pub(crate) fn tokenize(source: &str) -> (tokens: Vec<Token>)
    ensures
        tokens@ == source_tokens(source@),
{
    Tokenizer::new(source).map(|(kind, text)| Token {
        kind: match kind {
            TOKEN_COMMENT | TOKEN_ERROR | TOKEN_WHITESPACE => TokenKind::Trivia,
            TOKEN_INHERIT => TokenKind::Inherit, TOKEN_IDENT => TokenKind::Ident,
            TOKEN_FLOAT | TOKEN_INTEGER | TOKEN_PATH | TOKEN_URI => TokenKind::Literal,
            TOKEN_PAREN_OPEN => TokenKind::ParenOpen, TOKEN_PAREN_CLOSE => TokenKind::ParenClose,
            TOKEN_DOT => TokenKind::Dot, TOKEN_SEMICOLON => TokenKind::Semicolon,
            _ => TokenKind::Other,
        },
        len: text.len(),
    }).collect()
}

/// The offset at which token `i` begins: the lengths of the tokens before
/// it.
pub open spec fn offset_of(tokens: Seq<Token>, i: int) -> int
    decreases i,
{
    if i <= 0 || i > tokens.len() {
        0
    } else {
        offset_of(tokens, i - 1) + tokens[i - 1].len
    }
}

/// The tokens are as long as a source of `len` bytes.
pub open spec fn tokens_fit(tokens: Seq<Token>, len: nat) -> bool {
    offset_of(tokens, tokens.len() as int) == len
}

/// Token `j` is the identifier `or`, which the parser reads as an operator
/// where it follows a value.
pub open spec fn is_or(tokens: Seq<Token>, source: Seq<u8>, j: int) -> bool {
    let at = offset_of(tokens, j);
    &&& tokens[j].len == 2
    &&& at + 2 <= source.len()
    &&& source[at] == 111
    &&& source[at + 1] == 114
}

/// The first token from `i` on that is no trivia, or the number of tokens
/// where there is none.
pub open spec fn next_solid(tokens: Seq<Token>, i: int) -> int
    decreases tokens.len() - i,
{
    if i < 0 || i >= tokens.len() {
        tokens.len() as int
    } else if tokens[i].kind != TokenKind::Trivia {
        i
    } else {
        next_solid(tokens, i + 1)
    }
}

/// Where the name behind the dot at token `i` ends: the index behind the
/// identifier that follows the dot. `None` where no identifier follows.
pub open spec fn attr_end(tokens: Seq<Token>, i: int) -> Option<int> {
    let j = next_solid(tokens, i + 1);
    if i < j < tokens.len() && tokens[j].kind == TokenKind::Ident {
        Some(j + 1)
    } else {
        None
    }
}

/// Where the values in parentheses end that go on at token `i`: the index
/// behind the parenthesis that closes them. `depth` is the number of groups
/// that are open inside them, and `want_value` tells that a value is due,
/// as at the start of a group, which may not be empty. `None` where the
/// tokens from `i` on are no such values.
pub open spec fn source_end(
    tokens: Seq<Token>,
    source: Seq<u8>,
    i: int,
    depth: nat,
    want_value: bool,
) -> Option<int>
    decreases tokens.len() - i,
{
    if i < 0 || i >= tokens.len() {
        None
    } else {
        match tokens[i].kind {
            TokenKind::Trivia => source_end(tokens, source, i + 1, depth, want_value),
            TokenKind::Ident => if is_or(tokens, source, i) {
                None
            } else {
                source_end(tokens, source, i + 1, depth, false)
            },
            TokenKind::Literal => source_end(tokens, source, i + 1, depth, false),
            TokenKind::Dot => if want_value {
                None
            } else {
                match attr_end(tokens, i) {
                    Some(k) => source_end(tokens, source, k, depth, false),
                    None => None,
                }
            },
            TokenKind::ParenOpen => source_end(tokens, source, i + 1, depth + 1, true),
            TokenKind::ParenClose => if want_value {
                None
            } else if depth == 0 {
                Some(i + 1)
            } else {
                source_end(tokens, source, i + 1, (depth - 1) as nat, false)
            },
            _ => None,
        }
    }
}

/// From token `i` on stand values, or none, and then a semicolon. `depth`
/// is the number of groups that are open, and `want_value` tells that no
/// value stands just before: at the very start, where the semicolon may
/// follow at once, and at the start of a group, which may not be empty. The
/// semicolon must stand outside every group.
pub open spec fn names_end(
    tokens: Seq<Token>,
    source: Seq<u8>,
    i: int,
    depth: nat,
    want_value: bool,
) -> bool
    decreases tokens.len() - i,
{
    if i < 0 || i >= tokens.len() {
        false
    } else {
        match tokens[i].kind {
            TokenKind::Trivia => names_end(tokens, source, i + 1, depth, want_value),
            TokenKind::Semicolon => depth == 0,
            TokenKind::Ident => !is_or(tokens, source, i) && names_end(
                tokens,
                source,
                i + 1,
                depth,
                false,
            ),
            TokenKind::Literal => names_end(tokens, source, i + 1, depth, false),
            TokenKind::Dot => !want_value && match attr_end(tokens, i) {
                Some(k) => names_end(tokens, source, k, depth, false),
                None => false,
            },
            TokenKind::ParenOpen => names_end(tokens, source, i + 1, depth + 1, true),
            TokenKind::ParenClose => !want_value && depth > 0 && names_end(
                tokens,
                source,
                i + 1,
                (depth - 1) as nat,
                false,
            ),
            _ => false,
        }
    }
}

/// The tokens from `i` on are what may follow the keyword `inherit`:
/// values in parentheses or none, then values and a semicolon.
pub open spec fn inherit_ends(tokens: Seq<Token>, source: Seq<u8>, i: int) -> bool
    decreases tokens.len() - i,
{
    if i < 0 || i >= tokens.len() {
        false
    } else {
        match tokens[i].kind {
            TokenKind::Trivia => inherit_ends(tokens, source, i + 1),
            TokenKind::ParenOpen => match source_end(tokens, source, i + 1, 0, true) {
                Some(k) => names_end(tokens, source, k, 0, true),
                None => false,
            },
            _ => names_end(tokens, source, i, 0, true),
        }
    }
}

/// Every `inherit` among the tokens has such a form.
pub open spec fn inherits_end(tokens: Seq<Token>, source: Seq<u8>) -> bool {
    forall|i: int|
        0 <= i < tokens.len() && (#[trigger] tokens[i]).kind == TokenKind::Inherit
            ==> inherit_ends(tokens, source, i + 1)
}

/// The tokens are those of a source that the parser is handed: they are as
/// long as the source, and every `inherit` among them has a form on which
/// the parser meets its semicolon.
pub open spec fn parser_ends(tokens: Seq<Token>, source: Seq<u8>) -> bool {
    tokens_fit(tokens, source.len()) && inherits_end(tokens, source)
}

/// The tokens begin one behind the other.
pub proof fn lemma_offsets_grow(tokens: Seq<Token>, i: int, j: int)
    requires
        0 <= i <= j <= tokens.len(),
    ensures
        0 <= offset_of(tokens, i) <= offset_of(tokens, j),
    decreases j,
{
    if i < j {
        lemma_offsets_grow(tokens, i, j - 1);
    } else if i > 0 {
        lemma_offsets_grow(tokens, i - 1, i - 1);
    }
}

/// The offsets at which the tokens begin, and behind them the offset at
/// which the last one ends, if the tokens are as long as a source of `len`
/// bytes.
pub fn token_offsets(tokens: &Vec<Token>, len: usize) -> (r: Option<Vec<usize>>)
    ensures
        match r {
            Some(offsets) => tokens_fit(tokens@, len as nat) && offsets.len() == tokens.len() + 1
                && forall|k: int|
                0 <= k <= tokens.len() ==> (#[trigger] offsets[k]) == offset_of(tokens@, k)
                    && offsets[k] <= len,
            None => !tokens_fit(tokens@, len as nat),
        },
{
    let mut offsets: Vec<usize> = Vec::new();
    let mut at: usize = 0;
    let mut i: usize = 0;
    while i < tokens.len()
        invariant
            i <= tokens.len(),
            at == offset_of(tokens@, i as int),
            at <= len,
            offsets.len() == i,
            forall|k: int|
                0 <= k < i ==> (#[trigger] offsets[k]) == offset_of(tokens@, k) && offsets[k]
                    <= len,
        decreases tokens.len() - i,
    {
        offsets.push(at);
        if tokens[i].len > len - at {
            proof {
                lemma_offsets_grow(tokens@, i + 1, tokens.len() as int);
            }
            return None;
        }
        at += tokens[i].len;
        i += 1;
    }
    if at != len {
        return None;
    }
    offsets.push(at);
    Some(offsets)
}

/// What is known of the offsets while the tokens are gone through.
pub open spec fn offsets_fit(tokens: Seq<Token>, source: Seq<u8>, offsets: Seq<usize>) -> bool {
    &&& offsets.len() == tokens.len() + 1
    &&& forall|k: int|
        0 <= k <= tokens.len() ==> (#[trigger] offsets[k]) == offset_of(tokens, k) && offsets[k]
            <= source.len()
}

/// The first token from `i` on that is no trivia.
fn next_solid_at(tokens: &Vec<Token>, i: usize) -> (j: usize)
    ensures
        j == next_solid(tokens@, i as int),
        i <= j || j == tokens.len(),
        j <= tokens.len(),
{
    let mut j: usize = i;
    while j < tokens.len()
        invariant
            i <= j,
            next_solid(tokens@, i as int) == next_solid(tokens@, j as int),
        decreases tokens.len() - j,
    {
        match tokens[j].kind {
            TokenKind::Trivia => {},
            _ => {
                return j;
            },
        }
        j += 1;
    }
    tokens.len()
}

/// Tells whether token `j`, an identifier, is `or`.
fn is_or_at(tokens: &Vec<Token>, source: &[u8], offsets: &Vec<usize>, j: usize) -> (b: bool)
    requires
        j < tokens.len(),
        offsets_fit(tokens@, source@, offsets@),
    ensures
        b == is_or(tokens@, source@, j as int),
{
    let at = offsets[j];
    assert(offsets[j + 1] == at + tokens[j as int].len);
    tokens[j].len == 2 && source[at] == 111 && source[at + 1] == 114
}

/// Where the values in parentheses end that begin at token `i`.
fn source_end_at(tokens: &Vec<Token>, source: &[u8], offsets: &Vec<usize>, i: usize) -> (r: Option<
    usize,
>)
    requires
        offsets_fit(tokens@, source@, offsets@),
    ensures
        match r {
            Some(k) => source_end(tokens@, source@, i as int, 0, true) == Some(k as int) && k
                <= tokens.len(),
            None => source_end(tokens@, source@, i as int, 0, true) is None,
        },
{
    let mut j: usize = i;
    let mut depth: usize = 0;
    let mut want_value = true;
    while j < tokens.len()
        invariant
            offsets_fit(tokens@, source@, offsets@),
            depth <= j,
            source_end(tokens@, source@, i as int, 0, true) == source_end(
                tokens@,
                source@,
                j as int,
                depth as nat,
                want_value,
            ),
        decreases tokens.len() - j,
    {
        match tokens[j].kind {
            TokenKind::Trivia => {},
            TokenKind::Ident => {
                if is_or_at(tokens, source, offsets, j) {
                    return None;
                }
                want_value = false;
            },
            TokenKind::Literal => {
                want_value = false;
            },
            TokenKind::Dot => {
                if want_value {
                    return None;
                }
                let name = next_solid_at(tokens, j + 1);
                if name >= tokens.len() {
                    return None;
                }
                match tokens[name].kind {
                    TokenKind::Ident => {},
                    _ => {
                        return None;
                    },
                }
                j = name;
            },
            TokenKind::ParenOpen => {
                depth += 1;
                want_value = true;
            },
            TokenKind::ParenClose => {
                if want_value {
                    return None;
                }
                if depth == 0 {
                    return Some(j + 1);
                }
                depth -= 1;
            },
            _ => {
                return None;
            },
        }
        j += 1;
    }
    None
}

/// Tells whether values and a semicolon stand from token `i` on.
fn names_end_at(tokens: &Vec<Token>, source: &[u8], offsets: &Vec<usize>, i: usize) -> (r: bool)
    requires
        offsets_fit(tokens@, source@, offsets@),
    ensures
        r == names_end(tokens@, source@, i as int, 0, true),
{
    let mut j: usize = i;
    let mut depth: usize = 0;
    let mut want_value = true;
    while j < tokens.len()
        invariant
            offsets_fit(tokens@, source@, offsets@),
            depth <= j,
            names_end(tokens@, source@, i as int, 0, true) == names_end(
                tokens@,
                source@,
                j as int,
                depth as nat,
                want_value,
            ),
        decreases tokens.len() - j,
    {
        match tokens[j].kind {
            TokenKind::Trivia => {},
            TokenKind::Semicolon => {
                return depth == 0;
            },
            TokenKind::Ident => {
                if is_or_at(tokens, source, offsets, j) {
                    return false;
                }
                want_value = false;
            },
            TokenKind::Literal => {
                want_value = false;
            },
            TokenKind::Dot => {
                if want_value {
                    return false;
                }
                let name = next_solid_at(tokens, j + 1);
                if name >= tokens.len() {
                    return false;
                }
                match tokens[name].kind {
                    TokenKind::Ident => {},
                    _ => {
                        return false;
                    },
                }
                j = name;
            },
            TokenKind::ParenOpen => {
                depth += 1;
                want_value = true;
            },
            TokenKind::ParenClose => {
                if want_value || depth == 0 {
                    return false;
                }
                depth -= 1;
            },
            _ => {
                return false;
            },
        }
        j += 1;
    }
    false
}

/// Tells whether the tokens from `i` on are what may follow `inherit`.
fn inherit_ends_at(tokens: &Vec<Token>, source: &[u8], offsets: &Vec<usize>, i: usize) -> (r: bool)
    requires
        offsets_fit(tokens@, source@, offsets@),
    ensures
        r == inherit_ends(tokens@, source@, i as int),
{
    let mut j: usize = i;
    while j < tokens.len()
        invariant
            offsets_fit(tokens@, source@, offsets@),
            inherit_ends(tokens@, source@, i as int) == inherit_ends(tokens@, source@, j as int),
        decreases tokens.len() - j,
    {
        match tokens[j].kind {
            TokenKind::Trivia => {},
            TokenKind::ParenOpen => {
                return match source_end_at(tokens, source, offsets, j + 1) {
                    Some(k) => names_end_at(tokens, source, offsets, k),
                    None => false,
                };
            },
            _ => {
                return names_end_at(tokens, source, offsets, j);
            },
        }
        j += 1;
    }
    false
}

/// Tells whether the tokens are those of a source that the parser is
/// handed: as long as the source, and with every `inherit` in a form on
/// which the parser meets its semicolon.
pub fn parser_ends_on(tokens: &Vec<Token>, source: &[u8]) -> (r: bool)
    ensures
        r == parser_ends(tokens@, source@),
{
    let offsets = match token_offsets(tokens, source.len()) {
        Some(offsets) => offsets,
        None => {
            return false;
        },
    };
    let mut i: usize = 0;
    while i < tokens.len()
        invariant
            i <= tokens.len(),
            offsets_fit(tokens@, source@, offsets@),
            forall|k: int|
                0 <= k < i && (#[trigger] tokens@[k]).kind == TokenKind::Inherit ==> inherit_ends(
                    tokens@,
                    source@,
                    k + 1,
                ),
        decreases tokens.len() - i,
    {
        match tokens[i].kind {
            TokenKind::Inherit => {
                if !inherit_ends_at(tokens, source, &offsets, i + 1) {
                    return false;
                }
            },
            _ => {},
        }
        i += 1;
    }
    true
}

} // verus!
