//! Reading a source text into a syntax tree. The parser is `rnix`; the tree
//! that it builds is walked once and kept as a `SyntaxTree`.
//!
//! The parser is handed a source only where it comes to an end on it: see
//! `tokens`. Every loop of the parser takes a token in each round or stops
//! where the tokens end, but for the loop over the names of an `inherit`,
//! which waits for a semicolon.

use crate::syntax::{
    tree_of_walk, well_formed, Element, NodeKind, SyntaxTree, TreeModel, WalkStep,
};
use rnix::SyntaxKind::{
    NODE_ATTR_SET, NODE_IDENT, NODE_INHERIT, NODE_KEY, NODE_KEY_VALUE, NODE_LAMBDA, TOKEN_ASSIGN,
    TOKEN_COMMENT, TOKEN_ERROR, TOKEN_WHITESPACE,
};
use crate::tokens::{parser_ends, parser_ends_on, source_tokens, tokenize};
use rnix::WalkEvent;
use vstd::prelude::*;
use vstd::string::StringSliceAdditionalSpecFns;
use vstd::utf8::encode_utf8;

verus! {

/// The longest source, in bytes, that is handed to the parser: its trees
/// hold offsets of 32 bits.
pub const MAX_SOURCE_LEN: usize = 0xffff_ffff;

/// The walk through the tree that `rnix::parse` builds for `source`: the
/// events of `preorder_with_tokens` from its root, each element with the
/// kind, the sort (node or token) and the byte range that the tree gives it.
pub uninterp spec fn syntax_walk(source: Seq<char>) -> Seq<WalkStep>;

/// The message of the first error that `rnix::parse` reports for `source`,
/// if it reports one.
pub uninterp spec fn syntax_error(source: Seq<char>) -> Option<Seq<char>>;

/// Calls `rnix::parse` on `source` and walks the tree from its root with
/// `preorder_with_tokens`. Each event becomes one step; of an element that
/// is entered the step keeps the kind, whether it is a token, and the start
/// and end of its text range. Nothing is claimed of the steps but that they
/// are what the parser gives for this source.
///
/// The parser comes to an end on the source: under `parser_ends`, behind
/// every `inherit` stand values in parentheses or none, then values, then a
/// semicolon, where a value is an identifier other than `or`, a literal or
/// a group of values in parentheses, with `.name` behind it or not. The
/// parser reads each value with one call of `parse_val`, which takes the
/// tokens of that value and no more, so the loop over the names of the
/// `inherit` meets its semicolon.
#[verifier::external_body]
fn walk_source(source: &str) -> (steps: Vec<WalkStep>)
    requires
        source.spec_bytes().len() <= MAX_SOURCE_LEN,
        parser_ends(source_tokens(source@), source.spec_bytes()),
    ensures
        steps@ == syntax_walk(source@),
{
    rnix::parse(source).node().preorder_with_tokens().map(|event| match event {
        WalkEvent::Leave(_) => WalkStep::Leave,
        WalkEvent::Enter(e) => WalkStep::Enter {
            kind: match e.kind() {
                TOKEN_COMMENT => NodeKind::Comment, TOKEN_WHITESPACE => NodeKind::Whitespace,
                TOKEN_ERROR => NodeKind::ErrorToken, TOKEN_ASSIGN => NodeKind::Assign,
                NODE_KEY => NodeKind::Key, NODE_KEY_VALUE => NodeKind::KeyValue,
                NODE_ATTR_SET => NodeKind::AttrSet, NODE_LAMBDA => NodeKind::Lambda,
                NODE_IDENT => NodeKind::Ident, NODE_INHERIT => NodeKind::Inherit,
                _ => NodeKind::Other,
            },
            token: e.as_token().is_some(),
            start: e.text_range().start().to_usize(), end: e.text_range().end().to_usize(),
        },
    }).collect()
}

/// Calls `rnix::parse` on `source` and asks the result for its first error
/// with `AST::as_result`; the error is handed out as the text that it
/// displays. The parser comes to an end on the source, as for
/// `walk_source`.
#[verifier::external_body]
fn first_syntax_error(source: &str) -> (error: Option<String>)
    requires
        source.spec_bytes().len() <= MAX_SOURCE_LEN,
        parser_ends(source_tokens(source@), source.spec_bytes()),
    ensures
        match error {
            Some(message) => syntax_error(source@) == Some(message@),
            None => syntax_error(source@) is None,
        },
{
    rnix::parse(source).as_result().err().map(|e| e.to_string())
}

/// Why a source gave no tree.
#[derive(Debug)]
pub enum ParseError {
    /// The source is longer than `MAX_SOURCE_LEN` bytes.
    TooLarge,
    /// An `inherit` of the source has a form on which the parser is not
    /// known to find its end, closed or not; the parser is not handed such
    /// a source.
    UnknownInherit,
    /// The parser reports an error; this is its message.
    Syntax(String),
    /// What the parser handed out is the walk of no tree.
    Malformed,
}

/// `source` is handed to the parser: it is short enough, and every
/// `inherit` in it has a form on which the parser meets its semicolon.
pub open spec fn is_parsed(source: Seq<char>) -> bool {
    encode_utf8(source).len() <= MAX_SOURCE_LEN && parser_ends(
        source_tokens(source),
        encode_utf8(source),
    )
}

/// The elements of the tree of `source`, where it is handed to the parser
/// and the parser's walk is that of a tree.
pub open spec fn parsed(source: Seq<char>) -> Option<Seq<Element>> {
    if !is_parsed(source) {
        None
    } else {
        tree_of_walk(syntax_walk(source), encode_utf8(source).len())
    }
}

/// The tree of `source`, where it has one.
pub open spec fn source_model(source: Seq<char>) -> Option<TreeModel> {
    match parsed(source) {
        Some(elements) => Some(TreeModel { source: encode_utf8(source), elements }),
        None => None,
    }
}

/// Tells whether `source` is handed to the parser.
pub fn can_parse(source: &str) -> (b: bool)
    ensures
        b == is_parsed(source@),
{
    if source.as_bytes().len() > MAX_SOURCE_LEN {
        return false;
    }
    let tokens = tokenize(source);
    parser_ends_on(&tokens, source.as_bytes())
}

/// The syntax tree of `source`. The parser goes on after an error, so a
/// source with errors has a tree as well.
pub fn parse<'a>(source: &'a str) -> (r: Option<SyntaxTree<'a>>)
    ensures
        match r {
            Some(tree) => source_model(source@) == Some(tree@) && tree.source_ref() == source
                && well_formed(tree@.elements, tree@.source.len()),
            None => source_model(source@) is None,
        },
{
    if !can_parse(source) {
        return None;
    }
    let steps = walk_source(source);
    SyntaxTree::from_walk(source, &steps)
}

/// The syntax tree of `source`, if the parser reports no error for it.
pub fn parse_strict<'a>(source: &'a str) -> (r: Result<SyntaxTree<'a>, ParseError>)
    ensures
        match r {
            Ok(tree) => is_parsed(source@) && syntax_error(source@) is None && source_model(
                source@,
            ) == Some(tree@) && tree.source_ref() == source && well_formed(
                tree@.elements,
                tree@.source.len(),
            ),
            Err(ParseError::TooLarge) => source.spec_bytes().len() > MAX_SOURCE_LEN,
            Err(ParseError::UnknownInherit) => source.spec_bytes().len() <= MAX_SOURCE_LEN
                && !is_parsed(source@),
            Err(ParseError::Syntax(message)) => is_parsed(source@) && syntax_error(source@)
                == Some(message@),
            Err(ParseError::Malformed) => is_parsed(source@) && syntax_error(source@) is None
                && source_model(source@) is None,
        },
{
    if source.as_bytes().len() > MAX_SOURCE_LEN {
        return Err(ParseError::TooLarge);
    }
    if !can_parse(source) {
        return Err(ParseError::UnknownInherit);
    }
    match first_syntax_error(source) {
        Some(message) => Err(ParseError::Syntax(message)),
        None => {
            let steps = walk_source(source);
            match SyntaxTree::from_walk(source, &steps) {
                Some(tree) => Ok(tree),
                None => Err(ParseError::Malformed),
            }
        },
    }
}

} // verus!
