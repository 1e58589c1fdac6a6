//! Terminal styling, done by the `colorful` crate: a styled text is the text
//! between two ANSI escape sequences.

use colorful::{Color, Colorful};
use vstd::prelude::*;

verus! {

/// The escape sequence that ends every style.
pub open spec fn style_reset() -> Seq<char> {
    seq!['\u{1b}', '[', '0', 'm']
}

/// `text` in bold white: colour 15 of the 256-colour palette, style 1.
pub open spec fn bold_white_text(text: Seq<char>) -> Seq<char> {
    seq!['\u{1b}', '[', '3', '8', ';', '5', ';', '1', '5', ';', '1', 'm'] + text + style_reset()
}

/// `text` in dark grey: colour 238 of the 256-colour palette.
pub open spec fn grey_text(text: Seq<char>) -> Seq<char> {
    seq!['\u{1b}', '[', '3', '8', ';', '5', ';', '2', '3', '8', 'm'] + text + style_reset()
}

/// `Colorful::white` and then `Colorful::bold` on `text`, displayed. The
/// crate writes the sequence that selects the foreground colour 15, `;1` for
/// bold, the text, and the reset sequence.
#[verifier::external_body]
pub(crate) fn bold_white(text: &str) -> (styled: String)
    ensures
        styled@ == bold_white_text(text@),
{
    text.white().bold().to_string()
}

/// `Colorful::color` with `Color::Grey27` on `text`, displayed. The crate
/// writes the sequence that selects the foreground colour 238, the text, and
/// the reset sequence.
#[verifier::external_body]
pub(crate) fn grey(text: &str) -> (styled: String)
    ensures
        styled@ == grey_text(text@),
{
    text.color(Color::Grey27).to_string()
}

} // verus!
