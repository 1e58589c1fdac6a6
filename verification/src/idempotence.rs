//! The texts that normalizing leaves as they are, and the proof that it
//! does.

use crate::comment::{
    dedent_line, dedented, doc_lines, drop_cr, fragment_lines, has_closer,
    has_opener, indent_width, logical_lines, marker_index, normalize, strip_closers,
    strip_delimiters, strip_line_marker, strip_openers, trailing_blank, trim_blank_lines,
};
use crate::text::{
    is_blank, is_whitespace, join_lines, leading_ws, lemma_join_split, lemma_leading_ws,
    lemma_split_lines, lemma_trailing_ws, split_lines, trailing_ws, trim, trim_end, trim_start,
};
use vstd::prelude::*;

verus! {

/// Nothing of the lines would be taken off as indentation: the width to
/// remove is 0, or no line begins with whitespace.
pub open spec fn is_flush(lines: Seq<Seq<char>>) -> bool {
    indent_width(lines) == 0 || forall|i: int|
        0 <= i < lines.len() ==> leading_ws(#[trigger] lines[i]) == 0
}

/// A text that normalizing has nothing to do on: it neither begins nor
/// ends with whitespace or with a comment delimiter, none of its lines has
/// a marker to take off or ends in a carriage return before its newline,
/// and its lines are flush.
pub open spec fn is_clean(text: Seq<char>) -> bool {
    let lines = split_lines(text);
    &&& text.len() > 0 ==> !is_whitespace(text[0]) && !is_whitespace(text.last())
    &&& !has_opener(text)
    &&& !has_closer(text)
    &&& forall|i: int| 0 <= i < lines.len() ==> marker_index(#[trigger] lines[i]) is None
    &&& forall|i: int| 0 <= i < lines.len() - 1 ==> drop_cr(#[trigger] lines[i]) == lines[i]
    &&& is_flush(lines)
}

/// Taking the delimiters off a clean text leaves it as it is.
proof fn lemma_clean_delimiters(text: Seq<char>)
    requires
        is_clean(text),
    ensures
        strip_delimiters(text) == text,
{
    assert(leading_ws(text) == 0);
    assert(trim_start(text) == text);
    assert(strip_openers(text) == text);
    assert(trailing_ws(text) == 0);
    assert(trim_end(text) == text);
    assert(strip_closers(text) == text);
    assert(trim(text) == text);
}

/// A clean text comes out of normalizing as it went in.
pub proof fn lemma_clean_is_fixed(text: Seq<char>)
    requires
        is_clean(text),
    ensures
        normalize(seq![text]) == text,
{
    let lines = split_lines(text);
    lemma_clean_delimiters(text);
    lemma_split_lines(text);
    assert(fragment_lines(text) == lines) by {
        assert forall|i: int| 0 <= i < lines.len() implies strip_line_marker(lines[i])
            == lines[i] by {
            assert(marker_index(lines[i]) is None);
        }
        assert(fragment_lines(text) =~= lines);
    }
    assert(doc_lines(seq![text]) == lines) by {
        let one = seq![text];
        assert(one.drop_first() == Seq::<Seq<char>>::empty());
        assert(doc_lines(one.drop_first()) == Seq::<Seq<char>>::empty());
        assert(Seq::<Seq<char>>::empty() + lines == lines);
    }
    assert(logical_lines(lines) == lines) by {
        assert(logical_lines(lines) =~= lines);
    }
    assert(dedented(lines) == lines) by {
        assert forall|i: int| 0 <= i < lines.len() implies dedent_line(
            lines[i],
            indent_width(lines),
        ) == lines[i] by {
            assert(lines[i].skip(0) == lines[i]);
        }
        assert(dedented(lines) =~= lines);
    }
    lemma_join_split(text);
    if text.len() > 0 {
        lemma_last_line(text);
        lemma_leading_ws(lines.last());
        assert(trailing_blank(lines) == 0);
        assert(trim_blank_lines(lines) == lines);
    } else {
        assert(lines.drop_last() == Seq::<Seq<char>>::empty());
        assert(trailing_blank(lines.drop_last()) == 0);
        assert(trailing_blank(lines) == 1);
        assert(trim_blank_lines(lines) == Seq::<Seq<char>>::empty());
    }
}

/// A text that ends in another character than a newline has that character
/// at the end of its last line.
proof fn lemma_last_line(text: Seq<char>)
    requires
        text.len() > 0,
        text.last() != '\n',
    ensures
        split_lines(text).len() > 0,
        split_lines(text).last().len() > 0,
        split_lines(text).last().last() == text.last(),
{
    lemma_split_lines(text.drop_last());
}

/// Lines without some at their end are no longer when joined.
proof fn lemma_joined_len_take(lines: Seq<Seq<char>>, n: int)
    requires
        0 <= n <= lines.len(),
    ensures
        0 <= joined_len(lines.take(n)) <= joined_len(lines),
    decreases lines.len() - n,
{
    if n < lines.len() {
        lemma_joined_len_take(lines, n + 1);
        assert(lines.take(n + 1).drop_last() == lines.take(n));
        lemma_joined_len(lines.take(n));
        lemma_joined_len(lines.take(n + 1));
    } else {
        assert(lines.take(n) == lines);
        lemma_joined_len(lines);
    }
}

/// No more lines are blank at the end than there are lines.
proof fn lemma_trailing_blank_len(lines: Seq<Seq<char>>)
    ensures
        trailing_blank(lines) <= lines.len(),
    decreases lines.len(),
{
    if lines.len() > 0 && is_blank(lines.last()) {
        lemma_trailing_blank_len(lines.drop_last());
    }
}

/// Taking openers off makes a text no longer, and leaves its length only
/// where there is none.
proof fn lemma_strip_openers_len(s: Seq<char>)
    ensures
        strip_openers(s).len() <= s.len(),
        strip_openers(s).len() == s.len() ==> !has_opener(s),
    decreases s.len(),
{
    if has_opener(s) {
        lemma_strip_openers_len(s.skip(2));
    }
}

/// Taking closers off makes a text no longer, and leaves its length only
/// where there is none.
proof fn lemma_strip_closers_len(s: Seq<char>)
    ensures
        strip_closers(s).len() <= s.len(),
        strip_closers(s).len() == s.len() ==> !has_closer(s),
    decreases s.len(),
{
    if has_closer(s) {
        lemma_strip_closers_len(s.take(s.len() - 2));
    }
}

/// Taking the delimiters off makes a text no longer, and leaves its length
/// only where it neither begins nor ends with whitespace or a delimiter.
proof fn lemma_strip_delimiters_len(text: Seq<char>)
    ensures
        strip_delimiters(text).len() <= text.len(),
        strip_delimiters(text).len() == text.len() ==> strip_delimiters(text) == text
            && leading_ws(text) == 0 && trailing_ws(text) == 0 && !has_opener(text)
            && !has_closer(text),
{
    let a = trim_start(text);
    let b = strip_openers(a);
    let c = trim_end(b);
    let d = strip_closers(c);
    let e = trim_start(d);
    lemma_leading_ws(text);
    lemma_strip_openers_len(a);
    lemma_trailing_ws(b);
    lemma_strip_closers_len(c);
    lemma_leading_ws(d);
    lemma_trailing_ws(e);
    if strip_delimiters(text).len() == text.len() {
        assert(a == text);
        assert(b == text);
        assert(c == text);
        assert(d == text);
        assert(e == text);
    }
}

/// The length of joined lines: the lengths of the lines and one newline
/// between each two.
spec fn joined_len(lines: Seq<Seq<char>>) -> int
    decreases lines.len(),
{
    if lines.len() == 0 {
        0
    } else if lines.len() == 1 {
        lines[0].len() as int
    } else {
        joined_len(lines.drop_last()) + 1 + lines.last().len()
    }
}

/// `joined_len` is the length of the joined lines.
proof fn lemma_joined_len(lines: Seq<Seq<char>>)
    ensures
        join_lines(lines).len() == joined_len(lines),
    decreases lines.len(),
{
    if lines.len() > 1 {
        lemma_joined_len(lines.drop_last());
    }
}

/// Lines that are no longer, one by one, are no longer when joined; and of
/// the same length when joined only if they are so one by one.
proof fn lemma_joined_len_le(a: Seq<Seq<char>>, b: Seq<Seq<char>>)
    requires
        a.len() == b.len(),
        forall|i: int| 0 <= i < a.len() ==> (#[trigger] a[i]).len() <= b[i].len(),
    ensures
        joined_len(a) <= joined_len(b),
        joined_len(a) == joined_len(b) ==> forall|i: int|
            0 <= i < a.len() ==> (#[trigger] a[i]).len() == b[i].len(),
    decreases a.len(),
{
    if a.len() > 1 {
        let a0 = a.drop_last();
        let b0 = b.drop_last();
        assert forall|i: int| 0 <= i < a0.len() implies (#[trigger] a0[i]).len() <= b0[i].len() by {
            assert(a0[i] == a[i]);
            assert(b0[i] == b[i]);
        }
        lemma_joined_len_le(a0, b0);
        assert(a.last() == a[a.len() - 1]);
        assert(b.last() == b[b.len() - 1]);
        if joined_len(a) == joined_len(b) {
            assert forall|i: int| 0 <= i < a.len() implies (#[trigger] a[i]).len()
                == b[i].len() by {
                if i < a0.len() {
                    assert(a0[i] == a[i]);
                    assert(b0[i] == b[i]);
                }
            }
        }
    }
}

/// A text that comes out of normalizing as it went in is clean. So the
/// clean texts are all the texts that normalizing leaves alone, and no
/// others.
pub proof fn lemma_fixed_is_clean(text: Seq<char>)
    requires
        normalize(seq![text]) == text,
    ensures
        is_clean(text),
{
    let one = seq![text];
    assert(one.drop_first() == Seq::<Seq<char>>::empty());
    assert(doc_lines(one.drop_first()) == Seq::<Seq<char>>::empty());
    let stripped = strip_delimiters(text);
    let l1 = split_lines(stripped);
    let l2 = fragment_lines(text);
    assert(doc_lines(one) == l2) by {
        assert(Seq::<Seq<char>>::empty() + l2 == l2);
    }
    let l3 = logical_lines(l2);
    let w = indent_width(l3);
    let l4 = dedented(l2);
    let l5 = trim_blank_lines(l4);
    assert(normalize(one) == join_lines(l5));
    // No step makes the text longer.
    lemma_strip_delimiters_len(text);
    lemma_split_lines(stripped);
    lemma_join_split(stripped);
    lemma_joined_len(l1);
    lemma_joined_len(l2);
    lemma_joined_len(l3);
    lemma_joined_len(l4);
    assert forall|i: int| 0 <= i < l2.len() implies (#[trigger] l2[i]).len() <= l1[i].len() by {
        lemma_leading_ws(l1[i]);
    }
    lemma_joined_len_le(l2, l1);
    assert forall|i: int| 0 <= i < l3.len() implies (#[trigger] l3[i]).len() <= l2[i].len() by {}
    lemma_joined_len_le(l3, l2);
    assert forall|i: int| 0 <= i < l4.len() implies (#[trigger] l4[i]).len() <= l3[i].len() by {
        lemma_leading_ws(l3[i]);
    }
    lemma_joined_len_le(l4, l3);
    lemma_trailing_blank_len(l4);
    lemma_joined_len_take(l4, l4.len() - trailing_blank(l4));
    lemma_joined_len(l5);
    // So every step leaves the length, and with it the text.
    assert(stripped == text);
    assert forall|i: int| 0 <= i < l1.len() implies marker_index(#[trigger] l1[i]) is None by {
        lemma_leading_ws(l1[i]);
        assert(l2[i].len() == l1[i].len());
    }
    assert(l2 =~= l1);
    assert forall|i: int| 0 <= i < l1.len() - 1 implies drop_cr(#[trigger] l1[i]) == l1[i] by {
        assert(l3[i].len() == l2[i].len());
    }
    assert(l3 =~= l1);
    assert(is_flush(l1)) by {
        if w != 0 {
            assert forall|i: int| 0 <= i < l1.len() implies leading_ws(#[trigger] l1[i]) == 0 by {
                lemma_leading_ws(l1[i]);
                assert(l4[i].len() == l3[i].len());
                assert(l4[i] == dedent_line(l3[i], w));
            }
        }
    }
    lemma_leading_ws(text);
    lemma_trailing_ws(text);
}

/// Normalizing is idempotent on every run of comments whose documentation
/// is clean: normalizing the documentation once more gives it back.
pub proof fn lemma_normalize_idempotent(fragments: Seq<Seq<char>>)
    requires
        is_clean(normalize(fragments)),
    ensures
        normalize(seq![normalize(fragments)]) == normalize(fragments),
{
    lemma_clean_is_fixed(normalize(fragments));
}

/// Normalizing a documentation once more gives it back exactly when it is
/// clean. A documentation that is not clean still holds something to take
/// off: the line `# a`, say, which is what is left of the comment `# # a`.
pub proof fn lemma_normalize_idempotent_iff(fragments: Seq<Seq<char>>)
    ensures
        normalize(seq![normalize(fragments)]) == normalize(fragments) <==> is_clean(
            normalize(fragments),
        ),
{
    let once = normalize(fragments);
    if is_clean(once) {
        lemma_clean_is_fixed(once);
    }
    if normalize(seq![once]) == once {
        lemma_fixed_is_clean(once);
    }
}

} // verus!
