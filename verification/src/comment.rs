//! Turns the raw text of the comments in front of a definition into its
//! documentation: the comment delimiters and line markers are taken off, the
//! common indentation is removed, and blank lines at the end are dropped.

use crate::text::{
    chars_of, copy_range, is_blank, is_space, is_whitespace, join_lines, leading_ws,
    lemma_leading_ws, lemma_leading_ws_is, line_views, skip_leading_ws, skip_trailing_ws,
    split_lines, split_window, string_of, trim, trim_end, trim_start,
};
use vstd::prelude::*;

verus! {

/// The characters that open a line inside a comment: `#` in a line comment,
/// `*` in a block comment.
pub open spec fn is_marker(c: char) -> bool {
    c == '#' || c == '*'
}

/// The index of the marker of `line`, if the line has one to take off: the
/// first character after the leading whitespace, when it is a marker and is
/// followed by whitespace or by the end of the line.
pub open spec fn marker_index(line: Seq<char>) -> Option<int> {
    let k = leading_ws(line) as int;
    if k < line.len() && is_marker(line[k]) && (k + 1 == line.len() || is_whitespace(line[k + 1])) {
        Some(k)
    } else {
        None
    }
}

/// `line` without its marker and what stands before it. A marker that is
/// followed by something else than whitespace stays, and so does the line.
pub open spec fn strip_line_marker(line: Seq<char>) -> Seq<char> {
    match marker_index(line) {
        Some(k) => line.skip(k + 1),
        None => line,
    }
}

/// `s` begins with `/*`.
pub open spec fn has_opener(s: Seq<char>) -> bool {
    s.len() >= 2 && s[0] == '/' && s[1] == '*'
}

/// `s` ends with `*/`.
pub open spec fn has_closer(s: Seq<char>) -> bool {
    s.len() >= 2 && s[s.len() - 2] == '*' && s[s.len() - 1] == '/'
}

/// `s` without the block-comment openers it begins with.
pub open spec fn strip_openers(s: Seq<char>) -> Seq<char>
    decreases s.len(),
{
    if has_opener(s) {
        strip_openers(s.skip(2))
    } else {
        s
    }
}

/// `s` without the block-comment closers it ends with.
pub open spec fn strip_closers(s: Seq<char>) -> Seq<char>
    decreases s.len(),
{
    if has_closer(s) {
        strip_closers(s.take(s.len() - 2))
    } else {
        s
    }
}

/// One comment without its delimiters and the whitespace around them.
pub open spec fn strip_delimiters(fragment: Seq<char>) -> Seq<char> {
    trim(strip_closers(trim_end(strip_openers(trim_start(fragment)))))
}

/// The lines of one comment, each without its marker.
pub open spec fn fragment_lines(fragment: Seq<char>) -> Seq<Seq<char>> {
    split_lines(strip_delimiters(fragment)).map_values(|l: Seq<char>| strip_line_marker(l))
}

/// The lines of a run of comments. The comments are given nearest first, as
/// they are found when walking back from a definition; their lines come out
/// in the order of the source.
pub open spec fn doc_lines(fragments: Seq<Seq<char>>) -> Seq<Seq<char>>
    decreases fragments.len(),
{
    if fragments.len() == 0 {
        Seq::<Seq<char>>::empty()
    } else {
        doc_lines(fragments.drop_first()) + fragment_lines(fragments[0])
    }
}

/// The least indentation among the lines that are not blank, if there is one.
pub open spec fn min_indent(lines: Seq<Seq<char>>) -> Option<nat>
    decreases lines.len(),
{
    if lines.len() == 0 {
        None
    } else {
        let before = min_indent(lines.drop_last());
        let line = lines.last();
        if is_blank(line) {
            before
        } else {
            match before {
                None => Some(leading_ws(line)),
                Some(m) => Some(if m <= leading_ws(line) {
                    m
                } else {
                    leading_ws(line)
                }),
            }
        }
    }
}

/// The indentation to remove from a block of lines. The first line does not
/// count as long as a later one is not blank: a block comment often starts
/// on the line of its opener, with an indentation of its own.
pub open spec fn indent_width(lines: Seq<Seq<char>>) -> nat {
    if lines.len() == 0 {
        0
    } else {
        match min_indent(lines.skip(1)) {
            Some(m) => m,
            None => if is_blank(lines[0]) {
                0
            } else {
                leading_ws(lines[0])
            },
        }
    }
}

/// `line` without a carriage return at its end.
pub open spec fn drop_cr(line: Seq<char>) -> Seq<char> {
    if line.len() > 0 && line.last() == '\r' {
        line.drop_last()
    } else {
        line
    }
}

/// The lines as they are read: a line that a newline ends may end in a
/// carriage return before it, which is no part of the line. The last line is
/// ended by no newline.
pub open spec fn logical_lines(lines: Seq<Seq<char>>) -> Seq<Seq<char>> {
    Seq::new(
        lines.len(),
        |i: int|
            if i + 1 < lines.len() {
                drop_cr(lines[i])
            } else {
                lines[i]
            },
    )
}

/// `line` without `width` characters of its indentation, or without all of
/// its indentation where it has less.
pub open spec fn dedent_line(line: Seq<char>, width: nat) -> Seq<char> {
    if width <= leading_ws(line) {
        line.skip(width as int)
    } else {
        line.skip(leading_ws(line) as int)
    }
}

/// The number of blank lines at the end of `lines`.
pub open spec fn trailing_blank(lines: Seq<Seq<char>>) -> nat
    decreases lines.len(),
{
    if lines.len() > 0 && is_blank(lines.last()) {
        1 + trailing_blank(lines.drop_last())
    } else {
        0
    }
}

/// `lines` without the blank lines at their end. The last line left, if
/// any is left, holds a character that is no whitespace.
pub open spec fn trim_blank_lines(lines: Seq<Seq<char>>) -> Seq<Seq<char>> {
    lines.take(lines.len() - trailing_blank(lines))
}

/// The lines with their common indentation removed.
pub open spec fn dedented(lines: Seq<Seq<char>>) -> Seq<Seq<char>> {
    let read = logical_lines(lines);
    read.map_values(|l: Seq<char>| dedent_line(l, indent_width(read)))
}

/// A block of lines as one text: dedented, without the blank lines at its
/// end, and joined.
pub open spec fn dedent_lines(lines: Seq<Seq<char>>) -> Seq<char> {
    join_lines(trim_blank_lines(dedented(lines)))
}

/// A text with the common indentation of its lines removed.
pub open spec fn dedent(text: Seq<char>) -> Seq<char> {
    dedent_lines(split_lines(text))
}

/// The documentation that a run of comments holds. The comments are given
/// nearest first. An empty result means that there is no documentation.
pub open spec fn normalize(fragments: Seq<Seq<char>>) -> Seq<char> {
    dedent_lines(doc_lines(fragments))
}

/// The text of each comment.
pub open spec fn fragment_views(comments: Seq<&str>) -> Seq<Seq<char>> {
    Seq::new(comments.len(), |i: int| comments[i]@)
}

/// A line that is not blank bounds the least indentation.
pub proof fn lemma_min_indent_bound(lines: Seq<Seq<char>>, i: int)
    requires
        0 <= i < lines.len(),
        !is_blank(lines[i]),
    ensures
        min_indent(lines) is Some,
        min_indent(lines).unwrap() <= leading_ws(lines[i]),
    decreases lines.len(),
{
    if i < lines.len() - 1 {
        let init = lines.drop_last();
        assert(init[i] == lines[i]);
        lemma_min_indent_bound(init, i);
    }
}

/// Blank lines have no least indentation.
pub proof fn lemma_min_indent_none(lines: Seq<Seq<char>>)
    requires
        forall|i: int| 0 <= i < lines.len() ==> is_blank(#[trigger] lines[i]),
    ensures
        min_indent(lines) is None,
    decreases lines.len(),
{
    if lines.len() > 0 {
        let init = lines.drop_last();
        assert forall|i: int| 0 <= i < init.len() implies is_blank(#[trigger] init[i]) by {
            assert(init[i] == lines[i]);
        }
        lemma_min_indent_none(init);
        assert(is_blank(lines[lines.len() - 1]));
    }
}

/// `trailing_blank(lines)` is the one count `k` such that the last `k`
/// lines are blank and the one before them, if any, is not.
proof fn lemma_trailing_blank_is(lines: Seq<Seq<char>>, k: int)
    requires
        0 <= k <= lines.len(),
        forall|i: int| lines.len() - k <= i < lines.len() ==> is_blank(#[trigger] lines[i]),
        k == lines.len() || !is_blank(lines[lines.len() - k - 1]),
    ensures
        trailing_blank(lines) == k,
    decreases k,
{
    if k > 0 {
        assert(is_blank(lines[lines.len() - 1]));
        let init = lines.drop_last();
        assert forall|i: int| init.len() - (k - 1) <= i < init.len() implies is_blank(
            #[trigger] init[i],
        ) by {
            assert(init[i] == lines[i]);
        }
        lemma_trailing_blank_is(init, k - 1);
    }
}

/// A line is blank after its indentation is taken off exactly when it was
/// blank before.
pub proof fn lemma_dedent_line_blank(line: Seq<char>, width: nat)
    ensures
        is_blank(dedent_line(line, width)) == is_blank(line),
{
    lemma_leading_ws(line);
    let n = leading_ws(line);
    let k: int = if width <= n {
        width as int
    } else {
        n as int
    };
    let rest = line.skip(k);
    assert forall|i: int| 0 <= i < n - k implies is_whitespace(#[trigger] rest[i]) by {
        assert(rest[i] == line[i + k]);
    }
    if n < line.len() {
        assert(rest[n - k] == line[n as int]);
    }
    lemma_leading_ws_is(rest, n - k);
}

/// The window of `v` that is left of a comment when its delimiters and the
/// whitespace around them are taken off.
fn fragment_window(v: &Vec<char>) -> (w: (usize, usize))
    ensures
        w.0 <= w.1 <= v.len(),
        v@.subrange(w.0 as int, w.1 as int) == strip_delimiters(v@),
{
    let len = v.len();
    let mut lo = skip_leading_ws(v, 0, len);
    assert(v@.subrange(0, len as int) == v@);
    while len - lo >= 2 && v[lo] == '/' && v[lo + 1] == '*'
        invariant
            lo <= len == v.len(),
            strip_openers(v@.subrange(lo as int, len as int)) == strip_openers(trim_start(v@)),
        decreases len - lo,
    {
        proof {
            let s = v@.subrange(lo as int, len as int);
            assert(has_opener(s));
            assert(s.skip(2) == v@.subrange(lo + 2, len as int));
        }
        lo += 2;
    }
    assert(!has_opener(v@.subrange(lo as int, len as int)));
    let mut hi = skip_trailing_ws(v, lo, len);
    let ghost ended = v@.subrange(lo as int, hi as int);
    while hi - lo >= 2 && v[hi - 2] == '*' && v[hi - 1] == '/'
        invariant
            lo <= hi <= len == v.len(),
            strip_closers(v@.subrange(lo as int, hi as int)) == strip_closers(ended),
        decreases hi - lo,
    {
        proof {
            let s = v@.subrange(lo as int, hi as int);
            assert(has_closer(s));
            assert(s.take(s.len() - 2) == v@.subrange(lo as int, hi - 2));
        }
        hi -= 2;
    }
    assert(!has_closer(v@.subrange(lo as int, hi as int)));
    let lo2 = skip_leading_ws(v, lo, hi);
    let hi2 = skip_trailing_ws(v, lo2, hi);
    (lo2, hi2)
}

/// The part of the line `v` that stays when its marker is taken off.
fn marker_window(v: &Vec<char>) -> (lo: usize)
    ensures
        lo <= v.len(),
        v@.subrange(lo as int, v.len() as int) == strip_line_marker(v@),
{
    let len = v.len();
    assert(v@.subrange(0, len as int) == v@);
    let k = skip_leading_ws(v, 0, len);
    if k < len && (v[k] == '#' || v[k] == '*') && (k + 1 == len || is_space(v[k + 1])) {
        assert(v@.skip(k + 1) == v@.subrange(k + 1, len as int));
        k + 1
    } else {
        0
    }
}

/// Appends to `lines` the lines of the comment `fragment`.
fn push_fragment_lines(lines: &mut Vec<Vec<char>>, fragment: &str)
    ensures
        line_views(final(lines)@) == line_views(old(lines)@) + fragment_lines(fragment@),
{
    let chars = chars_of(fragment);
    let (lo, hi) = fragment_window(&chars);
    let raw = split_window(&chars, lo, hi);
    let ghost start = line_views(lines@);
    let ghost target = fragment_lines(fragment@);
    let mut i: usize = 0;
    while i < raw.len()
        invariant
            i <= raw.len(),
            line_views(raw@) == split_lines(strip_delimiters(fragment@)),
            target == fragment_lines(fragment@),
            line_views(lines@) == start + target.take(i as int),
        decreases raw.len() - i,
    {
        let line = &raw[i];
        let from = marker_window(line);
        let kept = copy_range(line, from, line.len());
        let ghost before = line_views(lines@);
        lines.push(kept);
        proof {
            assert(line_views(raw@)[i as int] == line@);
            assert(target[i as int] == strip_line_marker(line@));
            assert(line_views(lines@) == before.push(kept@));
            assert(target.take(i + 1) == target.take(i as int).push(target[i as int]));
        }
        i += 1;
    }
    assert(target.take(raw.len() as int) == target);
}

/// The indentation of the line `v`, whose end is at `end`.
fn indent_of(v: &Vec<char>, end: usize) -> (r: usize)
    requires
        end <= v.len(),
    ensures
        r == leading_ws(v@.take(end as int)),
        r <= end,
{
    assert(v@.subrange(0, end as int) == v@.take(end as int));
    skip_leading_ws(v, 0, end)
}

/// The end of line `i` as it is read: before the carriage return, if a
/// newline follows it.
fn logical_end(lines: &Vec<Vec<char>>, i: usize) -> (end: usize)
    requires
        i < lines.len(),
    ensures
        end <= lines[i as int].len(),
        lines[i as int]@.take(end as int) == logical_lines(line_views(lines@))[i as int],
{
    let line = &lines[i];
    let n = line.len();
    assert(line@.take(n as int) == line@);
    if i + 1 < lines.len() && n > 0 && line[n - 1] == '\r' {
        n - 1
    } else {
        n
    }
}

/// The text of a block of lines, dedented.
fn dedent_block(lines: &Vec<Vec<char>>) -> (out: Vec<char>)
    ensures
        out@ == dedent_lines(line_views(lines@)),
{
    let ghost read = logical_lines(line_views(lines@));
    let ghost rest = read.skip(1);
    let n = lines.len();
    if n == 0 {
        let out: Vec<char> = Vec::new();
        proof {
            assert(dedented(line_views(lines@)).len() == 0);
        }
        return out;
    }
    // First pass: the indentation of the first line that is not blank,
    // looking at the first line last.
    let mut width: usize = 0;
    let mut found = false;
    let mut i: usize = 1;
    while i < n && !found
        invariant
            1 <= i <= n == lines.len(),
            read == logical_lines(line_views(lines@)),
            rest == read.skip(1),
            !found ==> width == 0,
            !found ==> forall|j: int| 0 <= j < i - 1 ==> is_blank(#[trigger] rest[j]),
            found ==> i >= 2 && !is_blank(rest[i - 2]) && width == leading_ws(rest[i - 2]),
        decreases n - i + (if found { 0int } else { 1int }),
    {
        let end = logical_end(lines, i);
        let indent = indent_of(&lines[i], end);
        assert(rest[i - 1] == read[i as int]);
        if indent != end {
            width = indent;
            found = true;
        }
        i += 1;
    }
    if !found {
        let end = logical_end(lines, 0);
        let indent = indent_of(&lines[0], end);
        if indent != end {
            width = indent;
        }
    }
    // Second pass: a line after the first may be indented less.
    let ghost base: usize = width;
    let mut i: usize = 1;
    while i < n
        invariant
            1 <= i <= n == lines.len(),
            read == logical_lines(line_views(lines@)),
            rest == read.skip(1),
            width as nat == match min_indent(rest.take(i - 1)) {
                Some(m) => if m <= base {
                    m
                } else {
                    base as nat
                },
                None => base as nat,
            },
        decreases n - i,
    {
        let end = logical_end(lines, i);
        let indent = indent_of(&lines[i], end);
        proof {
            assert(rest[i - 1] == read[i as int]);
            assert(rest.take(i as int).drop_last() == rest.take(i - 1));
            assert(rest.take(i as int).last() == rest[i - 1]);
        }
        if indent != end {
            if indent < width {
                width = indent;
            }
        }
        i += 1;
    }
    proof {
        assert(rest.take(n - 1) == rest);
        if found {
            let f = choose|f: int|
                0 <= f < rest.len() && !is_blank(rest[f]) && base == leading_ws(rest[f]);
            lemma_min_indent_bound(rest, f);
        } else {
            lemma_min_indent_none(rest);
        }
        assert(width == indent_width(read));
    }
    // Leave out the blank lines at the end.
    let ghost target = dedented(line_views(lines@));
    let mut keep: usize = n;
    let mut at_end = false;
    while keep > 0 && !at_end
        invariant
            keep <= n == lines.len(),
            read == logical_lines(line_views(lines@)),
            forall|k: int| keep <= k < n ==> is_blank(#[trigger] read[k]),
            at_end ==> keep > 0 && !is_blank(read[keep - 1]),
        decreases keep + (if at_end { 0int } else { 1int }),
    {
        let end = logical_end(lines, keep - 1);
        if indent_of(&lines[keep - 1], end) == end {
            keep -= 1;
        } else {
            at_end = true;
        }
    }
    proof {
        assert forall|k: int| 0 <= k < n implies is_blank(#[trigger] target[k]) == is_blank(
            read[k],
        ) by {
            lemma_dedent_line_blank(read[k], indent_width(read));
        }
        lemma_trailing_blank_is(target, n - keep);
    }
    // Take the indentation off each line and put the lines together.
    let mut out: Vec<char> = Vec::new();
    let mut i: usize = 0;
    while i < keep
        invariant
            i <= keep <= n == lines.len(),
            read == logical_lines(line_views(lines@)),
            width == indent_width(read),
            target == dedented(line_views(lines@)),
            out@ == join_lines(target.take(i as int)),
        decreases keep - i,
    {
        let end = logical_end(lines, i);
        let indent = indent_of(&lines[i], end);
        let from = if width <= indent {
            width
        } else {
            indent
        };
        if i > 0 {
            out.push('\n');
        }
        let line = &lines[i];
        let ghost joined = out@;
        let mut j: usize = from;
        while j < end
            invariant
                from <= j <= end <= line.len(),
                out@ == joined + line@.subrange(from as int, j as int),
            decreases end - j,
        {
            out.push(line[j]);
            j += 1;
        }
        proof {
            assert(line@.subrange(from as int, end as int) == line@.take(end as int).skip(
                from as int,
            ));
            assert(target[i as int] == dedent_line(read[i as int], indent_width(read)));
            assert(target.take(i + 1).drop_last() == target.take(i as int));
            assert(target.take(i + 1).last() == target[i as int]);
            if i == 0 {
                assert(joined == Seq::<char>::empty());
                assert(target.take(1)[0] == target[0]);
            }
        }
        i += 1;
    }
    out
}

/// Takes the marker off one line of a comment: a `#` or `*` after the
/// leading whitespace, with that whitespace, when whitespace or the end of
/// the line follows it. Any other line is returned as it is.
pub fn cleanup_single_line(s: &str) -> (r: String)
    ensures
        r@ == strip_line_marker(s@),
{
    let chars = chars_of(s);
    let lo = marker_window(&chars);
    string_of(&chars, lo, chars.len())
}

/// Removes the common indentation of the lines of `s`, going by the lines
/// after the first, and the blank lines at its end.
pub fn dedent_comment(s: &str) -> (r: String)
    ensures
        r@ == dedent(s@),
{
    let chars = chars_of(s);
    assert(chars@.subrange(0, chars.len() as int) == chars@);
    let lines = split_window(&chars, 0, chars.len());
    let out = dedent_block(&lines);
    assert(out@.subrange(0, out.len() as int) == out@);
    string_of(&out, 0, out.len())
}

/// The documentation held by the comments that stand in front of a
/// definition, given nearest first.
pub fn cleanup_comments(comments: &[&str]) -> (r: String)
    ensures
        r@ == normalize(fragment_views(comments@)),
{
    let ghost fragments = fragment_views(comments@);
    let mut lines: Vec<Vec<char>> = Vec::new();
    let mut i: usize = comments.len();
    assert(fragments.skip(i as int) == Seq::<Seq<char>>::empty());
    while i > 0
        invariant
            i <= comments.len(),
            fragments == fragment_views(comments@),
            line_views(lines@) == doc_lines(fragments.skip(i as int)),
        decreases i,
    {
        i -= 1;
        proof {
            let tail = fragments.skip(i as int);
            assert(tail.drop_first() == fragments.skip(i + 1));
            assert(tail[0] == comments@[i as int]@);
        }
        push_fragment_lines(&mut lines, comments[i]);
    }
    assert(fragments.skip(0) == fragments);
    let out = dedent_block(&lines);
    assert(out@.subrange(0, out.len() as int) == out@);
    string_of(&out, 0, out.len())
}

} // verus!
