//! Character-level text operations: whitespace, trimming, and splitting a text
//! into lines and joining it back.
//!
//! Texts are modelled as `Seq<char>`. The executable functions work on a
//! window `[lo, hi)` of a `Vec<char>`, so that a text is copied only when a
//! line is cut out of it.

use vstd::prelude::*;

verus! {

/// `String::push` appends one character to the string.
pub assume_specification[ String::push ](s: &mut String, c: char)
    ensures
        final(s)@ == old(s)@.push(c),
;

/// The characters that Unicode counts as white space (`White_Space`).
pub open spec fn is_whitespace(c: char) -> bool {
    ||| ('\u{9}' <= c && c <= '\u{d}')
    ||| c == ' '
    ||| c == '\u{85}'
    ||| c == '\u{a0}'
    ||| c == '\u{1680}'
    ||| ('\u{2000}' <= c && c <= '\u{200a}')
    ||| c == '\u{2028}'
    ||| c == '\u{2029}'
    ||| c == '\u{202f}'
    ||| c == '\u{205f}'
    ||| c == '\u{3000}'
}

/// Tells whether `c` is a whitespace character.
pub fn is_space(c: char) -> (b: bool)
    ensures
        b == is_whitespace(c),
{
    ('\u{9}' <= c && c <= '\u{d}') || c == ' ' || c == '\u{85}' || c == '\u{a0}' || c == '\u{1680}'
        || ('\u{2000}' <= c && c <= '\u{200a}') || c == '\u{2028}' || c == '\u{2029}' || c
        == '\u{202f}' || c == '\u{205f}' || c == '\u{3000}'
}

/// The number of whitespace characters at the start of `s`.
pub open spec fn leading_ws(s: Seq<char>) -> nat
    decreases s.len(),
{
    if s.len() > 0 && is_whitespace(s[0]) {
        1 + leading_ws(s.skip(1))
    } else {
        0
    }
}

/// The number of whitespace characters at the end of `s`.
pub open spec fn trailing_ws(s: Seq<char>) -> nat
    decreases s.len(),
{
    if s.len() > 0 && is_whitespace(s.last()) {
        1 + trailing_ws(s.drop_last())
    } else {
        0
    }
}

/// `s` without its leading whitespace.
pub open spec fn trim_start(s: Seq<char>) -> Seq<char> {
    s.skip(leading_ws(s) as int)
}

/// `s` without its trailing whitespace.
pub open spec fn trim_end(s: Seq<char>) -> Seq<char> {
    s.take(s.len() - trailing_ws(s))
}

/// `s` without its leading and trailing whitespace.
pub open spec fn trim(s: Seq<char>) -> Seq<char> {
    trim_end(trim_start(s))
}

/// A line is blank when it holds nothing but whitespace.
pub open spec fn is_blank(s: Seq<char>) -> bool {
    leading_ws(s) == s.len()
}

/// `leading_ws(s)` is the one index `k` such that everything before `k` is
/// whitespace and `k` is the end of `s` or a character that is not.
pub proof fn lemma_leading_ws_is(s: Seq<char>, k: int)
    requires
        0 <= k <= s.len(),
        forall|i: int| 0 <= i < k ==> is_whitespace(#[trigger] s[i]),
        k == s.len() || !is_whitespace(s[k]),
    ensures
        leading_ws(s) == k,
    decreases k,
{
    if k > 0 {
        assert(is_whitespace(s[0]));
        let t = s.skip(1);
        assert forall|i: int| 0 <= i < k - 1 implies is_whitespace(#[trigger] t[i]) by {
            assert(t[i] == s[i + 1]);
        }
        lemma_leading_ws_is(t, k - 1);
    }
}

/// What `leading_ws(s)` counts.
pub proof fn lemma_leading_ws(s: Seq<char>)
    ensures
        leading_ws(s) <= s.len(),
        forall|i: int| 0 <= i < leading_ws(s) ==> is_whitespace(#[trigger] s[i]),
        leading_ws(s) < s.len() ==> !is_whitespace(s[leading_ws(s) as int]),
    decreases s.len(),
{
    if s.len() > 0 && is_whitespace(s[0]) {
        let t = s.skip(1);
        lemma_leading_ws(t);
        assert forall|i: int| 0 <= i < leading_ws(s) implies is_whitespace(#[trigger] s[i]) by {
            if i > 0 {
                assert(s[i] == t[i - 1]);
            }
        }
        if leading_ws(s) < s.len() {
            assert(s[leading_ws(s) as int] == t[leading_ws(t) as int]);
        }
    }
}

/// `trailing_ws(s)` is the one count `k` such that the last `k` characters are
/// whitespace and the one before them, if any, is not.
pub proof fn lemma_trailing_ws_is(s: Seq<char>, k: int)
    requires
        0 <= k <= s.len(),
        forall|i: int| s.len() - k <= i < s.len() ==> is_whitespace(#[trigger] s[i]),
        k == s.len() || !is_whitespace(s[s.len() - k - 1]),
    ensures
        trailing_ws(s) == k,
    decreases k,
{
    if k > 0 {
        assert(is_whitespace(s[s.len() - 1]));
        let t = s.drop_last();
        assert forall|i: int| t.len() - (k - 1) <= i < t.len() implies is_whitespace(
            #[trigger] t[i],
        ) by {
            assert(t[i] == s[i]);
        }
        lemma_trailing_ws_is(t, k - 1);
    }
}

/// What `trailing_ws(s)` counts.
pub proof fn lemma_trailing_ws(s: Seq<char>)
    ensures
        trailing_ws(s) <= s.len(),
        forall|i: int| s.len() - trailing_ws(s) <= i < s.len() ==> is_whitespace(#[trigger] s[i]),
        trailing_ws(s) < s.len() ==> !is_whitespace(s[s.len() - trailing_ws(s) - 1]),
    decreases s.len(),
{
    if s.len() > 0 && is_whitespace(s.last()) {
        let t = s.drop_last();
        lemma_trailing_ws(t);
        assert forall|i: int| s.len() - trailing_ws(s) <= i < s.len() implies is_whitespace(
            #[trigger] s[i],
        ) by {
            if i < s.len() - 1 {
                assert(s[i] == t[i]);
            }
        }
        if trailing_ws(s) < s.len() {
            assert(s[s.len() - trailing_ws(s) - 1] == t[t.len() - trailing_ws(t) - 1]);
        }
    }
}

/// The lines of `s`: the pieces between its newline characters. A text with
/// `n` newlines has `n + 1` lines, some of which may be empty.
pub open spec fn split_lines(s: Seq<char>) -> Seq<Seq<char>>
    decreases s.len(),
{
    if s.len() == 0 {
        seq![Seq::<char>::empty()]
    } else {
        let before = split_lines(s.drop_last());
        if s.last() == '\n' {
            before.push(Seq::<char>::empty())
        } else {
            before.update(before.len() - 1, before.last().push(s.last()))
        }
    }
}

/// The lines joined with one newline between each two.
pub open spec fn join_lines(lines: Seq<Seq<char>>) -> Seq<char>
    decreases lines.len(),
{
    if lines.len() == 0 {
        Seq::<char>::empty()
    } else if lines.len() == 1 {
        lines[0]
    } else {
        join_lines(lines.drop_last()) + seq!['\n'] + lines.last()
    }
}

/// A text has at least one line.
pub proof fn lemma_split_lines(s: Seq<char>)
    ensures
        split_lines(s).len() >= 1,
    decreases s.len(),
{
    if s.len() > 0 {
        lemma_split_lines(s.drop_last());
    }
}

/// Joining the lines of a text gives the text back.
pub proof fn lemma_join_split(s: Seq<char>)
    ensures
        join_lines(split_lines(s)) == s,
    decreases s.len(),
{
    if s.len() > 0 {
        let t = s.drop_last();
        lemma_join_split(t);
        lemma_split_lines(t);
        let before = split_lines(t);
        let after = split_lines(s);
        if s.last() == '\n' {
            assert(after.drop_last() == before);
            assert(join_lines(after) == join_lines(before) + seq!['\n'] + Seq::<char>::empty());
            assert(s == t + seq!['\n']);
        } else {
            let last = before.last().push(s.last());
            if before.len() == 1 {
                assert(after[0] == last);
                assert(before[0] == t);
                assert(last == s);
            } else {
                assert(after.drop_last() == before.drop_last());
                assert(join_lines(after) == join_lines(before.drop_last()) + seq!['\n'] + last);
                assert(join_lines(before) == join_lines(before.drop_last()) + seq!['\n']
                    + before.last());
                assert(s == t.push(s.last()));
            }
        }
    }
}

/// Joining with one more line puts a newline and the line at the end.
pub proof fn lemma_join_push_line(lines: Seq<Seq<char>>, line: Seq<char>)
    requires
        lines.len() >= 1,
    ensures
        join_lines(lines.push(line)) == join_lines(lines) + seq!['\n'] + line,
{
    assert(lines.push(line).drop_last() == lines);
}

/// Joining with one more character on the last line puts the character at
/// the end.
pub proof fn lemma_join_push_char(lines: Seq<Seq<char>>, c: char)
    requires
        lines.len() >= 1,
    ensures
        join_lines(lines.update(lines.len() - 1, lines.last().push(c))) == join_lines(lines).push(
            c,
        ),
{
    let after = lines.update(lines.len() - 1, lines.last().push(c));
    if lines.len() > 1 {
        assert(after.drop_last() == lines.drop_last());
        assert(join_lines(after) == join_lines(lines.drop_last()) + seq!['\n'] + lines.last().push(
            c,
        ));
        assert(join_lines(lines) == join_lines(lines.drop_last()) + seq!['\n'] + lines.last());
    }
}

/// The view of each line.
pub open spec fn line_views(lines: Seq<Vec<char>>) -> Seq<Seq<char>> {
    Seq::new(lines.len(), |i: int| lines[i]@)
}

/// The characters of `s`, in order.
pub fn chars_of(s: &str) -> (v: Vec<char>)
    ensures
        v@ == s@,
{
    let mut v: Vec<char> = Vec::new();
    for c in it: s.chars()
        invariant
            v@ == it.seq().take(it.index() as int),
            it.seq() == s@,
    {
        v.push(c);
    }
    v
}

/// The string made of the characters of `v` from `lo` up to `hi`.
pub fn string_of(v: &Vec<char>, lo: usize, hi: usize) -> (s: String)
    requires
        lo <= hi <= v.len(),
    ensures
        s@ == v@.subrange(lo as int, hi as int),
{
    let mut s = String::new();
    let mut i: usize = lo;
    while i < hi
        invariant
            lo <= i <= hi <= v.len(),
            s@ == v@.subrange(lo as int, i as int),
        decreases hi - i,
    {
        s.push(v[i]);
        i += 1;
    }
    s
}

/// A copy of the characters of `v` from `lo` up to `hi`.
pub fn copy_range(v: &Vec<char>, lo: usize, hi: usize) -> (r: Vec<char>)
    requires
        lo <= hi <= v.len(),
    ensures
        r@ == v@.subrange(lo as int, hi as int),
{
    let mut r: Vec<char> = Vec::new();
    let mut i: usize = lo;
    while i < hi
        invariant
            lo <= i <= hi <= v.len(),
            r@ == v@.subrange(lo as int, i as int),
        decreases hi - i,
    {
        r.push(v[i]);
        i += 1;
    }
    r
}

/// The start of the window `[lo, hi)` of `v` once its leading whitespace is
/// left out.
pub fn skip_leading_ws(v: &Vec<char>, lo: usize, hi: usize) -> (r: usize)
    requires
        lo <= hi <= v.len(),
    ensures
        lo <= r <= hi,
        r - lo == leading_ws(v@.subrange(lo as int, hi as int)),
        v@.subrange(r as int, hi as int) == trim_start(v@.subrange(lo as int, hi as int)),
{
    let mut r: usize = lo;
    while r < hi && is_space(v[r])
        invariant
            lo <= r <= hi <= v.len(),
            forall|i: int| lo <= i < r ==> is_whitespace(#[trigger] v@[i]),
        decreases hi - r,
    {
        r += 1;
    }
    proof {
        let w = v@.subrange(lo as int, hi as int);
        assert forall|i: int| 0 <= i < r - lo implies is_whitespace(#[trigger] w[i]) by {
            assert(w[i] == v@[lo + i]);
        }
        lemma_leading_ws_is(w, r - lo);
        assert(w.skip(r - lo) == v@.subrange(r as int, hi as int));
    }
    r
}

/// The end of the window `[lo, hi)` of `v` once its trailing whitespace is
/// left out.
pub fn skip_trailing_ws(v: &Vec<char>, lo: usize, hi: usize) -> (r: usize)
    requires
        lo <= hi <= v.len(),
    ensures
        lo <= r <= hi,
        hi - r == trailing_ws(v@.subrange(lo as int, hi as int)),
        v@.subrange(lo as int, r as int) == trim_end(v@.subrange(lo as int, hi as int)),
{
    let mut r: usize = hi;
    while r > lo && is_space(v[r - 1])
        invariant
            lo <= r <= hi <= v.len(),
            forall|i: int| r <= i < hi ==> is_whitespace(#[trigger] v@[i]),
        decreases r - lo,
    {
        r -= 1;
    }
    proof {
        let w = v@.subrange(lo as int, hi as int);
        assert forall|i: int| w.len() - (hi - r) <= i < w.len() implies is_whitespace(
            #[trigger] w[i],
        ) by {
            assert(w[i] == v@[lo + i]);
        }
        lemma_trailing_ws_is(w, hi - r);
        assert(w.take(w.len() - (hi - r)) == v@.subrange(lo as int, r as int));
    }
    r
}

/// The lines of the window `[lo, hi)` of `v`.
pub fn split_window(v: &Vec<char>, lo: usize, hi: usize) -> (lines: Vec<Vec<char>>)
    requires
        lo <= hi <= v.len(),
    ensures
        line_views(lines@) == split_lines(v@.subrange(lo as int, hi as int)),
{
    let mut lines: Vec<Vec<char>> = Vec::new();
    let mut current: Vec<char> = Vec::new();
    let mut i: usize = lo;
    while i < hi
        invariant
            lo <= i <= hi <= v.len(),
            line_views(lines@).push(current@) == split_lines(v@.subrange(lo as int, i as int)),
        decreases hi - i,
    {
        proof {
            let t = v@.subrange(lo as int, i as int);
            let u = v@.subrange(lo as int, i + 1);
            assert(u.drop_last() == t);
            assert(u.last() == v@[i as int]);
        }
        let c = v[i];
        if c == '\n' {
            let ghost before = line_views(lines@);
            lines.push(current);
            current = Vec::new();
            proof {
                assert(line_views(lines@) == before.push(lines@.last()@));
            }
        } else {
            let ghost before = line_views(lines@).push(current@);
            current.push(c);
            proof {
                assert(line_views(lines@).push(current@) == before.update(
                    before.len() - 1,
                    before.last().push(c),
                ));
            }
        }
        i += 1;
    }
    let ghost before = line_views(lines@);
    lines.push(current);
    proof {
        assert(line_views(lines@) == before.push(lines@.last()@));
    }
    lines
}

} // verus!
