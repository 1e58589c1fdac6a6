//! How a search result is shown: the documentation indented, the name and
//! the parameters of the function below it, and the place of the definition
//! in a last line.

use crate::style::{bold_white, bold_white_text, grey, grey_text};
use crate::text::{
    chars_of, join_lines, lemma_join_push_char, lemma_join_push_line, lemma_split_lines,
    split_lines,
};
use vstd::prelude::*;
use vstd::string::StringExecFns;

verus! {

/// The number of spaces that a documentation is indented by.
pub const DOC_INDENT: usize = 3;

/// The number of characters of the rule between two results.
pub const RULE_WIDTH: usize = 45;

/// `n` spaces.
pub open spec fn spaces(n: nat) -> Seq<char> {
    Seq::new(n, |i: int| ' ')
}

/// `s` with `n` spaces in front of each of its lines.
pub open spec fn indented_text(s: Seq<char>, n: nat) -> Seq<char> {
    join_lines(split_lines(s).map_values(|l: Seq<char>| spaces(n) + l))
}

/// The character of the decimal digit `d`.
pub open spec fn digit_char(d: nat) -> char {
    (48 + d) as char
}

/// `n` in decimal digits.
pub open spec fn decimal_text(n: nat) -> Seq<char>
    decreases n,
{
    if n < 10 {
        seq![digit_char(n)]
    } else {
        decimal_text(n / 10).push(digit_char(n % 10))
    }
}

/// A search result as it is shown: the documentation `doc`, indented; a
/// line with the name in bold white, ` = ` and the parameters; and a line
/// with `# `, the file, a colon and the line number.
pub open spec fn formatted(
    doc: Seq<char>,
    identifier: Seq<char>,
    param_block: Seq<char>,
    filename: Seq<char>,
    line: nat,
) -> Seq<char> {
    indented_text(doc, DOC_INDENT as nat) + seq!['\n'] + bold_white_text(identifier) + seq![
        ' ',
        '=',
        ' ',
    ] + param_block + seq!['\n', '#', ' '] + filename + seq![':'] + decimal_text(line)
}

/// The rule that is shown between two results: a line of box-drawing
/// characters in dark grey.
pub open spec fn rule_text() -> Seq<char> {
    grey_text(Seq::new(RULE_WIDTH as nat, |i: int| '\u{2500}'))
}

/// What is shown for a batch of results: the results, with a rule in front
/// of each but the very first one shown.
pub open spec fn shown(started: bool, batch: Seq<Seq<char>>) -> Seq<Seq<char>>
    decreases batch.len(),
{
    if batch.len() == 0 {
        Seq::empty()
    } else {
        let before = shown(started, batch.drop_last());
        if started || batch.len() > 1 {
            before.push(rule_text()).push(batch.last())
        } else {
            before.push(batch.last())
        }
    }
}

/// How the indented text grows with one more character: a newline is
/// followed by the indentation of the line that it opens.
proof fn lemma_indented_push(t: Seq<char>, c: char, n: nat)
    ensures
        indented_text(t.push(c), n) == if c == '\n' {
            indented_text(t, n) + seq!['\n'] + spaces(n)
        } else {
            indented_text(t, n).push(c)
        },
{
    let f = |l: Seq<char>| spaces(n) + l;
    let u = t.push(c);
    assert(u.drop_last() == t);
    assert(u.last() == c);
    lemma_split_lines(t);
    let before = split_lines(t);
    let mapped = before.map_values(f);
    if c == '\n' {
        assert(split_lines(u).map_values(f) == mapped.push(spaces(n) + Seq::<char>::empty()));
        lemma_join_push_line(mapped, spaces(n) + Seq::<char>::empty());
        assert(spaces(n) + Seq::<char>::empty() == spaces(n));
    } else {
        assert(split_lines(u).map_values(f) == mapped.update(
            mapped.len() - 1,
            mapped.last().push(c),
        )) by {
            assert((spaces(n) + before.last()).push(c) == spaces(n) + before.last().push(c));
        }
        lemma_join_push_char(mapped, c);
    }
}

/// Appends `n` spaces to `out`.
fn push_spaces(out: &mut String, n: usize)
    ensures
        final(out)@ == old(out)@ + spaces(n as nat),
{
    let ghost start = out@;
    let mut i: usize = 0;
    while i < n
        invariant
            i <= n,
            out@ == start + spaces(i as nat),
        decreases n - i,
    {
        out.push(' ');
        assert(spaces((i + 1) as nat) == spaces(i as nat).push(' '));
        i += 1;
    }
    assert(spaces(0) == Seq::<char>::empty());
}

/// `s` with `indent` spaces in front of each of its lines.
pub fn indented(s: &str, indent: usize) -> (r: String)
    ensures
        r@ == indented_text(s@, indent as nat),
{
    let chars = chars_of(s);
    let mut out = String::new();
    push_spaces(&mut out, indent);
    proof {
        assert(chars@.take(0) == Seq::<char>::empty());
        assert(split_lines(Seq::<char>::empty()).map_values(
            |l: Seq<char>| spaces(indent as nat) + l,
        ) == seq![spaces(indent as nat) + Seq::<char>::empty()]);
    }
    let mut i: usize = 0;
    while i < chars.len()
        invariant
            i <= chars.len(),
            out@ == indented_text(chars@.take(i as int), indent as nat),
        decreases chars.len() - i,
    {
        let c = chars[i];
        proof {
            lemma_indented_push(chars@.take(i as int), c, indent as nat);
            assert(chars@.take(i + 1) == chars@.take(i as int).push(c));
        }
        out.push(c);
        if c == '\n' {
            push_spaces(&mut out, indent);
        }
        i += 1;
    }
    assert(chars@.take(chars.len() as int) == chars@);
    out
}

/// Appends `n` in decimal digits to `out`.
pub fn push_decimal(out: &mut String, n: usize)
    ensures
        final(out)@ == old(out)@ + decimal_text(n as nat),
    decreases n,
{
    if n >= 10 {
        push_decimal(out, n / 10);
    }
    let d = (n % 10) as u8;
    let c = (48u8 + d) as char;
    out.push(c);
}

/// The text of a search result: see `formatted`.
pub fn format_result(
    doc: &str,
    identifier: &str,
    param_block: &str,
    filename: &str,
    line: usize,
) -> (r: String)
    ensures
        r@ == formatted(doc@, identifier@, param_block@, filename@, line as nat),
{
    let mut out = indented(doc, DOC_INDENT);
    out.push('\n');
    let name = bold_white(identifier);
    out.append(name.as_str());
    out.push(' ');
    out.push('=');
    out.push(' ');
    out.append(param_block);
    out.push('\n');
    out.push('#');
    out.push(' ');
    out.append(filename);
    out.push(':');
    push_decimal(&mut out, line);
    out
}

/// The rule that is shown between two results.
pub fn rule() -> (r: String)
    ensures
        r@ == rule_text(),
{
    let mut line = String::new();
    let mut i: usize = 0;
    while i < RULE_WIDTH
        invariant
            i <= RULE_WIDTH,
            line@ == Seq::new(i as nat, |i: int| '\u{2500}'),
        decreases RULE_WIDTH - i,
    {
        line.push('\u{2500}');
        i += 1;
    }
    grey(line.as_str())
}

/// The text of each string.
pub open spec fn string_views(strings: Seq<String>) -> Seq<Seq<char>> {
    Seq::new(strings.len(), |i: int| strings[i]@)
}

/// Shows results as they come in, batch by batch, and remembers whether
/// anything was shown yet.
pub struct Printer {
    pub started: bool,
}

impl Printer {
    /// A printer that has shown nothing.
    pub fn new() -> (p: Printer)
        ensures
            !p.started,
    {
        Printer { started: false }
    }

    /// The lines to print for the results of `batch`, in order. Each result
    /// but the first one ever shown comes after a rule.
    pub fn show(&mut self, batch: Vec<String>) -> (lines: Vec<String>)
        ensures
            string_views(lines@) == shown(old(self).started, string_views(batch@)),
            final(self).started == (old(self).started || batch.len() > 0),
    {
        let ghost wanted = string_views(batch@);
        let ghost started = self.started;
        let mut lines: Vec<String> = Vec::new();
        let mut batch = batch;
        let mut rest: Vec<String> = Vec::new();
        // Take the results from the back, to hand each of them on without a copy.
        let n = batch.len();
        while batch.len() > 0
            invariant
                batch.len() + rest.len() == n,
                n == wanted.len(),
                forall|k: int| 0 <= k < batch.len() ==> (#[trigger] batch[k])@ == wanted[k],
                forall|k: int|
                    0 <= k < rest.len() ==> (#[trigger] rest[k])@ == wanted[n - 1 - k],
            decreases batch.len(),
        {
            let last = batch.pop().unwrap();
            rest.push(last);
        }
        let mut i: usize = 0;
        while i < n
            invariant
                i + rest.len() == n,
                n == wanted.len(),
                self.started == (started || i > 0),
                forall|k: int|
                    0 <= k < rest.len() ==> (#[trigger] rest[k])@ == wanted[n - 1 - k],
                string_views(lines@) == shown(started, wanted.take(i as int)),
            decreases n - i,
        {
            let result = rest.pop().unwrap();
            let ghost before = string_views(lines@);
            proof {
                assert(wanted.take(i + 1).drop_last() == wanted.take(i as int));
                assert(wanted.take(i + 1).last() == wanted[i as int]);
            }
            if self.started {
                let r = rule();
                lines.push(r);
                proof {
                    assert(string_views(lines@) == before.push(rule_text()));
                }
            }
            let ghost middle = string_views(lines@);
            lines.push(result);
            proof {
                assert(string_views(lines@) == middle.push(wanted[i as int]));
            }
            self.started = true;
            i += 1;
        }
        assert(wanted.take(n as int) == wanted);
        lines
    }
}

} // verus!
