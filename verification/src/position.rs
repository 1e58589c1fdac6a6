//! Lines and columns of a source text, and the byte offsets they stand for.
//! Lines and columns are counted from 1, in bytes. The newline that ends a
//! line stands on that line, behind its last column.

use vstd::prelude::*;
use vstd::string::StringSliceAdditionalSpecFns;

verus! {

/// The byte that ends a line.
pub const NEWLINE: u8 = 10;

/// The number of newline bytes in `s`.
pub open spec fn count_newlines(s: Seq<u8>) -> nat
    decreases s.len(),
{
    if s.len() == 0 {
        0
    } else {
        count_newlines(s.drop_last()) + if s.last() == NEWLINE {
            1nat
        } else {
            0nat
        }
    }
}

/// The number of the line that offset `pos` of `s` stands on: one more
/// than the number of newlines before it.
pub open spec fn line_of(s: Seq<u8>, pos: int) -> int {
    1 + count_newlines(s.take(pos)) as int
}

/// Where the line of offset `pos` of `s` begins: behind the last newline
/// before `pos`, or at 0.
pub open spec fn line_begin(s: Seq<u8>, pos: int) -> int
    decreases pos,
{
    if pos <= 0 || pos > s.len() {
        0
    } else if s[pos - 1] == NEWLINE {
        pos
    } else {
        line_begin(s, pos - 1)
    }
}

/// The column of offset `pos` of `s`: 1 for the first byte of its line.
pub open spec fn column_of(s: Seq<u8>, pos: int) -> int {
    pos - line_begin(s, pos) + 1
}

/// Byte `i` of `s` stands on line `line` at column `col`.
pub open spec fn at_position(s: Seq<u8>, line: int, col: int, i: int) -> bool {
    0 <= i < s.len() && line_of(s, i) == line && column_of(s, i) == col
}

/// The offset of the byte of `s` that stands on line `line` at column
/// `col`, if there is one.
pub open spec fn position_of(s: Seq<u8>, line: int, col: int) -> Option<int> {
    if exists|i: int| at_position(s, line, col, i) {
        Some(choose|i: int| at_position(s, line, col, i))
    } else {
        None
    }
}

/// A text has no more newlines than bytes.
pub proof fn lemma_count_newlines_bound(s: Seq<u8>)
    ensures
        count_newlines(s) <= s.len(),
    decreases s.len(),
{
    if s.len() > 0 {
        lemma_count_newlines_bound(s.drop_last());
    }
}

/// A longer start of a text has no fewer newlines.
pub proof fn lemma_count_newlines_grows(s: Seq<u8>, i: int, j: int)
    requires
        0 <= i <= j <= s.len(),
    ensures
        count_newlines(s.take(i)) <= count_newlines(s.take(j)),
    decreases j - i,
{
    if i < j {
        assert(s.take(j).drop_last() == s.take(j - 1));
        lemma_count_newlines_grows(s, i, j - 1);
    }
}

/// A line begins at or before each of its bytes, and no later than any
/// byte between them.
pub proof fn lemma_line_begin(s: Seq<u8>, i: int, j: int)
    requires
        0 <= i <= j <= s.len(),
    ensures
        0 <= line_begin(s, i) <= i,
        line_of(s, i) == line_of(s, j) ==> line_begin(s, i) == line_begin(s, j),
    decreases j,
{
    lemma_line_begin_bound(s, i);
    if i < j {
        assert(s.take(j).drop_last() == s.take(j - 1));
        lemma_count_newlines_grows(s, i, j - 1);
        lemma_line_begin(s, i, j - 1);
    }
}

/// A line begins at or before each of its bytes.
pub proof fn lemma_line_begin_bound(s: Seq<u8>, i: int)
    ensures
        0 <= line_begin(s, i) <= if i < 0 {
            0
        } else {
            i
        },
    decreases i,
{
    if 0 < i <= s.len() && s[i - 1] != NEWLINE {
        lemma_line_begin_bound(s, i - 1);
    }
}

/// No two bytes stand at one position: a line and a column name at most
/// one byte.
pub proof fn lemma_position_unique(s: Seq<u8>, line: int, col: int, i: int, j: int)
    requires
        at_position(s, line, col, i),
        at_position(s, line, col, j),
    ensures
        i == j,
{
    if i <= j {
        lemma_line_begin(s, i, j);
    } else {
        lemma_line_begin(s, j, i);
    }
}

/// The byte at a position is the one that `position_of` gives.
pub proof fn lemma_position_of(s: Seq<u8>, line: int, col: int, i: int)
    requires
        at_position(s, line, col, i),
    ensures
        position_of(s, line, col) == Some(i),
{
    let j = choose|j: int| at_position(s, line, col, j);
    lemma_position_unique(s, line, col, i, j);
}

/// The byte that a line and a column lead to stands on that line: looking
/// up the line of a position that was found gives the line asked for.
pub proof fn lemma_line_of_position(s: Seq<u8>, line: int, col: int)
    requires
        position_of(s, line, col) is Some,
    ensures
        line_of(s, position_of(s, line, col).unwrap()) == line,
        column_of(s, position_of(s, line, col).unwrap()) == col,
{
}

/// The number of the line that offset `pos` of `file` stands on, counted
/// from 1.
pub fn find_line(file: &str, pos: usize) -> (n: usize)
    requires
        pos <= file.spec_bytes().len(),
        pos < usize::MAX,
    ensures
        n == line_of(file.spec_bytes(), pos as int),
{
    let bytes = file.as_bytes();
    let mut newlines: usize = 0;
    let mut i: usize = 0;
    while i < pos
        invariant
            i <= pos <= bytes@.len(),
            newlines == count_newlines(bytes@.take(i as int)),
            newlines <= i,
        decreases pos - i,
    {
        proof {
            assert(bytes@.take(i + 1).drop_last() == bytes@.take(i as int));
        }
        if bytes[i] == NEWLINE {
            newlines += 1;
        }
        i += 1;
    }
    newlines + 1
}

/// The offset of the byte of `file` that stands on line `line` at column
/// `col`, if there is one. Lines and columns are counted from 1.
pub fn locate_pos(file: &str, line: usize, col: usize) -> (r: Option<usize>)
    ensures
        match r {
            Some(p) => position_of(file.spec_bytes(), line as int, col as int) == Some(p as int)
                && p < file.spec_bytes().len(),
            None => position_of(file.spec_bytes(), line as int, col as int) is None,
        },
{
    let bytes = file.as_bytes();
    if line == 0 || col == 0 {
        proof {
            assert forall|j: int| !at_position(bytes@, line as int, col as int, j) by {
                lemma_line_begin_bound(bytes@, j);
            }
        }
        return None;
    }
    let mut newlines: usize = 0;
    let mut begin: usize = 0;
    let mut i: usize = 0;
    while i < bytes.len()
        invariant
            i <= bytes@.len(),
            bytes@ == file.spec_bytes(),
            line >= 1,
            col >= 1,
            newlines == count_newlines(bytes@.take(i as int)),
            newlines <= i,
            begin == line_begin(bytes@, i as int),
            begin <= i,
            forall|j: int| 0 <= j < i ==> !at_position(bytes@, line as int, col as int, j),
        decreases bytes@.len() - i,
    {
        if line - 1 == newlines && col - 1 == i - begin {
            proof {
                lemma_position_of(bytes@, line as int, col as int, i as int);
            }
            return Some(i);
        }
        proof {
            assert(bytes@.take(i + 1).drop_last() == bytes@.take(i as int));
        }
        if bytes[i] == NEWLINE {
            newlines += 1;
            begin = i + 1;
        }
        i += 1;
    }
    None
}

/// The offset of the byte of `file` that stands on line `line` at column
/// `col`, for a position that the file has.
pub fn find_pos(file: &str, line: usize, col: usize) -> (p: usize)
    requires
        position_of(file.spec_bytes(), line as int, col as int) is Some,
    ensures
        position_of(file.spec_bytes(), line as int, col as int) == Some(p as int),
{
    match locate_pos(file, line, col) {
        Some(p) => p,
        None => {
            proof {
                assert(false);
            }
            0
        },
    }
}

} // verus!
