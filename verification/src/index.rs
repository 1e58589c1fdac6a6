//! The tag index: the tags of all files in one order, without the names that
//! occur too often, written in the extended format of ctags.

use crate::paths::{relative_of, RelativePaths};
use crate::position::NEWLINE;
use crate::sort::sort_tags;
use crate::tag::{
    lemma_bytes_trichotomy, lemma_tag_le_transitive, lemma_tag_order_total, lemma_tag_trichotomy,
    lemma_tag_views_push, lemma_tags_sorted_by, order_bytes, tag_le, tag_lt, tag_order,
    tag_precedes, tag_views, tags_sorted, Kind, Order, Tag, TagModel,
};
use vstd::prelude::*;
use vstd::seq_lib::lemma_sorted_unique;
use vstd::string::StringSliceAdditionalSpecFns;
use vstd::utf8::encode_utf8;

verus! {

/// The byte between two fields of a line.
pub const TAB: u8 = 9;

/// The byte `"`.
pub const QUOTE: u8 = 34;

/// The byte `$`.
pub const DOLLAR: u8 = 36;

/// The byte `/`.
pub const SLASH: u8 = 47;

/// The byte `;`.
pub const SEMICOLON: u8 = 59;

/// The byte `\`.
pub const BACKSLASH: u8 = 92;

/// The byte `^`.
pub const CARET: u8 = 94;

/// The letter `f`, which marks a function.
pub const FUNCTION_LETTER: u8 = 102;

/// The letter `m`, which marks a member.
pub const MEMBER_LETTER: u8 = 109;

/// The bytes that mean something in the pattern by which an editor looks
/// for a line.
pub open spec fn is_magic(b: u8) -> bool {
    b == BACKSLASH || b == SLASH || b == DOLLAR || b == CARET
}

/// `a` with a backslash in front of each magic byte.
pub open spec fn escaped(a: Seq<u8>) -> Seq<u8>
    decreases a.len(),
{
    if a.len() == 0 {
        Seq::empty()
    } else if is_magic(a.last()) {
        escaped(a.drop_last()).push(BACKSLASH).push(a.last())
    } else {
        escaped(a.drop_last()).push(a.last())
    }
}

/// The pattern that finds the source line `a`: the whole line, escaped,
/// between `/^` and `$/`.
pub open spec fn address(a: Seq<u8>) -> Seq<u8> {
    seq![SLASH, CARET] + escaped(a) + seq![DOLLAR, SLASH]
}

/// The letter of a kind: `f` for a function, `m` for a member.
pub open spec fn kind_byte(kind: Kind) -> u8 {
    match kind {
        Kind::Function => FUNCTION_LETTER,
        Kind::Member => MEMBER_LETTER,
    }
}

/// The line of a tag in an index, for the relative path `path` of its
/// file: the name, the path, the address followed by `;"`, and the letter of
/// the kind, with tabs in between and a newline at the end.
pub open spec fn tag_line(tag: TagModel, path: Seq<u8>) -> Seq<u8> {
    tag.name + seq![TAB] + path + seq![TAB] + address(tag.addr) + seq![SEMICOLON, QUOTE, TAB]
        + seq![kind_byte(tag.kind), NEWLINE]
}

/// The lines that open an index: they name the format, the order and the
/// encoding of the file and the program that wrote it.
pub const HEADER: &'static str = "!_TAG_FILE_FORMAT\t2\t/extended format/\n\
!_TAG_FILE_SORTED\t1\t/0=unsorted, 1=sorted, 2=foldcase/\n\
!_TAG_FILE_ENCODING\tutf-8\t//\n\
!_TAG_PROGRAM_NAME\tnix-doc tags\t//\n\
!_TAG_PROGRAM_URL\thttps://github.com/lf-/nix-doc\t//\n";

/// The text of the header.
pub open spec fn header_text() -> Seq<char> {
    HEADER@
}

/// The number of tags with the name `name`.
pub open spec fn name_count(tags: Seq<TagModel>, name: Seq<u8>) -> nat {
    tags.filter(|t: TagModel| t.name == name).len()
}

/// The tags whose name occurs at most `max` times among `tags`.
pub open spec fn is_kept(tags: Seq<TagModel>, max: nat) -> spec_fn(TagModel) -> bool {
    |t: TagModel| name_count(tags, t.name) <= max
}

/// `tags` without every tag whose name occurs more than `max` times.
pub open spec fn limited(tags: Seq<TagModel>, max: Option<u32>) -> Seq<TagModel> {
    match max {
        Some(max) => tags.filter(is_kept(tags, max as nat)),
        None => tags,
    }
}

/// The file of the tag has a path relative to `base`.
pub open spec fn has_path(paths: Seq<Seq<char>>, base: Seq<char>) -> spec_fn(TagModel) -> bool {
    |t: TagModel| relative_of(paths, base, t.path) is Some
}

/// `tags` without every tag whose file has no path relative to `base`.
pub open spec fn placed(tags: Seq<TagModel>, paths: Seq<Seq<char>>, base: Seq<char>) -> Seq<
    TagModel,
> {
    tags.filter(has_path(paths, base))
}

/// The lines of `tags`, in order. The file of a tag is shown by its path
/// relative to `base`; a tag whose file has no such path has no line.
pub open spec fn index_lines(tags: Seq<TagModel>, paths: Seq<Seq<char>>, base: Seq<char>) -> Seq<
    u8,
>
    decreases tags.len(),
{
    if tags.len() == 0 {
        Seq::empty()
    } else {
        index_lines(tags.drop_last(), paths, base) + match relative_of(
            paths,
            base,
            tags.last().path,
        ) {
            Some(path) => tag_line(tags.last(), encode_utf8(path)),
            None => Seq::empty(),
        }
    }
}

/// The index of `tags`: the header, and the lines of the tags in the order
/// of an index. A tag whose file has no path relative to `base` is left out
/// first; of the others, the names that occur more than `max` times are left
/// out. So a tag that has no line counts towards no limit.
pub open spec fn index_bytes(
    tags: Seq<TagModel>,
    max: Option<u32>,
    paths: Seq<Seq<char>>,
    base: Seq<char>,
) -> Seq<u8> {
    encode_utf8(header_text()) + index_lines(
        limited(placed(tags.sort_by(tag_order()), paths, base), max),
        paths,
        base,
    )
}

/// The index does not depend on the order in which the tags are given: two
/// lists of the same tags, however arranged, have the same index.
pub proof fn lemma_index_order_independent(
    a: Seq<TagModel>,
    b: Seq<TagModel>,
    max: Option<u32>,
    paths: Seq<Seq<char>>,
    base: Seq<char>,
)
    requires
        a.to_multiset() == b.to_multiset(),
    ensures
        index_bytes(a, max, paths, base) == index_bytes(b, max, paths, base),
{
    lemma_tag_order_total();
    a.lemma_sort_by_ensures(tag_order());
    b.lemma_sort_by_ensures(tag_order());
    lemma_sorted_unique(a.sort_by(tag_order()), b.sort_by(tag_order()), tag_order());
}

/// What is left of a sequence after filtering: its elements that the
/// condition holds of.
pub proof fn lemma_filter_members<A>(s: Seq<A>, pred: spec_fn(A) -> bool)
    ensures
        forall|x: A| #[trigger] s.filter(pred).contains(x) <==> s.contains(x) && pred(x),
    decreases s.len(),
{
    if s.len() == 0 {
        assert(s.filter(pred) =~= Seq::<A>::empty()) by {
            reveal(Seq::filter);
        }
    } else {
        let init = s.drop_last();
        let last = s.last();
        assert(s == init.push(last));
        init.lemma_filter_push(last, pred);
        lemma_filter_members(init, pred);
        let kept = s.filter(pred);
        let kept_init = init.filter(pred);
        assert forall|x: A| #[trigger] kept.contains(x) <==> s.contains(x) && pred(x) by {
            if kept.contains(x) {
                let i = choose|i: int| 0 <= i < kept.len() && kept[i] == x;
                if i < kept_init.len() {
                    assert(kept_init[i] == x);
                    assert(kept_init.contains(x));
                    assert(init.contains(x));
                    let j = choose|j: int| 0 <= j < init.len() && init[j] == x;
                    assert(s[j] == x);
                } else {
                    assert(x == last);
                    assert(s[s.len() - 1] == x);
                }
            }
            if s.contains(x) && pred(x) {
                let j = choose|j: int| 0 <= j < s.len() && s[j] == x;
                if j < init.len() {
                    assert(init[j] == x);
                    assert(init.contains(x));
                    assert(kept_init.contains(x));
                    let i = choose|i: int| 0 <= i < kept_init.len() && kept_init[i] == x;
                    assert(kept[i] == x);
                } else {
                    assert(kept[kept.len() - 1] == x);
                }
            }
        }
    }
}

/// The filter by cardinality leaves in the index exactly the tags whose
/// name occurs at most `max` times: every tag of a name that occurs more
/// often is gone, and every tag of another name is still there. With `max`
/// at 1, a name that occurs twice or more is gone with all its tags, and a
/// name that occurs once keeps its tag.
pub proof fn lemma_cardinality_filter(tags: Seq<TagModel>, max: u32)
    ensures
        forall|t: TagModel| #[trigger]
            limited(tags, Some(max)).contains(t) <==> tags.contains(t) && name_count(tags, t.name)
                <= max,
{
    lemma_filter_members(tags, is_kept(tags, max as nat));
}

/// In a sorted index a tag stands before every tag that it comes before in
/// the order: one with a lesser name; of two with one name the function; of
/// two of one kind the one from the file found first; of two from one file
/// the one with the lesser source line.
pub proof fn lemma_sorted_positions(tags: Seq<TagModel>, i: int, j: int)
    requires
        tags_sorted(tags),
        0 <= i < tags.len(),
        0 <= j < tags.len(),
        tag_lt(tags[i], tags[j]),
    ensures
        i < j,
{
    lemma_tag_trichotomy(tags[i], tags[j]);
    if j < i {
        assert(tag_le(tags[j], tags[i]));
    }
}

/// The limit on the occurrences of a name that the number `n` of the
/// command line stands for: a negative one stands for none.
pub fn cardinality_limit(n: i32) -> (max: Option<u32>)
    ensures
        max == if n >= 0 {
            Some(n as u32)
        } else {
            None
        },
{
    if n >= 0 {
        Some(n as u32)
    } else {
        None
    }
}

/// Appends `bytes` to `out`.
pub fn append_bytes(out: &mut Vec<u8>, bytes: &[u8])
    ensures
        final(out)@ == old(out)@ + bytes@,
{
    let ghost start = out@;
    let mut i: usize = 0;
    while i < bytes.len()
        invariant
            i <= bytes@.len(),
            out@ == start + bytes@.take(i as int),
        decreases bytes@.len() - i,
    {
        out.push(bytes[i]);
        assert(bytes@.take(i + 1) == bytes@.take(i as int).push(bytes@[i as int]));
        i += 1;
    }
    assert(bytes@.take(bytes@.len() as int) == bytes@);
}

/// `a` with a backslash in front of each of the bytes `\`, `/`, `$` and
/// `^`.
pub fn escape(a: &[u8]) -> (r: Vec<u8>)
    ensures
        r@ == escaped(a@),
{
    let mut r: Vec<u8> = Vec::new();
    let mut i: usize = 0;
    while i < a.len()
        invariant
            i <= a@.len(),
            r@ == escaped(a@.take(i as int)),
        decreases a@.len() - i,
    {
        let b = a[i];
        proof {
            assert(a@.take(i + 1).drop_last() == a@.take(i as int));
            assert(a@.take(i + 1).last() == b);
        }
        if b == BACKSLASH || b == SLASH || b == DOLLAR || b == CARET {
            r.push(BACKSLASH);
        }
        r.push(b);
        i += 1;
    }
    assert(a@.take(a@.len() as int) == a@);
    r
}

/// The pattern that finds the source line `a`.
pub fn make_addr(a: &[u8]) -> (r: Vec<u8>)
    ensures
        r@ == address(a@),
{
    let mut r: Vec<u8> = Vec::new();
    r.push(SLASH);
    r.push(CARET);
    let inner = escape(a);
    append_bytes(&mut r, inner.as_slice());
    r.push(DOLLAR);
    r.push(SLASH);
    r
}

/// Appends the line of `tag` to `out`, with `path` as the path of its
/// file.
pub fn write_tag(out: &mut Vec<u8>, tag: &Tag, path: &str)
    ensures
        final(out)@ == old(out)@ + tag_line(tag@, path.spec_bytes()),
{
    let ghost start = out@;
    append_bytes(out, tag.name.as_slice());
    out.push(TAB);
    append_bytes(out, path.as_bytes());
    out.push(TAB);
    let addr = make_addr(tag.addr.as_slice());
    append_bytes(out, addr.as_slice());
    out.push(SEMICOLON);
    out.push(QUOTE);
    out.push(TAB);
    out.push(
        match tag.kind {
            Kind::Function => FUNCTION_LETTER,
            Kind::Member => MEMBER_LETTER,
        },
    );
    out.push(NEWLINE);
    assert(out@ == start + tag_line(tag@, path.spec_bytes()));
}

/// Appends the header of an index to `out`.
pub fn write_header(out: &mut Vec<u8>)
    ensures
        final(out)@ == old(out)@ + encode_utf8(header_text()),
{
    append_bytes(out, HEADER.as_bytes());
}

/// In a sorted list, the tags between two tags with one name have that
/// name too.
proof fn lemma_names_between(tags: Seq<TagModel>, a: int, b: int, c: int)
    requires
        tags_sorted(tags),
        0 <= a <= b <= c < tags.len(),
        tags[a].name == tags[c].name,
    ensures
        tags[b].name == tags[a].name,
{
    if a < b && b < c {
        assert(tag_le(tags[a], tags[b]));
        assert(tag_le(tags[b], tags[c]));
        lemma_bytes_trichotomy(tags[a].name, tags[b].name);
        lemma_bytes_trichotomy(tags[b].name, tags[c].name);
    }
}

/// Where the elements that `pred` holds of are those from `a` up to `b`,
/// filtering gives that range.
proof fn lemma_filter_range<A>(s: Seq<A>, pred: spec_fn(A) -> bool, a: int, b: int)
    requires
        0 <= a <= b <= s.len(),
        forall|i: int| 0 <= i < s.len() ==> (pred(#[trigger] s[i]) <==> a <= i < b),
    ensures
        s.filter(pred) == s.subrange(a, b),
    decreases s.len(),
{
    if s.len() == 0 {
        assert(s.filter(pred) =~= s.subrange(a, b)) by {
            reveal(Seq::filter);
        }
    } else {
        let init = s.drop_last();
        assert(s == init.push(s.last()));
        init.lemma_filter_push(s.last(), pred);
        if b == s.len() && a < b {
            lemma_filter_range(init, pred, a, b - 1);
            assert(init.subrange(a, b - 1).push(s.last()) =~= s.subrange(a, b));
        } else if b == s.len() {
            lemma_filter_range(init, pred, a - 1, b - 1);
            assert(init.subrange(a - 1, b - 1) =~= s.subrange(a, b));
        } else {
            lemma_filter_range(init, pred, a, b);
            assert(init.subrange(a, b) =~= s.subrange(a, b));
        }
    }
}

/// Tells whether the tags stand in the order of an index.
pub fn in_index_order(data: &Vec<Tag>) -> (b: bool)
    ensures
        b == tags_sorted(tag_views(data@)),
{
    let ghost all = tag_views(data@);
    let mut i: usize = 1;
    while i < data.len()
        invariant
            1 <= i,
            all == tag_views(data@),
            forall|a: int, b: int| 0 <= a < b < i ==> tag_le(#[trigger] all[a], #[trigger] all[b]),
        decreases data.len() - i,
    {
        if !tag_precedes(&data[i - 1], &data[i]) {
            assert(!tag_le(all[i - 1], all[i as int]));
            return false;
        }
        proof {
            assert forall|a: int, b: int| 0 <= a < b < i + 1 implies tag_le(
                #[trigger] all[a],
                #[trigger] all[b],
            ) by {
                if b == i && a < i - 1 {
                    assert(tag_le(all[a], all[i - 1]));
                    lemma_tag_le_transitive(all[a], all[i - 1], all[i as int]);
                }
            }
        }
        i += 1;
    }
    true
}

/// For each tag of a list in the order of an index, whether its name
/// occurs at most `max` times in the list. The tags of one name stand
/// together there, so each name is counted in one go.
fn kept_in_order(max: u32, data: &Vec<Tag>) -> (flags: Vec<bool>)
    requires
        tags_sorted(tag_views(data@)),
    ensures
        flags.len() == data.len(),
        forall|k: int|
            0 <= k < flags.len() ==> (#[trigger] flags[k]) == (name_count(
                tag_views(data@),
                tag_views(data@)[k].name,
            ) <= max),
{
    let ghost all = tag_views(data@);
    let n = data.len();
    assert(all.len() == n);
    let mut flags: Vec<bool> = Vec::new();
    let mut i: usize = 0;
    while i < n
        invariant
            i <= n == data.len(),
            all == tag_views(data@),
            tags_sorted(all),
            flags.len() == i,
            forall|k: int|
                0 <= k < i ==> (#[trigger] flags[k]) == (name_count(all, all[k].name) <= max),
            0 < i < n ==> all[i - 1].name != all[i as int].name,
        decreases n - i,
    {
        let mut j: usize = i + 1;
        while j < n && order_bytes(&data[j].name, &data[i].name) == Order::Same
            invariant
                i < j <= n == data.len(),
                all == tag_views(data@),
                forall|k: int| i <= k < j ==> (#[trigger] all[k]).name == all[i as int].name,
            decreases n - j,
        {
            j += 1;
        }
        let short = j - i <= max as usize;
        proof {
            let name = all[i as int].name;
            let same = |t: TagModel| t.name == name;
            assert forall|k: int| 0 <= k < all.len() implies (same(#[trigger] all[k]) <==> i <= k
                < j) by {
                if k < i && all[k].name == name {
                    lemma_names_between(all, k, i - 1, i as int);
                }
                if k >= j && all[k].name == name {
                    lemma_names_between(all, i as int, j as int, k);
                }
            }
            lemma_filter_range(all, same, i as int, j as int);
            assert(name_count(all, name) == j - i);
        }
        let mut k: usize = i;
        while k < j
            invariant
                i <= k <= j <= n == all.len(),
                flags.len() == k,
                short == (name_count(all, all[i as int].name) <= max),
                forall|m: int| i <= m < j ==> (#[trigger] all[m]).name == all[i as int].name,
                forall|m: int|
                    0 <= m < k ==> (#[trigger] flags[m]) == (name_count(all, all[m].name) <= max),
            decreases j - k,
        {
            flags.push(short);
            assert(all[k as int].name == all[i as int].name);
            k += 1;
        }
        i = j;
    }
    flags
}

/// For each tag of a list in any order, whether its name occurs at most
/// `max` times in the list. Each name is counted through the whole list.
fn kept_by_count(max: u32, data: &Vec<Tag>) -> (flags: Vec<bool>)
    ensures
        flags.len() == data.len(),
        forall|k: int|
            0 <= k < flags.len() ==> (#[trigger] flags[k]) == (name_count(
                tag_views(data@),
                tag_views(data@)[k].name,
            ) <= max),
{
    let ghost all = tag_views(data@);
    let n = data.len();
    assert(all.len() == n);
    let mut flags: Vec<bool> = Vec::new();
    let mut i: usize = 0;
    while i < n
        invariant
            i <= n == data.len(),
            all == tag_views(data@),
            flags.len() == i,
            forall|k: int|
                0 <= k < i ==> (#[trigger] flags[k]) == (name_count(all, all[k].name) <= max),
        decreases n - i,
    {
        let ghost same = |t: TagModel| t.name == all[i as int].name;
        let mut count: usize = 0;
        let mut j: usize = 0;
        assert(all.take(0).filter(same).len() == 0) by {
            reveal(Seq::filter);
        }
        while j < n
            invariant
                i < n == data.len(),
                j <= n,
                all == tag_views(data@),
                same == |t: TagModel| t.name == all[i as int].name,
                count == all.take(j as int).filter(same).len(),
                count <= j,
            decreases n - j,
        {
            proof {
                assert(all.take(j + 1) == all.take(j as int).push(all[j as int]));
                all.take(j as int).lemma_filter_push(all[j as int], same);
            }
            if order_bytes(&data[j].name, &data[i].name) == Order::Same {
                count += 1;
            }
            j += 1;
        }
        assert(all.take(n as int) == all);
        flags.push(count <= max as usize);
        i += 1;
    }
    flags
}

/// Removes the tags whose name occurs more than `max_cardinality` times
/// in the list. The other tags stay as they are and in their order. The
/// list may stand in any order; one in the order of an index is gone
/// through faster.
pub fn run_cardinality(max_cardinality: u32, data: &mut Vec<Tag>)
    ensures
        tag_views(final(data)@) == limited(tag_views(old(data)@), Some(max_cardinality)),
{
    let ghost all = tag_views(data@);
    let ghost keep = is_kept(all, max_cardinality as nat);
    let n = data.len();
    assert(all.len() == n);
    let flags = if in_index_order(data) {
        kept_in_order(max_cardinality, data)
    } else {
        kept_by_count(max_cardinality, data)
    };
    assert forall|k: int| 0 <= k < n implies (#[trigger] flags[k]) == keep(all[k]) by {}
    keep_flagged(data, &flags, Ghost(keep));
}

/// Removes the tags that `flags` does not mark. The other tags stay as they
/// are and in their order.
fn keep_flagged(
    data: &mut Vec<Tag>,
    flags: &Vec<bool>,
    Ghost(keep): Ghost<spec_fn(TagModel) -> bool>,
)
    requires
        flags.len() == old(data).len(),
        forall|k: int|
            0 <= k < flags.len() ==> (#[trigger] flags[k]) == keep(tag_views(old(data)@)[k]),
    ensures
        tag_views(final(data)@) == tag_views(old(data)@).filter(keep),
{
    let ghost all = tag_views(data@);
    let n = data.len();
    assert(all.len() == n);
    // Take the tags out from the back, and put those to keep back in order.
    let mut reversed: Vec<Tag> = Vec::new();
    while data.len() > 0
        invariant
            data.len() + reversed.len() == n == all.len(),
            forall|k: int| 0 <= k < data.len() ==> (#[trigger] data[k])@ == all[k],
            forall|k: int| 0 <= k < reversed.len() ==> (#[trigger] reversed[k])@ == all[n - 1 - k],
        decreases data.len(),
    {
        let tag = data.pop().unwrap();
        reversed.push(tag);
    }
    let mut k: usize = 0;
    assert(tag_views(data@) =~= all.take(0).filter(keep)) by {
        reveal(Seq::filter);
    }
    while k < n
        invariant
            k + reversed.len() == n == all.len() == flags.len(),
            forall|m: int| 0 <= m < reversed.len() ==> (#[trigger] reversed[m])@ == all[n - 1 - m],
            forall|m: int| 0 <= m < n ==> (#[trigger] flags[m]) == keep(all[m]),
            tag_views(data@) == all.take(k as int).filter(keep),
        decreases n - k,
    {
        let tag = reversed.pop().unwrap();
        proof {
            assert(all.take(k + 1) == all.take(k as int).push(all[k as int]));
            all.take(k as int).lemma_filter_push(all[k as int], keep);
            lemma_tag_views_push(data@, tag);
        }
        if flags[k] {
            data.push(tag);
        }
        k += 1;
    }
    assert(all.take(n as int) == all);
}

/// Removes the tags whose file has no path relative to the base of `paths`.
/// The other tags stay as they are and in their order.
pub fn drop_unplaced(data: &mut Vec<Tag>, paths: &mut RelativePaths)
    requires
        old(paths).wf(),
    ensures
        final(paths).wf(),
        final(paths).paths() == old(paths).paths(),
        final(paths).base() == old(paths).base(),
        tag_views(final(data)@) == placed(
            tag_views(old(data)@),
            old(paths).paths(),
            old(paths).base(),
        ),
{
    let ghost all = tag_views(data@);
    let ghost table = paths.paths();
    let ghost base = paths.base();
    let ghost keep = has_path(table, base);
    let mut flags: Vec<bool> = Vec::new();
    let mut i: usize = 0;
    while i < data.len()
        invariant
            i <= data.len(),
            all == tag_views(data@),
            paths.wf(),
            paths.paths() == table,
            paths.base() == base,
            keep == has_path(table, base),
            flags.len() == i,
            forall|k: int| 0 <= k < i ==> (#[trigger] flags[k]) == keep(all[k]),
        decreases data.len() - i,
    {
        let known = paths.relative(data[i].path).is_some();
        assert(known == keep(all[i as int]));
        flags.push(known);
        i += 1;
    }
    keep_flagged(data, &flags, Ghost(keep));
}

/// The index of `tags`, with the files shown relative to the base of
/// `paths`. A tag whose file has no such path is left out before anything
/// is counted. `max_cardinality` is the greatest number of tags that a name
/// may have; `None` leaves every name in.
pub fn build_index(tags: Vec<Tag>, max_cardinality: Option<u32>, paths: &mut RelativePaths) -> (out:
    Vec<u8>)
    requires
        old(paths).wf(),
    ensures
        final(paths).wf(),
        final(paths).paths() == old(paths).paths(),
        final(paths).base() == old(paths).base(),
        out@ == index_bytes(
            tag_views(tags@),
            max_cardinality,
            old(paths).paths(),
            old(paths).base(),
        ),
{
    let ghost given = tag_views(tags@);
    let mut sorted = sort_tags(tags);
    proof {
        lemma_tag_order_total();
        given.lemma_sort_by_ensures(tag_order());
        lemma_tags_sorted_by(tag_views(sorted@));
        lemma_sorted_unique(tag_views(sorted@), given.sort_by(tag_order()), tag_order());
    }
    let ghost table = paths.paths();
    let ghost base = paths.base();
    let mut out: Vec<u8> = Vec::new();
    write_header(&mut out);
    drop_unplaced(&mut sorted, paths);
    match max_cardinality {
        Some(max) => {
            run_cardinality(max, &mut sorted);
        },
        None => {},
    }
    let ghost listed = tag_views(sorted@);
    let ghost header = out@;
    assert(header == encode_utf8(header_text()));
    let mut i: usize = 0;
    assert(header + Seq::<u8>::empty() == header);
    while i < sorted.len()
        invariant
            i <= sorted.len(),
            listed == tag_views(sorted@),
            paths.wf(),
            paths.paths() == table,
            paths.base() == base,
            out@ == header + index_lines(listed.take(i as int), table, base),
        decreases sorted.len() - i,
    {
        let tag = &sorted[i];
        let ghost before = index_lines(listed.take(i as int), table, base);
        proof {
            assert(listed.take(i + 1).drop_last() == listed.take(i as int));
            assert(listed.take(i + 1).last() == tag@);
        }
        match paths.relative(tag.path) {
            Some(path) => {
                let shown = path.as_str();
                write_tag(&mut out, tag, shown);
                proof {
                    assert(shown.spec_bytes() == encode_utf8(path@));
                    let line = tag_line(tag@, encode_utf8(path@));
                    assert(header + before + line == header + (before + line));
                }
            },
            None => {
                assert(before + Seq::<u8>::empty() == before);
            },
        }
        i += 1;
    }
    assert(listed.take(sorted.len() as int) == listed);
    out
}

} // verus!
