//! The index and the order in which the files were found. The number of a
//! file tells tags of one name and kind apart, so an index may depend on
//! which of two files that hold such tags was found first. It depends on
//! nothing else of the order: the files of a directory, found in another
//! order that leaves such files as they stood to each other, have the same
//! index, and where no two files hold a tag of one name and kind, every
//! order gives the same.

use crate::index::{
    has_path, index_bytes, index_lines, is_kept, lemma_filter_members, limited, name_count,
    placed, tag_line,
};
use crate::parse::source_model;
use crate::paths::relative_of;
use crate::scan::{file_paths, found_tags, tags_of_file, tags_of_files, SourceFile};
use crate::tag::{
    lemma_tag_order_total, lemma_tags_sorted_by, tag_le, tag_lt, tag_order, tags_sorted, TagModel,
};
use crate::tags::{file_tags, in_file, lemma_file_tags_file};
use vstd::prelude::*;
use vstd::seq_lib::{
    group_to_multiset_ensures, lemma_multiset_commutative, lemma_sorted_unique, to_multiset_len,
};
use vstd::utf8::encode_utf8;

verus! {

/// The tag `t` with its file numbered anew.
pub open spec fn renumbered(number: spec_fn(usize) -> usize) -> spec_fn(TagModel) -> TagModel {
    |t: TagModel| TagModel { path: number(t.path), ..t }
}

/// No two files hold a tag of one name and kind.
pub open spec fn no_ties(tags: Seq<TagModel>) -> bool {
    forall|x: TagModel, y: TagModel|
        #![trigger tags.contains(x), tags.contains(y)]
        tags.contains(x) && tags.contains(y) && x.name == y.name && x.kind == y.kind ==> x.path
            == y.path
}

/// Two files that hold a tag of one name and kind stand to each other
/// under their new numbers as under their old ones.
pub open spec fn ties_kept(tags: Seq<TagModel>, number: spec_fn(usize) -> usize) -> bool {
    forall|x: TagModel, y: TagModel|
        #![trigger tags.contains(x), tags.contains(y)]
        tags.contains(x) && tags.contains(y) && x.name == y.name && x.kind == y.kind && x.path
            < y.path ==> number(x.path) < number(y.path)
}

/// Where no two files hold a tag of one name and kind, any new numbers
/// will do.
pub proof fn lemma_no_ties_kept(tags: Seq<TagModel>, number: spec_fn(usize) -> usize)
    requires
        no_ties(tags),
    ensures
        ties_kept(tags, number),
{
}

/// The file of every tag is shown by the same path under its new number
/// in the table `after` as under its old one in the table `before`.
pub open spec fn same_files(
    tags: Seq<TagModel>,
    before: Seq<Seq<char>>,
    after: Seq<Seq<char>>,
    base: Seq<char>,
    number: spec_fn(usize) -> usize,
) -> bool {
    forall|x: TagModel| #[trigger]
        tags.contains(x) ==> relative_of(after, base, number(x.path)) == relative_of(
            before,
            base,
            x.path,
        )
}

/// Two lists of the same elements have the same elements after a mapping.
proof fn lemma_map_bag<A, B>(x: Seq<A>, y: Seq<A>, f: spec_fn(A) -> B)
    requires
        x.to_multiset() == y.to_multiset(),
    ensures
        x.map_values(f).to_multiset() == y.map_values(f).to_multiset(),
    decreases x.len(),
{
    broadcast use group_to_multiset_ensures;

    to_multiset_len(x);
    to_multiset_len(y);
    assert(x.len() == y.len());
    if x.len() == 0 {
        assert(x.map_values(f) =~= y.map_values(f));
    } else {
        let last = x.last();
        let init = x.drop_last();
        assert(x == init.push(last));
        assert(x.contains(last)) by {
            assert(x[x.len() - 1] == last);
        }
        assert(y.to_multiset().count(last) > 0);
        assert(y.contains(last));
        let i = choose|i: int| 0 <= i < y.len() && y[i] == last;
        let rest = y.remove(i);
        assert(init.to_multiset() =~= x.to_multiset().remove(last));
        assert(rest.to_multiset() =~= y.to_multiset().remove(last));
        lemma_map_bag(init, rest, f);
        assert(x.map_values(f) =~= init.map_values(f).push(f(last)));
        assert(y.map_values(f).remove(i) =~= rest.map_values(f));
        assert(y.map_values(f)[i] == f(last));
        assert(y.map_values(f).to_multiset() =~= rest.map_values(f).to_multiset().insert(f(last)))
            by {
            let my = y.map_values(f);
            assert(my.remove(i).to_multiset() =~= my.to_multiset().remove(my[i]));
            assert(my.to_multiset().count(my[i]) > 0) by {
                assert(my.contains(my[i]));
            }
        }
    }
}

/// A sorted list is still sorted when its files are numbered anew, where
/// the new numbers keep the ties.
proof fn lemma_renumbered_sorted(tags: Seq<TagModel>, number: spec_fn(usize) -> usize)
    requires
        tags_sorted(tags),
        ties_kept(tags, number),
    ensures
        tags_sorted(tags.map_values(renumbered(number))),
{
    let f = renumbered(number);
    let mapped = tags.map_values(f);
    assert forall|i: int, j: int| 0 <= i < j < mapped.len() implies tag_le(
        #[trigger] mapped[i],
        #[trigger] mapped[j],
    ) by {
        let x = tags[i];
        let y = tags[j];
        assert(tag_le(x, y));
        assert(tags.contains(x) && tags.contains(y));
        if x != y {
            assert(tag_lt(x, y));
            if x.name == y.name && x.kind == y.kind && x.path < y.path {
                assert(number(x.path) < number(y.path));
            }
            assert(tag_lt(f(x), f(y)));
        }
    }
}

/// Filtering after a mapping is mapping after filtering, where the two
/// conditions agree on what is in the list.
proof fn lemma_filter_mapped<A, B>(
    s: Seq<A>,
    f: spec_fn(A) -> B,
    p: spec_fn(B) -> bool,
    q: spec_fn(A) -> bool,
)
    requires
        forall|x: A| s.contains(x) ==> #[trigger] p(f(x)) == q(x),
    ensures
        s.map_values(f).filter(p) == s.filter(q).map_values(f),
    decreases s.len(),
{
    if s.len() == 0 {
        assert(s.map_values(f).filter(p) =~= s.filter(q).map_values(f)) by {
            reveal(Seq::filter);
        }
    } else {
        let init = s.drop_last();
        let last = s.last();
        assert(s == init.push(last));
        assert forall|x: A| init.contains(x) implies #[trigger] p(f(x)) == q(x) by {
            let i = choose|i: int| 0 <= i < init.len() && init[i] == x;
            assert(s[i] == x);
        }
        assert(s.contains(last)) by {
            assert(s[s.len() - 1] == last);
        }
        lemma_filter_mapped(init, f, p, q);
        assert(s.map_values(f) =~= init.map_values(f).push(f(last)));
        init.map_values(f).lemma_filter_push(f(last), p);
        init.lemma_filter_push(last, q);
        assert(p(f(last)) == q(last));
        if q(last) {
            assert(init.filter(q).push(last).map_values(f) =~= init.filter(q).map_values(f).push(
                f(last),
            ));
        }
    }
}

/// Numbering the files anew changes no count of a name, so the tags that
/// the limit leaves are the same, numbered anew.
proof fn lemma_renumbered_limited(
    tags: Seq<TagModel>,
    max: Option<u32>,
    number: spec_fn(usize) -> usize,
)
    ensures
        limited(tags.map_values(renumbered(number)), max) == limited(tags, max).map_values(
            renumbered(number),
        ),
{
    let f = renumbered(number);
    let mapped = tags.map_values(f);
    match max {
        Some(m) => {
            assert forall|x: TagModel| #[trigger]
                is_kept(mapped, m as nat)(f(x)) == is_kept(tags, m as nat)(x) by {
                let name = x.name;
                let same = |t: TagModel| t.name == name;
                assert forall|t: TagModel| #[trigger] same(f(t)) == same(t) by {}
                lemma_filter_mapped(tags, f, same, same);
                assert(name_count(mapped, f(x).name) == name_count(tags, x.name));
            }
            lemma_filter_mapped(tags, f, is_kept(mapped, m as nat), is_kept(tags, m as nat));
        },
        None => {},
    }
}

/// The lines of tags whose files are numbered anew, in a table that shows
/// each file as before, are the lines as before.
proof fn lemma_renumbered_lines(
    tags: Seq<TagModel>,
    before: Seq<Seq<char>>,
    after: Seq<Seq<char>>,
    base: Seq<char>,
    number: spec_fn(usize) -> usize,
)
    requires
        same_files(tags, before, after, base, number),
    ensures
        index_lines(tags.map_values(renumbered(number)), after, base) == index_lines(
            tags,
            before,
            base,
        ),
    decreases tags.len(),
{
    let f = renumbered(number);
    if tags.len() > 0 {
        let init = tags.drop_last();
        let last = tags.last();
        assert forall|x: TagModel| #[trigger] init.contains(x) implies relative_of(
            after,
            base,
            number(x.path),
        ) == relative_of(before, base, x.path) by {
            let i = choose|i: int| 0 <= i < init.len() && init[i] == x;
            assert(tags[i] == x);
            assert(tags.contains(x));
        }
        lemma_renumbered_lines(init, before, after, base, number);
        assert(tags.contains(last)) by {
            assert(tags[tags.len() - 1] == last);
        }
        let mapped = tags.map_values(f);
        assert(mapped.drop_last() =~= init.map_values(f));
        assert(mapped.last() == f(last));
        match relative_of(before, base, last.path) {
            Some(path) => {
                assert(tag_line(f(last), encode_utf8(path)) == tag_line(last, encode_utf8(path)));
            },
            None => {},
        }
    }
}

/// The index does not depend on the numbers of the files, as long as two
/// files that hold a tag of one name and kind keep their order: where the
/// tags `b` are the tags `a` with the files numbered anew, and each file is
/// shown by the same path under its new number, the two indexes are the
/// same.
pub proof fn lemma_index_discovery_independent(
    a: Seq<TagModel>,
    b: Seq<TagModel>,
    before: Seq<Seq<char>>,
    after: Seq<Seq<char>>,
    base: Seq<char>,
    max: Option<u32>,
    number: spec_fn(usize) -> usize,
)
    requires
        b.to_multiset() == a.map_values(renumbered(number)).to_multiset(),
        ties_kept(a, number),
        same_files(a, before, after, base, number),
    ensures
        index_bytes(b, max, after, base) == index_bytes(a, max, before, base),
{
    broadcast use group_to_multiset_ensures;

    let f = renumbered(number);
    let order = tag_order();
    lemma_tag_order_total();
    let sorted = a.sort_by(order);
    a.lemma_sort_by_ensures(order);
    b.lemma_sort_by_ensures(order);
    // The sorted tags are tags of `a`.
    assert forall|x: TagModel| #[trigger] sorted.contains(x) implies a.contains(x) by {
        assert(sorted.to_multiset().count(x) > 0);
    }
    assert(ties_kept(sorted, number));
    lemma_tags_sorted_by(sorted);
    lemma_renumbered_sorted(sorted, number);
    lemma_tags_sorted_by(sorted.map_values(f));
    lemma_map_bag(sorted, a, f);
    lemma_sorted_unique(b.sort_by(order), sorted.map_values(f), order);
    assert(b.sort_by(order) == sorted.map_values(f));
    // A file has a path under its new number where it had one before.
    assert forall|x: TagModel| sorted.contains(x) implies #[trigger] has_path(after, base)(f(x))
        == has_path(before, base)(x) by {
        assert(a.contains(x));
    }
    lemma_filter_mapped(sorted, f, has_path(after, base), has_path(before, base));
    let known = placed(sorted, before, base);
    assert(placed(sorted.map_values(f), after, base) == known.map_values(f));
    lemma_filter_members(sorted, has_path(before, base));
    lemma_renumbered_limited(known, max, number);
    let kept = limited(known, max);
    assert forall|x: TagModel| #[trigger] kept.contains(x) implies relative_of(
        after,
        base,
        number(x.path),
    ) == relative_of(before, base, x.path) by {
        match max {
            Some(m) => {
                lemma_filter_members(known, is_kept(known, m as nat));
            },
            None => {},
        }
        assert(known.contains(x));
        assert(sorted.contains(x));
        assert(a.contains(x));
    }
    lemma_renumbered_lines(kept, before, after, base, number);
}

/// The files `b` are the files `a` in another order: file `i` of `a` is
/// file `place(i)` of `b`, and file `j` of `b` is file `back(j)` of `a`.
pub open spec fn reordered(
    a: Seq<SourceFile>,
    b: Seq<SourceFile>,
    place: spec_fn(usize) -> usize,
    back: spec_fn(usize) -> usize,
) -> bool {
    &&& a.len() == b.len() <= usize::MAX
    &&& forall|i: usize|
        i < a.len() ==> #[trigger] place(i) < b.len() && back(place(i)) == i && b[place(i) as int]
            == a[i as int]
    &&& forall|j: usize| j < b.len() ==> #[trigger] back(j) < a.len() && place(back(j)) == j
}

/// Under another number a file adds the same tags, but for the number.
proof fn lemma_tags_of_file_renumbered(
    file: SourceFile,
    number: usize,
    place: spec_fn(usize) -> usize,
)
    ensures
        tags_of_file(file, number).map_values(renumbered(place)) == tags_of_file(
            file,
            place(number),
        ),
        forall|k: int|
            0 <= k < tags_of_file(file, number).len() ==> (#[trigger] tags_of_file(
                file,
                number,
            )[k]).path == number,
{
    let tags = tags_of_file(file, number);
    match file.content {
        Some(content) => match source_model(content@) {
            Some(m) => {
                lemma_file_tags_file(m, number, place(number));
                if tags.len() > 0 {
                    assert(tags == file_tags(m, number));
                    assert forall|k: int| 0 <= k < tags.len() implies renumbered(place)(
                        #[trigger] tags[k],
                    ) == in_file(place(number))(tags[k]) by {}
                }
            },
            None => {},
        },
        None => {},
    }
    assert(tags.map_values(renumbered(place)) =~= tags_of_file(file, place(number)));
}

/// A file adds no tag of another file.
proof fn lemma_no_tag_of_another_file(file: SourceFile, number: usize, x: TagModel)
    requires
        x.path != number,
    ensures
        tags_of_file(file, number).to_multiset().count(x) == 0,
{
    broadcast use group_to_multiset_ensures;

    let tags = tags_of_file(file, number);
    lemma_tags_of_file_renumbered(file, number, |i: usize| i);
    if tags.contains(x) {
        let k = choose|k: int| 0 <= k < tags.len() && tags[k] == x;
        assert(tags[k].path == number);
    }
}

/// How often a tag stands among the tags of the first `n` files: as often
/// as among the tags of its own file.
proof fn lemma_count_by_file(files: Seq<SourceFile>, n: int, x: TagModel)
    requires
        0 <= n <= files.len() <= usize::MAX,
    ensures
        tags_of_files(files, n).to_multiset().count(x) == if x.path < n {
            tags_of_file(files[x.path as int], x.path).to_multiset().count(x)
        } else {
            0
        },
    decreases n,
{
    broadcast use group_to_multiset_ensures;

    if n > 0 {
        lemma_count_by_file(files, n - 1, x);
        let last = tags_of_file(files[n - 1], (n - 1) as usize);
        lemma_multiset_commutative(tags_of_files(files, n - 1), last);
        if x.path != n - 1 {
            lemma_no_tag_of_another_file(files[n - 1], (n - 1) as usize, x);
        }
    } else {
        assert(tags_of_files(files, n).len() == 0);
        if tags_of_files(files, n).contains(x) {
        }
    }
}

/// How often a tag stands among the tags of the first `n` files of `a`,
/// numbered as in `b`: as often as among the tags of its own file of `b`,
/// if that is one of those `n`.
proof fn lemma_count_renumbered(
    a: Seq<SourceFile>,
    b: Seq<SourceFile>,
    place: spec_fn(usize) -> usize,
    back: spec_fn(usize) -> usize,
    n: int,
    x: TagModel,
)
    requires
        reordered(a, b, place, back),
        0 <= n <= a.len(),
    ensures
        tags_of_files(a, n).map_values(renumbered(place)).to_multiset().count(x) == if x.path
            < b.len() && back(x.path) < n {
            tags_of_file(b[x.path as int], x.path).to_multiset().count(x)
        } else {
            0
        },
    decreases n,
{
    broadcast use group_to_multiset_ensures;

    let r = renumbered(place);
    if n > 0 {
        lemma_count_renumbered(a, b, place, back, n - 1, x);
        let i = (n - 1) as usize;
        let before = tags_of_files(a, n - 1);
        let last = tags_of_file(a[n - 1], i);
        lemma_tags_of_file_renumbered(a[n - 1], i, place);
        assert(last.map_values(r) == tags_of_file(b[place(i) as int], place(i)));
        assert(tags_of_files(a, n).map_values(r) =~= before.map_values(r) + last.map_values(r));
        lemma_multiset_commutative(before.map_values(r), last.map_values(r));
        if x.path == place(i) {
            assert(back(x.path) == i);
        } else {
            lemma_no_tag_of_another_file(b[place(i) as int], place(i), x);
            if x.path < b.len() {
                assert(place(back(x.path)) == x.path);
            }
        }
    } else {
        assert(tags_of_files(a, n).map_values(r).len() == 0);
        if tags_of_files(a, n).map_values(r).contains(x) {
        }
    }
}

/// The index of a directory does not depend on the order in which its
/// files were found, as long as two files that hold a tag of one name and
/// kind keep their order: the same files in such another order have the
/// same index.
pub proof fn lemma_scan_discovery_independent(
    a: Seq<SourceFile>,
    b: Seq<SourceFile>,
    place: spec_fn(usize) -> usize,
    back: spec_fn(usize) -> usize,
    max: Option<u32>,
    base: Seq<char>,
)
    requires
        reordered(a, b, place, back),
        ties_kept(found_tags(a), place),
    ensures
        index_bytes(found_tags(b), max, file_paths(b), base) == index_bytes(
            found_tags(a),
            max,
            file_paths(a),
            base,
        ),
{
    broadcast use group_to_multiset_ensures;

    let r = renumbered(place);
    let n = a.len() as int;
    let moved = found_tags(a).map_values(r);
    assert forall|x: TagModel|
        found_tags(b).to_multiset().count(x) == moved.to_multiset().count(x) by {
        lemma_count_by_file(b, n, x);
        lemma_count_renumbered(a, b, place, back, n, x);
    }
    assert(found_tags(b).to_multiset() =~= moved.to_multiset());
    assert forall|x: TagModel| #[trigger] found_tags(a).contains(x) implies relative_of(
        file_paths(b),
        base,
        place(x.path),
    ) == relative_of(file_paths(a), base, x.path) by {
        lemma_count_by_file(a, n, x);
        assert(x.path < n);
    }
    lemma_index_discovery_independent(
        found_tags(a),
        found_tags(b),
        file_paths(a),
        file_paths(b),
        base,
        max,
        place,
    );
}

} // verus!
