//! The tags of a source file: one for every entry of an attribute set and
//! for every name that an `inherit` statement brings in.

use crate::entry::{entry_key, entry_value, ident_of, key_ident, key_of, value_of};
use crate::locate::documentation;
use crate::parse::{parse, source_model};
use crate::position::{line_begin, NEWLINE};
use crate::search::entry_hit;
use crate::sort::{sort_tags, tag_bag};
use crate::syntax::{NodeKind, SyntaxTree, TreeModel};
use crate::tag::{lemma_tag_views_push, tag_views, tags_sorted, Kind, Tag, TagModel};
use vstd::prelude::*;

verus! {

/// Where the line of byte `pos` of `s` ends: at the first newline from
/// `pos` on, or at the end of `s`.
pub open spec fn line_finish(s: Seq<u8>, pos: int) -> int
    decreases s.len() - pos,
{
    if pos < 0 || pos >= s.len() {
        s.len() as int
    } else if s[pos] == NEWLINE {
        pos
    } else {
        line_finish(s, pos + 1)
    }
}

/// The line of `s` that byte `pos` stands on, without the newlines around
/// it.
pub open spec fn source_line(s: Seq<u8>, pos: int) -> Seq<u8> {
    s.subrange(line_begin(s, pos), line_finish(s, pos))
}

/// The name of the identifier `ident`, in bytes: the text of its first
/// child, if that is a token.
pub open spec fn ident_bytes(m: TreeModel, ident: int) -> Option<Seq<u8>> {
    match m.first_child(ident) {
        Some(t) => if m.elements[t as int].token {
            Some(m.bytes_of(t as int))
        } else {
            None
        },
        None => None,
    }
}

/// The tag of the child `entry` of an attribute set in the file `file`, if
/// it is an entry with a value and a key that ends in an identifier. The
/// tag is addressed at the line of that identifier; it is a function where
/// the value is a function literal.
pub open spec fn entry_tag(m: TreeModel, file: usize, entry: int) -> Option<TagModel> {
    if m.elements[entry].kind != NodeKind::KeyValue {
        None
    } else {
        match (entry_value(m, entry), entry_key(m, entry)) {
            (Some(value), Some(key)) => match key_ident(m, key as int) {
                Some(ident) => match ident_bytes(m, ident as int) {
                    Some(name) => Some(
                        TagModel {
                            name,
                            path: file,
                            addr: source_line(m.source, m.elements[ident as int].start as int),
                            kind: if m.elements[value as int].kind == NodeKind::Lambda {
                                Kind::Function
                            } else {
                                Kind::Member
                            },
                        },
                    ),
                    None => None,
                },
                None => None,
            },
            _ => None,
        }
    }
}

/// The tags of the children `nodes` of an attribute set, in order.
pub open spec fn entries_tags(m: TreeModel, file: usize, nodes: Seq<usize>) -> Seq<TagModel>
    decreases nodes.len(),
{
    if nodes.len() == 0 {
        Seq::empty()
    } else {
        let before = entries_tags(m, file, nodes.drop_last());
        match entry_tag(m, file, nodes.last() as int) {
            Some(tag) => before.push(tag),
            None => before,
        }
    }
}

/// The tag of the child `node` of the `inherit` statement `inherit`, if it
/// is an identifier with a name: a member, addressed at the line of the
/// statement.
pub open spec fn inherited_tag(m: TreeModel, file: usize, inherit: int, node: int) -> Option<
    TagModel,
> {
    if m.elements[node].kind != NodeKind::Ident {
        None
    } else {
        match ident_bytes(m, node) {
            Some(name) => Some(
                TagModel {
                    name,
                    path: file,
                    addr: source_line(m.source, m.elements[inherit].start as int),
                    kind: Kind::Member,
                },
            ),
            None => None,
        }
    }
}

/// The tags of the children `nodes` of the `inherit` statement `inherit`,
/// in order.
pub open spec fn inherits_tags(m: TreeModel, file: usize, inherit: int, nodes: Seq<usize>) -> Seq<
    TagModel,
>
    decreases nodes.len(),
{
    if nodes.len() == 0 {
        Seq::empty()
    } else {
        let before = inherits_tags(m, file, inherit, nodes.drop_last());
        match inherited_tag(m, file, inherit, nodes.last() as int) {
            Some(tag) => before.push(tag),
            None => before,
        }
    }
}

/// The tags that element `i` gives rise to: those of its entries where it
/// is an attribute set, those of its names where it is an `inherit`
/// statement.
pub open spec fn element_tags(m: TreeModel, file: usize, i: int) -> Seq<TagModel> {
    if m.elements[i].token {
        Seq::empty()
    } else if m.elements[i].kind == NodeKind::AttrSet {
        entries_tags(m, file, m.child_nodes(i))
    } else if m.elements[i].kind == NodeKind::Inherit {
        inherits_tags(m, file, i, m.child_nodes(i))
    } else {
        Seq::empty()
    }
}

/// The tags of the first `n` elements of a tree, in the order of the tree.
pub open spec fn tree_tags(m: TreeModel, file: usize, n: int) -> Seq<TagModel>
    decreases n,
{
    if n <= 0 {
        Seq::empty()
    } else {
        tree_tags(m, file, n - 1) + element_tags(m, file, n - 1)
    }
}

/// The tags of a whole tree.
pub open spec fn file_tags(m: TreeModel, file: usize) -> Seq<TagModel> {
    tree_tags(m, file, m.elements.len() as int)
}

/// Whether an entry is tagged has nothing to do with its documentation: an
/// entry without a comment in front of it has its tag all the same, while a
/// search leaves it out.
pub proof fn lemma_undocumented_entry(m: TreeModel, pattern: Seq<char>, file: usize, entry: int)
    requires
        m.elements[entry].kind == NodeKind::KeyValue,
        entry_value(m, entry) is Some,
        entry_key(m, entry) is Some,
        key_ident(m, entry_key(m, entry).unwrap() as int) is Some,
        ident_bytes(m, key_ident(m, entry_key(m, entry).unwrap() as int).unwrap() as int) is Some,
        documentation(m, entry_value(m, entry).unwrap() as int) is None,
    ensures
        entry_tag(m, file, entry) is Some,
        entry_hit(m, pattern, entry) is None,
{
}

/// The tag `t` as a tag of the file `file`.
pub open spec fn in_file(file: usize) -> spec_fn(TagModel) -> TagModel {
    |t: TagModel| TagModel { path: file, ..t }
}

/// The tags of entries know their file by its number alone.
proof fn lemma_entries_tags_file(m: TreeModel, file: usize, other: usize, nodes: Seq<usize>)
    ensures
        entries_tags(m, other, nodes) == entries_tags(m, file, nodes).map_values(in_file(other)),
        forall|k: int|
            0 <= k < entries_tags(m, file, nodes).len() ==> (#[trigger] entries_tags(
                m,
                file,
                nodes,
            )[k]).path == file,
    decreases nodes.len(),
{
    if nodes.len() > 0 {
        lemma_entries_tags_file(m, file, other, nodes.drop_last());
    }
    assert(entries_tags(m, other, nodes) =~= entries_tags(m, file, nodes).map_values(
        in_file(other),
    ));
}

/// The tags of inherited names know their file by its number alone.
proof fn lemma_inherits_tags_file(
    m: TreeModel,
    file: usize,
    other: usize,
    inherit: int,
    nodes: Seq<usize>,
)
    ensures
        inherits_tags(m, other, inherit, nodes) == inherits_tags(
            m,
            file,
            inherit,
            nodes,
        ).map_values(in_file(other)),
        forall|k: int|
            0 <= k < inherits_tags(m, file, inherit, nodes).len() ==> (#[trigger] inherits_tags(
                m,
                file,
                inherit,
                nodes,
            )[k]).path == file,
    decreases nodes.len(),
{
    if nodes.len() > 0 {
        lemma_inherits_tags_file(m, file, other, inherit, nodes.drop_last());
    }
    assert(inherits_tags(m, other, inherit, nodes) =~= inherits_tags(
        m,
        file,
        inherit,
        nodes,
    ).map_values(in_file(other)));
}

/// The tags of the first `n` elements know their file by its number alone.
proof fn lemma_tree_tags_file(m: TreeModel, file: usize, other: usize, n: int)
    ensures
        tree_tags(m, other, n) == tree_tags(m, file, n).map_values(in_file(other)),
        forall|k: int|
            0 <= k < tree_tags(m, file, n).len() ==> (#[trigger] tree_tags(m, file, n)[k]).path
                == file,
    decreases n,
{
    if n > 0 {
        lemma_tree_tags_file(m, file, other, n - 1);
        lemma_entries_tags_file(m, file, other, m.child_nodes(n - 1));
        lemma_inherits_tags_file(m, file, other, n - 1, m.child_nodes(n - 1));
    }
    assert(tree_tags(m, other, n) =~= tree_tags(m, file, n).map_values(in_file(other)));
}

/// The tags of a tree know their file by its number alone: each carries
/// the number, and under another number the tags are the same but for it.
pub proof fn lemma_file_tags_file(m: TreeModel, file: usize, other: usize)
    ensures
        file_tags(m, other) == file_tags(m, file).map_values(in_file(other)),
        forall|k: int|
            0 <= k < file_tags(m, file).len() ==> (#[trigger] file_tags(m, file)[k]).path == file,
{
    lemma_tree_tags_file(m, file, other, m.elements.len() as int);
}

/// A copy of the bytes of `source` from `lo` up to `hi`.
pub fn copy_bytes(source: &[u8], lo: usize, hi: usize) -> (r: Vec<u8>)
    requires
        lo <= hi <= source@.len(),
    ensures
        r@ == source@.subrange(lo as int, hi as int),
{
    let mut r: Vec<u8> = Vec::new();
    let mut i: usize = lo;
    while i < hi
        invariant
            lo <= i <= hi <= source@.len(),
            r@ == source@.subrange(lo as int, i as int),
        decreases hi - i,
    {
        r.push(source[i]);
        i += 1;
    }
    r
}

/// The line of `source` that byte `pos` stands on.
pub fn get_source_line(source: &[u8], pos: usize) -> (line: Vec<u8>)
    requires
        pos <= source@.len(),
    ensures
        line@ == source_line(source@, pos as int),
{
    let mut begin = pos;
    while begin > 0 && source[begin - 1] != NEWLINE
        invariant
            begin <= pos <= source@.len(),
            line_begin(source@, pos as int) == line_begin(source@, begin as int),
        decreases begin,
    {
        begin -= 1;
    }
    let mut finish = pos;
    while finish < source.len() && source[finish] != NEWLINE
        invariant
            pos <= finish <= source@.len(),
            line_finish(source@, pos as int) == line_finish(source@, finish as int),
        decreases source@.len() - finish,
    {
        finish += 1;
    }
    copy_bytes(source, begin, finish)
}

/// The name of the identifier `ident`, in bytes.
pub fn name_bytes(tree: &SyntaxTree, ident: usize) -> (r: Option<Vec<u8>>)
    requires
        ident < tree@.elements.len(),
    ensures
        match r {
            Some(name) => ident_bytes(tree@, ident as int) == Some(name@),
            None => ident_bytes(tree@, ident as int) is None,
        },
{
    match tree.first_child(ident) {
        Some(t) => {
            let e = tree.element(t);
            if e.token {
                Some(copy_bytes(tree.source_bytes(), e.start, e.end))
            } else {
                None
            }
        },
        None => None,
    }
}

/// The work on one file: the tags found in it so far.
pub struct FileJob {
    /// The number of the file.
    pub file: usize,
    pub results: Vec<Tag>,
}

impl FileJob {
    /// Adds the tags of the entries of the attribute set `set`.
    pub fn visit_attrset(&mut self, tree: &SyntaxTree, set: usize)
        requires
            set < tree@.elements.len(),
        ensures
            final(self).file == old(self).file,
            tag_views(final(self).results@) == tag_views(old(self).results@) + entries_tags(
                tree@,
                old(self).file,
                tree@.child_nodes(set as int),
            ),
    {
        let nodes = tree.child_nodes(set);
        let ghost m = tree@;
        let ghost start = tag_views(self.results@);
        let ghost file = self.file;
        let mut i: usize = 0;
        while i < nodes.len()
            invariant
                i <= nodes.len(),
                m == tree@,
                self.file == file,
                forall|k: int| 0 <= k < nodes.len() ==> (#[trigger] nodes[k]) < m.elements.len(),
                tag_views(self.results@) == start + entries_tags(m, file, nodes@.take(i as int)),
            decreases nodes.len() - i,
        {
            let entry = nodes[i];
            proof {
                assert(nodes@.take(i + 1).drop_last() == nodes@.take(i as int));
                assert(nodes@.take(i + 1).last() == entry);
            }
            i += 1;
            if tree.element(entry).kind != NodeKind::KeyValue {
                continue ;
            }
            let value = match value_of(tree, entry) {
                Some(value) => value,
                None => {
                    continue ;
                },
            };
            let key = match key_of(tree, entry) {
                Some(key) => key,
                None => {
                    continue ;
                },
            };
            let kind = if tree.element(value).kind == NodeKind::Lambda {
                Kind::Function
            } else {
                Kind::Member
            };
            let ident = match ident_of(tree, key) {
                Some(ident) => ident,
                None => {
                    continue ;
                },
            };
            let name = match name_bytes(tree, ident) {
                Some(name) => name,
                None => {
                    continue ;
                },
            };
            let addr = get_source_line(tree.source_bytes(), tree.element(ident).start);
            let tag = Tag { name, path: self.file, addr, kind };
            proof {
                lemma_tag_views_push(self.results@, tag);
                let before = entries_tags(m, file, nodes@.take(i - 1));
                assert(start + before.push(tag@) == (start + before).push(tag@));
            }
            self.results.push(tag);
        }
        assert(nodes@.take(nodes.len() as int) == nodes@);
    }

    /// Adds one tag for each name that the `inherit` statement `inherit`
    /// brings in.
    pub fn visit_inherit(&mut self, tree: &SyntaxTree, inherit: usize)
        requires
            inherit < tree@.elements.len(),
        ensures
            final(self).file == old(self).file,
            tag_views(final(self).results@) == tag_views(old(self).results@) + inherits_tags(
                tree@,
                old(self).file,
                inherit as int,
                tree@.child_nodes(inherit as int),
            ),
    {
        let nodes = tree.child_nodes(inherit);
        let ghost m = tree@;
        let ghost start = tag_views(self.results@);
        let ghost file = self.file;
        let origin = tree.element(inherit).start;
        let mut i: usize = 0;
        while i < nodes.len()
            invariant
                i <= nodes.len(),
                m == tree@,
                self.file == file,
                inherit < m.elements.len(),
                origin == m.elements[inherit as int].start,
                origin <= m.source.len(),
                forall|k: int| 0 <= k < nodes.len() ==> (#[trigger] nodes[k]) < m.elements.len(),
                tag_views(self.results@) == start + inherits_tags(
                    m,
                    file,
                    inherit as int,
                    nodes@.take(i as int),
                ),
            decreases nodes.len() - i,
        {
            let node = nodes[i];
            proof {
                assert(nodes@.take(i + 1).drop_last() == nodes@.take(i as int));
                assert(nodes@.take(i + 1).last() == node);
            }
            i += 1;
            if tree.element(node).kind != NodeKind::Ident {
                continue ;
            }
            let name = match name_bytes(tree, node) {
                Some(name) => name,
                None => {
                    continue ;
                },
            };
            let addr = get_source_line(tree.source_bytes(), origin);
            let tag = Tag { name, path: self.file, addr, kind: Kind::Member };
            proof {
                lemma_tag_views_push(self.results@, tag);
                let before = inherits_tags(m, file, inherit as int, nodes@.take(i - 1));
                assert(start + before.push(tag@) == (start + before).push(tag@));
            }
            self.results.push(tag);
        }
        assert(nodes@.take(nodes.len() as int) == nodes@);
    }

    /// Adds the tags of the whole tree, in the order of the tree.
    pub fn exec(&mut self, tree: &SyntaxTree)
        ensures
            final(self).file == old(self).file,
            tag_views(final(self).results@) == tag_views(old(self).results@) + file_tags(
                tree@,
                old(self).file,
            ),
    {
        let n = tree.len();
        let ghost m = tree@;
        let ghost start = tag_views(self.results@);
        let ghost file = self.file;
        let mut i: usize = 0;
        assert(start + Seq::<TagModel>::empty() == start);
        while i < n
            invariant
                i <= n == m.elements.len(),
                m == tree@,
                self.file == file,
                tag_views(self.results@) == start + tree_tags(m, file, i as int),
            decreases n - i,
        {
            let e = tree.element(i);
            let ghost before = tree_tags(m, file, i as int);
            let ghost added = element_tags(m, file, i as int);
            if !e.token && e.kind == NodeKind::AttrSet {
                self.visit_attrset(tree, i);
            } else if !e.token && e.kind == NodeKind::Inherit {
                self.visit_inherit(tree, i);
            }
            proof {
                assert(start + before + added == start + (before + added));
                assert(start + before + Seq::<TagModel>::empty() == start + before);
            }
            i += 1;
        }
    }

    /// The tags of the source `source` of the file `file`, in the order of
    /// an index. `None` where the source has no tree.
    pub fn run(source: &str, file: usize) -> (r: Option<Vec<Tag>>)
        ensures
            match r {
                Some(tags) => source_model(source@) matches Some(m) && tags_sorted(
                    tag_views(tags@),
                ) && tag_bag(tags@) == file_tags(m, file).to_multiset(),
                None => source_model(source@) is None,
            },
    {
        let tree = match parse(source) {
            Some(tree) => tree,
            None => {
                return None;
            },
        };
        let mut job = FileJob { file, results: Vec::new() };
        assert(tag_views(job.results@) =~= Seq::<TagModel>::empty());
        job.exec(&tree);
        assert(Seq::<TagModel>::empty() + file_tags(tree@, file) == file_tags(tree@, file));
        Some(sort_tags(job.results))
    }
}

} // verus!
