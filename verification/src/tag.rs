//! The entries of a tag index and the order that an index lists them in.

use vstd::prelude::*;
use vstd::relations::{sorted_by, total_ordering};

verus! {

/// What a tag names: a function, or any other member of an attribute set.
#[derive(Clone, Copy, Debug, PartialEq, Eq, Structural)]
pub enum Kind {
    Function,
    Member,
}

/// One entry of a tag index.
#[derive(Debug)]
pub struct Tag {
    /// The name of the definition.
    pub name: Vec<u8>,
    /// The file of the definition, as an index into the table of paths.
    pub path: usize,
    /// The source line of the definition, by which an editor finds it.
    pub addr: Vec<u8>,
    pub kind: Kind,
}

/// The mathematical model of a tag.
pub struct TagModel {
    pub name: Seq<u8>,
    pub path: usize,
    pub addr: Seq<u8>,
    pub kind: Kind,
}

impl View for Tag {
    type V = TagModel;

    open spec fn view(&self) -> TagModel {
        TagModel { name: self.name@, path: self.path, addr: self.addr@, kind: self.kind }
    }
}

/// The models of the tags.
pub open spec fn tag_views(tags: Seq<Tag>) -> Seq<TagModel> {
    tags.map_values(|t: Tag| t@)
}

/// The models of a list of tags with one more tag.
pub proof fn lemma_tag_views_push(tags: Seq<Tag>, tag: Tag)
    ensures
        tag_views(tags.push(tag)) == tag_views(tags).push(tag@),
{
    assert(tag_views(tags.push(tag)) =~= tag_views(tags).push(tag@));
}

/// `a` comes before `b` in the order of the dictionary, byte by byte.
pub open spec fn bytes_lt(a: Seq<u8>, b: Seq<u8>) -> bool
    decreases a.len(),
{
    if b.len() == 0 {
        false
    } else if a.len() == 0 {
        true
    } else if a[0] != b[0] {
        a[0] < b[0]
    } else {
        bytes_lt(a.skip(1), b.skip(1))
    }
}

/// Functions come before other members.
pub open spec fn kind_rank(kind: Kind) -> int {
    match kind {
        Kind::Function => 0,
        Kind::Member => 1,
    }
}

/// `a` comes before `b` in an index: by name; of two tags with one name the
/// function first; of two of one kind the one from the file found first; of
/// two from one file the one with the lesser source line.
pub open spec fn tag_lt(a: TagModel, b: TagModel) -> bool {
    if a.name != b.name {
        bytes_lt(a.name, b.name)
    } else if a.kind != b.kind {
        kind_rank(a.kind) < kind_rank(b.kind)
    } else if a.path != b.path {
        a.path < b.path
    } else {
        bytes_lt(a.addr, b.addr)
    }
}

/// `a` is `b` or comes before it.
pub open spec fn tag_le(a: TagModel, b: TagModel) -> bool {
    a == b || tag_lt(a, b)
}

/// The order of an index as a relation.
pub open spec fn tag_order() -> spec_fn(TagModel, TagModel) -> bool {
    |a: TagModel, b: TagModel| tag_le(a, b)
}

/// The tags stand in the order of an index.
pub open spec fn tags_sorted(tags: Seq<TagModel>) -> bool {
    forall|i: int, j: int|
        0 <= i < j < tags.len() ==> tag_le(#[trigger] tags[i], #[trigger] tags[j])
}

/// Of two byte strings one comes before the other, or they are the same.
pub proof fn lemma_bytes_trichotomy(a: Seq<u8>, b: Seq<u8>)
    ensures
        a == b || bytes_lt(a, b) || bytes_lt(b, a),
        !(a == b && bytes_lt(a, b)),
        !(bytes_lt(a, b) && bytes_lt(b, a)),
    decreases a.len(),
{
    if a.len() == 0 || b.len() == 0 {
        if a.len() == 0 && b.len() == 0 {
            assert(a =~= b);
        }
    } else if a[0] == b[0] {
        lemma_bytes_trichotomy(a.skip(1), b.skip(1));
        if a.skip(1) == b.skip(1) {
            assert(a =~= seq![a[0]] + a.skip(1));
            assert(b =~= seq![b[0]] + b.skip(1));
        }
        if a == b {
            assert(a.skip(1) == b.skip(1));
        }
    }
}

/// The order of the dictionary is transitive.
pub proof fn lemma_bytes_transitive(a: Seq<u8>, b: Seq<u8>, c: Seq<u8>)
    requires
        bytes_lt(a, b),
        bytes_lt(b, c),
    ensures
        bytes_lt(a, c),
    decreases a.len(),
{
    if a.len() > 0 && a[0] == b[0] && b[0] == c[0] {
        lemma_bytes_transitive(a.skip(1), b.skip(1), c.skip(1));
    }
}

/// Behind a common start, two byte strings stand as their rests do.
pub proof fn lemma_bytes_lt_skip(a: Seq<u8>, b: Seq<u8>, n: int)
    requires
        0 <= n <= a.len(),
        n <= b.len(),
        a.take(n) == b.take(n),
    ensures
        bytes_lt(a, b) == bytes_lt(a.skip(n), b.skip(n)),
        (a == b) == (a.skip(n) == b.skip(n)),
    decreases n,
{
    if n == 0 {
        assert(a.skip(0) == a);
        assert(b.skip(0) == b);
    } else {
        assert(a[0] == a.take(n)[0]);
        assert(b[0] == b.take(n)[0]);
        assert(a.skip(1).take(n - 1) =~= a.take(n).skip(1));
        assert(b.skip(1).take(n - 1) =~= b.take(n).skip(1));
        lemma_bytes_lt_skip(a.skip(1), b.skip(1), n - 1);
        assert(a.skip(1).skip(n - 1) == a.skip(n));
        assert(b.skip(1).skip(n - 1) == b.skip(n));
        if a.skip(n) == b.skip(n) {
            assert(a =~= a.take(n) + a.skip(n));
            assert(b =~= b.take(n) + b.skip(n));
        }
    }
}

/// Of two tags one comes before the other, or they are the same.
pub proof fn lemma_tag_trichotomy(a: TagModel, b: TagModel)
    ensures
        a == b || tag_lt(a, b) || tag_lt(b, a),
        !(a == b && tag_lt(a, b)),
        !(tag_lt(a, b) && tag_lt(b, a)),
{
    lemma_bytes_trichotomy(a.name, b.name);
    lemma_bytes_trichotomy(a.addr, b.addr);
}

/// The order of an index is transitive.
pub proof fn lemma_tag_transitive(a: TagModel, b: TagModel, c: TagModel)
    requires
        tag_lt(a, b),
        tag_lt(b, c),
    ensures
        tag_lt(a, c),
{
    lemma_bytes_trichotomy(a.name, b.name);
    lemma_bytes_trichotomy(b.name, c.name);
    lemma_bytes_trichotomy(a.name, c.name);
    if a.name != b.name && b.name != c.name {
        lemma_bytes_transitive(a.name, b.name, c.name);
    }
    if a.name == b.name && b.name == c.name && a.kind == b.kind && b.kind == c.kind && a.path
        == b.path && b.path == c.path {
        lemma_bytes_transitive(a.addr, b.addr, c.addr);
    }
}

/// The order of an index is a total order: any two tags can be compared, and
/// two tags that come before each other are one and the same.
pub proof fn lemma_tag_order_total()
    ensures
        total_ordering(tag_order()),
{
    let r = tag_order();
    assert forall|x: TagModel, y: TagModel| #[trigger] r(x, y) && #[trigger] r(y, x) implies x
        == y by {
        lemma_tag_trichotomy(x, y);
    }
    assert forall|x: TagModel, y: TagModel, z: TagModel| #[trigger]
        r(x, y) && #[trigger] r(y, z) implies r(x, z) by {
        if x != y && y != z {
            lemma_tag_transitive(x, y, z);
        }
    }
    assert forall|x: TagModel, y: TagModel| #[trigger] r(x, y) || #[trigger] r(y, x) by {
        lemma_tag_trichotomy(x, y);
    }
}

/// The order of an index is transitive, equal tags included.
pub proof fn lemma_tag_le_transitive(a: TagModel, b: TagModel, c: TagModel)
    requires
        tag_le(a, b),
        tag_le(b, c),
    ensures
        tag_le(a, c),
{
    if a != b && b != c {
        lemma_tag_transitive(a, b, c);
    }
}

/// Tags in the order of an index are sorted by that order as a relation.
pub proof fn lemma_tags_sorted_by(tags: Seq<TagModel>)
    ensures
        tags_sorted(tags) == sorted_by(tags, tag_order()),
{
    let r = tag_order();
    if tags_sorted(tags) {
        assert forall|i: int, j: int| 0 <= i < j < tags.len() implies #[trigger] r(
            tags[i],
            tags[j],
        ) by {
            assert(tag_le(tags[i], tags[j]));
        }
    }
    if sorted_by(tags, r) {
        assert forall|i: int, j: int| 0 <= i < j < tags.len() implies tag_le(
            #[trigger] tags[i],
            #[trigger] tags[j],
        ) by {
            assert(r(tags[i], tags[j]));
        }
    }
}

/// How two byte strings stand to each other.
#[derive(Clone, Copy, Debug, PartialEq, Eq, Structural)]
pub enum Order {
    Before,
    Same,
    After,
}

/// Compares two byte strings in the order of the dictionary.
pub fn order_bytes(a: &Vec<u8>, b: &Vec<u8>) -> (r: Order)
    ensures
        r == Order::Before <==> bytes_lt(a@, b@),
        r == Order::Same <==> a@ == b@,
        r == Order::After <==> bytes_lt(b@, a@),
{
    let mut i: usize = 0;
    proof {
        lemma_bytes_trichotomy(a@, b@);
    }
    while i < a.len() && i < b.len()
        invariant
            i <= a.len(),
            i <= b.len(),
            a@.take(i as int) == b@.take(i as int),
        decreases a.len() - i,
    {
        if a[i] != b[i] {
            proof {
                lemma_bytes_lt_skip(a@, b@, i as int);
                lemma_bytes_lt_skip(b@, a@, i as int);
                assert(a@.skip(i as int)[0] == a@[i as int]);
                assert(b@.skip(i as int)[0] == b@[i as int]);
                lemma_bytes_trichotomy(a@, b@);
            }
            return if a[i] < b[i] {
                Order::Before
            } else {
                Order::After
            };
        }
        proof {
            assert(a@.take(i + 1) == a@.take(i as int).push(a@[i as int]));
            assert(b@.take(i + 1) == b@.take(i as int).push(b@[i as int]));
        }
        i += 1;
    }
    proof {
        lemma_bytes_lt_skip(a@, b@, i as int);
        lemma_bytes_lt_skip(b@, a@, i as int);
        lemma_bytes_trichotomy(a@, b@);
        if i == a.len() && i == b.len() {
            assert(a@.skip(i as int) =~= b@.skip(i as int));
        }
    }
    if i < b.len() {
        Order::Before
    } else if i < a.len() {
        Order::After
    } else {
        Order::Same
    }
}

/// Tells whether `a` is `b` or comes before it in an index.
pub fn tag_precedes(a: &Tag, b: &Tag) -> (r: bool)
    ensures
        r == tag_le(a@, b@),
{
    proof {
        lemma_bytes_trichotomy(a@.name, b@.name);
        lemma_bytes_trichotomy(a@.addr, b@.addr);
    }
    match order_bytes(&a.name, &b.name) {
        Order::Before => true,
        Order::After => false,
        Order::Same => {
            let ka: u8 = match a.kind {
                Kind::Function => 0,
                Kind::Member => 1,
            };
            let kb: u8 = match b.kind {
                Kind::Function => 0,
                Kind::Member => 1,
            };
            if ka != kb {
                ka < kb
            } else if a.path != b.path {
                a.path < b.path
            } else {
                match order_bytes(&a.addr, &b.addr) {
                    Order::Before => true,
                    Order::After => false,
                    Order::Same => true,
                }
            }
        },
    }
}

} // verus!
