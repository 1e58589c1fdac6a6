//! The parts of an entry `key = value;` of an attribute set, as the tree
//! holds them.

use crate::syntax::{element_ok, well_formed, NodeKind, SyntaxTree, TreeModel};
use vstd::prelude::*;
use vstd::utf8::decode_utf8;

verus! {

/// The key of the entry `entry`: its first child node, if that is a key.
pub open spec fn entry_key(m: TreeModel, entry: int) -> Option<usize> {
    let nodes = m.child_nodes(entry);
    if nodes.len() > 0 && m.elements[nodes[0] as int].kind == NodeKind::Key {
        Some(nodes[0])
    } else {
        None
    }
}

/// The value of the entry `entry`: its second child node.
pub open spec fn entry_value(m: TreeModel, entry: int) -> Option<usize> {
    let nodes = m.child_nodes(entry);
    if nodes.len() > 1 {
        Some(nodes[1])
    } else {
        None
    }
}

/// The identifier that the key `key` defines: the last node of its path, if
/// that is an identifier. For `a.b.c` it is `c`.
pub open spec fn key_ident(m: TreeModel, key: int) -> Option<usize> {
    let path = m.child_nodes(key);
    if path.len() > 0 && m.elements[path.last() as int].kind == NodeKind::Ident {
        Some(path.last())
    } else {
        None
    }
}

/// The name of the identifier `ident`: the text of its first child, if that
/// is a token with a text.
pub open spec fn ident_name(m: TreeModel, ident: int) -> Option<Seq<char>> {
    match m.first_child(ident) {
        Some(t) => if m.elements[t as int].token {
            m.text_of(t as int)
        } else {
            None
        },
        None => None,
    }
}

/// The name of an identifier begins with the identifier's first byte and
/// ends within the identifier: it is the text of the source between the
/// identifier's start and the end of the identifier's first token.
pub proof fn lemma_name_begins_ident(m: TreeModel, ident: int)
    requires
        well_formed(m.elements, m.source.len()),
        0 <= ident < m.elements.len() <= usize::MAX,
        ident_name(m, ident) is Some,
    ensures
        ({
            let token = m.elements[ident + 1];
            &&& m.first_child(ident) matches Some(t) && t == ident + 1
            &&& token.start == m.elements[ident].start
            &&& token.end <= m.elements[ident].end
            &&& ident_name(m, ident) == Some(
                decode_utf8(
                    m.source.subrange(m.elements[ident].start as int, token.end as int),
                ),
            )
        }),
{
    assert(element_ok(m.elements, m.source.len(), ident + 1));
    match m.elements[ident + 1].prev {
        Some(q) => {
            assert(element_ok(m.elements, m.source.len(), q as int));
        },
        None => {},
    }
}

/// The key of the entry `entry`.
pub fn key_of(tree: &SyntaxTree, entry: usize) -> (r: Option<usize>)
    requires
        entry < tree@.elements.len(),
    ensures
        r == entry_key(tree@, entry as int),
        r matches Some(k) ==> k < tree@.elements.len(),
{
    let nodes = tree.child_nodes(entry);
    if nodes.len() > 0 && tree.element(nodes[0]).kind == NodeKind::Key {
        Some(nodes[0])
    } else {
        None
    }
}

/// The value of the entry `entry`.
pub fn value_of(tree: &SyntaxTree, entry: usize) -> (r: Option<usize>)
    requires
        entry < tree@.elements.len(),
    ensures
        r == entry_value(tree@, entry as int),
        r matches Some(v) ==> v < tree@.elements.len(),
{
    let nodes = tree.child_nodes(entry);
    if nodes.len() > 1 {
        Some(nodes[1])
    } else {
        None
    }
}

/// The identifier that the key `key` defines.
pub fn ident_of(tree: &SyntaxTree, key: usize) -> (r: Option<usize>)
    requires
        key < tree@.elements.len(),
    ensures
        r == key_ident(tree@, key as int),
        r matches Some(i) ==> i < tree@.elements.len(),
{
    let path = tree.child_nodes(key);
    if path.len() > 0 && tree.element(path[path.len() - 1]).kind == NodeKind::Ident {
        Some(path[path.len() - 1])
    } else {
        None
    }
}

/// The name of the identifier `ident`.
pub fn name_of<'a>(tree: &SyntaxTree<'a>, ident: usize) -> (r: Option<&'a str>)
    requires
        ident < tree@.elements.len(),
    ensures
        match r {
            Some(name) => ident_name(tree@, ident as int) == Some(name@),
            None => ident_name(tree@, ident as int) is None,
        },
{
    match tree.first_child(ident) {
        Some(t) => if tree.element(t).token {
            tree.text(t)
        } else {
            None
        },
        None => None,
    }
}

} // verus!
