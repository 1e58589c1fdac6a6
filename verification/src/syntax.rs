//! The syntax tree of one source file, as the library reads it: the elements
//! of the tree in the order of a walk from the root, each with its kind, its
//! byte range in the source, and its links to its parent and its siblings.

use vstd::prelude::*;
use vstd::string::StringSliceAdditionalSpecFns;
use vstd::utf8::{
    decode_utf8, encode_utf8_decode_utf8, encode_utf8_valid_utf8, is_char_boundary,
    is_char_boundary_iff_not_is_continuation_byte, is_char_boundary_start_end_of_seq,
    valid_utf8_split,
};

verus! {

/// What an element of the tree is, as far as the library tells elements
/// apart. Every kind that it has no use for is `Other`.
#[derive(Clone, Copy, Debug, PartialEq, Eq, Structural)]
pub enum NodeKind {
    /// A comment token.
    Comment,
    /// A whitespace token.
    Whitespace,
    /// A token that the tokenizer could not read.
    ErrorToken,
    /// The `=` between a key and its value.
    Assign,
    /// The key of an entry: one identifier, or a path of them with dots.
    Key,
    /// One entry `key = value;` of an attribute set.
    KeyValue,
    /// An attribute set.
    AttrSet,
    /// A function literal.
    Lambda,
    /// An identifier.
    Ident,
    /// An `inherit` statement.
    Inherit,
    /// Anything else.
    Other,
}

/// One step of a walk through a tree: an element is entered, or the element
/// entered last and not yet left is left. A token is entered and left at
/// once; between the two steps of a node lie those of its children.
#[derive(Clone, Copy, Debug, PartialEq, Eq, Structural)]
pub enum WalkStep {
    Enter { kind: NodeKind, token: bool, start: usize, end: usize },
    Leave,
}

/// One element of a tree. The links are indices into the tree's elements.
#[derive(Clone, Copy, Debug, PartialEq, Eq, Structural)]
pub struct Element {
    pub kind: NodeKind,
    /// A token is a leaf that holds a piece of the text; a node holds
    /// elements.
    pub token: bool,
    /// The byte range of the element in the source is `start..end`.
    pub start: usize,
    pub end: usize,
    pub parent: Option<usize>,
    /// The sibling just before this element, node or token.
    pub prev: Option<usize>,
    /// The sibling just after this element, node or token.
    pub next: Option<usize>,
}

/// An element that a walk has entered and not yet left, and the child of it
/// that the walk entered last.
#[derive(Clone, Copy, Debug, PartialEq, Eq, Structural)]
pub struct Open {
    pub node: usize,
    pub last: Option<usize>,
}

/// How far a walk has come: the elements entered so far, and those of them
/// that are still open, outermost first. A walk is done when it has left its
/// root.
pub struct WalkState {
    pub elements: Seq<Element>,
    pub open: Seq<Open>,
    pub done: bool,
}

/// The state of a walk that has not begun.
pub open spec fn walk_start() -> WalkState {
    WalkState { elements: Seq::empty(), open: Seq::empty(), done: false }
}

/// The innermost open element is a token, which has no children.
pub open spec fn below_token(st: WalkState) -> bool {
    st.open.len() > 0 && st.elements[st.open.last().node as int].token
}

/// An element entered now with this range stands where a child stands: it
/// begins where the sibling before it ends, or where its parent begins if it
/// is the first, and ends within its parent. The root stands anywhere.
pub open spec fn in_place(st: WalkState, start: usize, end: usize) -> bool {
    st.open.len() > 0 ==> {
        let top = st.open.last();
        let parent = st.elements[top.node as int];
        &&& end <= parent.end
        &&& start == match top.last {
            Some(q) => st.elements[q as int].end,
            None => parent.start,
        }
    }
}

/// The state after entering an element, or `None` where no tree has such a
/// step: after the root was left, below a token, with a range that does not
/// lie in a source of `limit` bytes, or with one that is not in its place
/// among the elements entered so far.
pub open spec fn walk_enter(
    st: WalkState,
    kind: NodeKind,
    token: bool,
    start: usize,
    end: usize,
    limit: nat,
) -> Option<WalkState> {
    if st.done || start > end || end > limit || below_token(st) || !in_place(st, start, end) {
        None
    } else {
        let i = st.elements.len() as usize;
        let parent = if st.open.len() > 0 {
            Some(st.open.last().node)
        } else {
            None
        };
        let prev = if st.open.len() > 0 {
            st.open.last().last
        } else {
            None
        };
        let linked = match prev {
            Some(q) => st.elements.update(
                q as int,
                Element { next: Some(i), ..st.elements[q as int] },
            ),
            None => st.elements,
        };
        let open = if st.open.len() > 0 {
            st.open.update(st.open.len() - 1, Open { node: st.open.last().node, last: Some(i) })
        } else {
            st.open
        };
        Some(
            WalkState {
                elements: linked.push(
                    Element { kind, token, start, end, parent, prev, next: None },
                ),
                open: open.push(Open { node: i, last: None }),
                done: false,
            },
        )
    }
}

/// The state after leaving the innermost open element, or `None` where none
/// is open.
pub open spec fn walk_leave(st: WalkState) -> Option<WalkState> {
    if st.open.len() == 0 {
        None
    } else {
        Some(
            WalkState {
                elements: st.elements,
                open: st.open.drop_last(),
                done: st.open.len() == 1,
            },
        )
    }
}

/// The state after one step.
pub open spec fn walk_step(st: WalkState, step: WalkStep, limit: nat) -> Option<WalkState> {
    match step {
        WalkStep::Enter { kind, token, start, end } => {
            walk_enter(st, kind, token, start, end, limit)
        },
        WalkStep::Leave => walk_leave(st),
    }
}

/// The state after all of `steps`, or `None` where they are the walk of no
/// tree.
pub open spec fn walk(steps: Seq<WalkStep>, limit: nat) -> Option<WalkState>
    decreases steps.len(),
{
    if steps.len() == 0 {
        Some(walk_start())
    } else {
        match walk(steps.drop_last(), limit) {
            Some(st) => walk_step(st, steps.last(), limit),
            None => None,
        }
    }
}

/// The elements of the tree that `steps` walk through, over a source of
/// `limit` bytes: the steps must enter one root, leave whatever they enter,
/// and stop when they have left the root.
pub open spec fn tree_of_walk(steps: Seq<WalkStep>, limit: nat) -> Option<Seq<Element>> {
    match walk(steps, limit) {
        Some(st) => if st.done && st.open.len() == 0 {
            Some(st.elements)
        } else {
            None
        },
        None => None,
    }
}

/// Element `i` is linked as an element of a tree is: its range lies in the
/// source and in its parent's, its parent is a node that stands before it,
/// its siblings stand where its links say, and it begins where the sibling
/// before it ends, the first child where its parent begins.
pub open spec fn element_ok(es: Seq<Element>, limit: nat, i: int) -> bool {
    let e = es[i];
    &&& e.start <= e.end <= limit
    &&& match e.parent {
        Some(p) => p < i && !es[p as int].token && es[p as int].start <= e.start && e.end
            <= es[p as int].end,
        None => i == 0,
    }
    &&& match e.prev {
        Some(q) => q < i && es[q as int].parent == e.parent && es[q as int].next == Some(
            i as usize,
        ) && es[q as int].end == e.start,
        None => e.parent matches Some(p) ==> i == p + 1 && es[p as int].start == e.start,
    }
    &&& match e.next {
        Some(n) => i < n < es.len() && es[n as int].prev == Some(i as usize) && es[n as int].parent
            == e.parent,
        None => true,
    }
}

/// The elements are those of a tree over a source of `limit` bytes.
pub open spec fn well_formed(es: Seq<Element>, limit: nat) -> bool {
    forall|i: int| 0 <= i < es.len() ==> element_ok(es, limit, i)
}

/// What holds of a walk under way.
spec fn state_ok(st: WalkState, limit: nat) -> bool {
    &&& well_formed(st.elements, limit)
    &&& st.elements.len() <= usize::MAX
    &&& st.done ==> st.open.len() == 0
    &&& (!st.done && st.open.len() == 0) ==> st.elements.len() == 0
    &&& forall|k: int| 0 <= k < st.open.len() ==> open_ok(st, k)
    &&& forall|j: int, k: int|
        0 <= j < k < st.open.len() ==> (#[trigger] st.open[j]).node < (#[trigger] st.open[k]).node
}

/// What holds of the open element `k`: it is the child of the one opened
/// before it, its last child so far is the one opened after it or, for the
/// innermost, the element that `last` names, and nothing follows that child
/// yet.
spec fn open_ok(st: WalkState, k: int) -> bool {
    let o = st.open[k];
    &&& o.node < st.elements.len()
    &&& st.elements[o.node as int].parent == if k == 0 {
        None
    } else {
        Some(st.open[k - 1].node)
    }
    &&& if k + 1 < st.open.len() {
        o.last == Some(st.open[k + 1].node)
    } else {
        match o.last {
            Some(c) => c < st.elements.len() && st.elements[c as int].parent == Some(o.node)
                && st.elements[c as int].next is None,
            None => o.node + 1 == st.elements.len(),
        }
    }
    &&& k + 1 < st.open.len() ==> !st.elements[o.node as int].token
    &&& k + 1 < st.open.len() ==> st.elements[st.open[k + 1].node as int].next is None
}

/// Entering an element keeps a walk in order.
proof fn lemma_enter_ok(
    st: WalkState,
    kind: NodeKind,
    token: bool,
    start: usize,
    end: usize,
    limit: nat,
)
    requires
        state_ok(st, limit),
        st.elements.len() < usize::MAX,
        walk_enter(st, kind, token, start, end, limit) is Some,
    ensures
        state_ok(walk_enter(st, kind, token, start, end, limit).unwrap(), limit),
{
    let next = walk_enter(st, kind, token, start, end, limit).unwrap();
    let i = st.elements.len() as int;
    let es = next.elements;
    if st.open.len() > 0 {
        assert(open_ok(st, st.open.len() - 1));
    }
    assert forall|j: int| 0 <= j < es.len() implies element_ok(es, limit, j) by {
        if j < i {
            assert(element_ok(st.elements, limit, j));
            let old_e = st.elements[j];
            match old_e.parent {
                Some(p) => {
                    assert(es[p as int].token == st.elements[p as int].token);
                    assert(es[p as int].start == st.elements[p as int].start);
                    assert(es[p as int].end == st.elements[p as int].end);
                },
                None => {},
            }
            match old_e.prev {
                Some(q) => {
                    assert(es[q as int].parent == st.elements[q as int].parent);
                    assert(es[q as int].end == st.elements[q as int].end);
                },
                None => {},
            }
            assert(es[j].start == old_e.start && es[j].end == old_e.end);
            match old_e.next {
                Some(n) => {
                    assert(es[n as int].prev == st.elements[n as int].prev);
                    assert(es[n as int].parent == st.elements[n as int].parent);
                },
                None => {},
            }
        } else {
            if st.open.len() > 0 {
                let top = st.open.last();
                assert(es[top.node as int].token == st.elements[top.node as int].token);
                assert(es[top.node as int].start == st.elements[top.node as int].start);
                assert(es[top.node as int].end == st.elements[top.node as int].end);
                match top.last {
                    Some(q) => {
                        assert(element_ok(st.elements, limit, q as int));
                        assert(es[q as int].end == st.elements[q as int].end);
                    },
                    None => {},
                }
            }
        }
    }
    assert forall|k: int| 0 <= k < next.open.len() implies open_ok(next, k) by {
        let len = st.open.len() as int;
        if k < len {
            assert(open_ok(st, k));
            assert(open_ok(st, len - 1));
            let top = st.open[len - 1];
            assert(es[st.open[k].node as int].parent == st.elements[st.open[k].node as int].parent);
            assert(es[st.open[k].node as int].token == st.elements[st.open[k].node as int].token);
            if k + 1 < len {
                assert(open_ok(st, k + 1));
                assert(st.open[k + 1].node <= top.node);
                match top.last {
                    Some(q) => {
                        assert(element_ok(st.elements, limit, q as int));
                        assert(q > top.node);
                    },
                    None => {},
                }
                assert(es[st.open[k + 1].node as int].next == st.elements[st.open[k
                    + 1].node as int].next);
            }
        }
    }
    assert forall|j: int, k: int| 0 <= j < k < next.open.len() implies (
    #[trigger] next.open[j]).node < (#[trigger] next.open[k]).node by {
        assert(open_ok(st, j));
        if k < st.open.len() {
            assert(st.open[j].node < st.open[k].node);
        }
    }
}

/// Leaving an element keeps a walk in order.
proof fn lemma_leave_ok(st: WalkState, limit: nat)
    requires
        state_ok(st, limit),
        walk_leave(st) is Some,
    ensures
        state_ok(walk_leave(st).unwrap(), limit),
{
    let next = walk_leave(st).unwrap();
    assert forall|k: int| 0 <= k < next.open.len() implies open_ok(next, k) by {
        assert(open_ok(st, k));
        assert(open_ok(st, k + 1));
    }
    if st.open.len() == 1 {
        assert(open_ok(st, 0));
    }
}

/// The mathematical model of a tree: the bytes of its source and its
/// elements.
pub struct TreeModel {
    pub source: Seq<u8>,
    pub elements: Seq<Element>,
}

impl TreeModel {
    /// The bytes of element `i`.
    pub open spec fn bytes_of(self, i: int) -> Seq<u8> {
        self.source.subrange(self.elements[i].start as int, self.elements[i].end as int)
    }

    /// The text of element `i`, where its range cuts no character of the
    /// source in two.
    pub open spec fn text_of(self, i: int) -> Option<Seq<char>> {
        if is_char_boundary(self.source, self.elements[i].start as int) && is_char_boundary(
            self.source,
            self.elements[i].end as int,
        ) {
            Some(decode_utf8(self.bytes_of(i)))
        } else {
            None
        }
    }

    /// The first child of element `i`, node or token.
    pub open spec fn first_child(self, i: int) -> Option<usize> {
        if i + 1 < self.elements.len() && self.elements[i + 1].parent == Some(i as usize) {
            Some((i + 1) as usize)
        } else {
            None
        }
    }

    /// The element `from` and the siblings after it, nodes and tokens.
    pub open spec fn siblings_from(self, from: Option<usize>) -> Seq<usize>
        decreases
            match from {
                Some(i) => self.elements.len() - i,
                None => 0,
            },
    {
        match from {
            Some(i) => if i < self.elements.len() {
                seq![i] + match self.elements[i as int].next {
                    Some(n) => if i < n && n < self.elements.len() {
                        self.siblings_from(Some(n))
                    } else {
                        Seq::empty()
                    },
                    None => Seq::empty(),
                }
            } else {
                Seq::empty()
            },
            None => Seq::empty(),
        }
    }

    /// The children of element `i`, nodes and tokens, in the order of the
    /// source.
    pub open spec fn children(self, i: int) -> Seq<usize> {
        self.siblings_from(self.first_child(i))
    }

    /// The children of element `i` that are nodes.
    pub open spec fn child_nodes(self, i: int) -> Seq<usize> {
        self.children(i).filter(|c: usize| !self.elements[c as int].token)
    }
}

/// The syntax tree of one source file.
pub struct SyntaxTree<'a> {
    source: &'a str,
    elements: Vec<Element>,
}

impl<'a> SyntaxTree<'a> {
    /// The elements are those of a tree over the source.
    #[verifier::type_invariant]
    spec fn inv(self) -> bool {
        well_formed(self.elements@, self.source.spec_bytes().len())
    }

    /// The model of the tree.
    pub closed spec fn view(&self) -> TreeModel {
        TreeModel { source: self.source.spec_bytes(), elements: self.elements@ }
    }

    /// The source that the tree was read from.
    pub closed spec fn source_ref(&self) -> &'a str {
        self.source
    }

    /// The tree whose walk `steps` are, over the source `source`, if they are
    /// the walk of a tree.
    pub fn from_walk(source: &'a str, steps: &Vec<WalkStep>) -> (r: Option<SyntaxTree<'a>>)
        ensures
            match r {
                Some(tree) => tree_of_walk(steps@, source.spec_bytes().len()) == Some(
                    tree@.elements,
                ) && tree@.source == source.spec_bytes() && tree.source_ref() == source
                    && well_formed(tree@.elements, tree@.source.len()),
                None => tree_of_walk(steps@, source.spec_bytes().len()) is None,
            },
    {
        let limit = source.as_bytes().len();
        let mut elements: Vec<Element> = Vec::new();
        let mut open: Vec<Open> = Vec::new();
        let mut done = false;
        let ghost mut st = walk_start();
        let mut i: usize = 0;
        while i < steps.len()
            invariant
                i <= steps.len(),
                limit == source.spec_bytes().len(),
                walk(steps@.take(i as int), limit as nat) == Some(st),
                st.elements == elements@,
                st.open == open@,
                st.done == done,
                elements.len() <= i,
                state_ok(st, limit as nat),
            decreases steps.len() - i,
        {
            proof {
                assert(steps@.take(i + 1).drop_last() == steps@.take(i as int));
                assert(steps@.take(i + 1).last() == steps@[i as int]);
            }
            let ghost after = walk_step(st, steps@[i as int], limit as nat);
            match steps[i] {
                WalkStep::Enter { kind, token, start, end } => {
                    let mut below_token = false;
                    if open.len() > 0 {
                        assert(open_ok(st, open.len() - 1));
                        below_token = elements[open[open.len() - 1].node].token;
                    }
                    let mut placed = true;
                    if open.len() > 0 {
                        let top = open[open.len() - 1];
                        let first = match top.last {
                            Some(q) => elements[q].end,
                            None => elements[top.node].start,
                        };
                        placed = end <= elements[top.node].end && start == first;
                    }
                    if done || start > end || end > limit || below_token || !placed {
                        proof {
                            lemma_walk_fails(steps@, i + 1, limit as nat);
                        }
                        return None;
                    }
                    let index = elements.len();
                    let mut parent: Option<usize> = None;
                    let mut prev: Option<usize> = None;
                    if open.len() > 0 {
                        let top = open[open.len() - 1];
                        assert(open_ok(st, open.len() - 1));
                        parent = Some(top.node);
                        prev = top.last;
                        match top.last {
                            Some(q) => {
                                let mut before = elements[q];
                                before.next = Some(index);
                                elements.set(q, before);
                            },
                            None => {},
                        }
                        let last = open.len() - 1;
                        open.set(last, Open { node: top.node, last: Some(index) });
                    }
                    elements.push(Element { kind, token, start, end, parent, prev, next: None });
                    open.push(Open { node: index, last: None });
                    proof {
                        lemma_enter_ok(st, kind, token, start, end, limit as nat);
                        st = after.unwrap();
                        assert(st.elements == elements@);
                        assert(st.open == open@);
                    }
                },
                WalkStep::Leave => {
                    if open.len() == 0 {
                        proof {
                            lemma_walk_fails(steps@, i + 1, limit as nat);
                        }
                        return None;
                    }
                    done = open.len() == 1;
                    open.pop();
                    proof {
                        lemma_leave_ok(st, limit as nat);
                        st = after.unwrap();
                        assert(st.open == open@);
                    }
                },
            }
            i += 1;
        }
        assert(steps@.take(steps.len() as int) == steps@);
        if done && open.len() == 0 {
            Some(SyntaxTree { source, elements })
        } else {
            None
        }
    }

    /// The source that the tree was read from.
    pub fn source(&self) -> (s: &'a str)
        ensures
            s == self.source_ref(),
            s.spec_bytes() == self@.source,
    {
        self.source
    }

    /// The bytes of the source.
    pub fn source_bytes(&self) -> (bytes: &'a [u8])
        ensures
            bytes@ == self@.source,
    {
        self.source.as_bytes()
    }

    /// The number of elements.
    pub fn len(&self) -> (n: usize)
        ensures
            n == self@.elements.len(),
    {
        self.elements.len()
    }

    /// Element `i`.
    pub fn element(&self, i: usize) -> (e: Element)
        requires
            i < self@.elements.len(),
        ensures
            e == self@.elements[i as int],
            element_ok(self@.elements, self@.source.len(), i as int),
    {
        proof {
            use_type_invariant(self);
        }
        self.elements[i]
    }

    /// The first child of element `i`, node or token.
    pub fn first_child(&self, i: usize) -> (c: Option<usize>)
        requires
            i < self@.elements.len(),
        ensures
            c == self@.first_child(i as int),
            c matches Some(j) ==> j < self@.elements.len(),
    {
        let n = self.elements.len();
        if i + 1 < n {
            match self.elements[i + 1].parent {
                Some(p) => if p == i {
                    Some(i + 1)
                } else {
                    None
                },
                None => None,
            }
        } else {
            None
        }
    }

    /// The children of element `i` that are nodes, in the order of the
    /// source.
    pub fn child_nodes(&self, i: usize) -> (nodes: Vec<usize>)
        requires
            i < self@.elements.len(),
        ensures
            nodes@ == self@.child_nodes(i as int),
            forall|k: int| 0 <= k < nodes.len() ==> (#[trigger] nodes[k]) < self@.elements.len(),
    {
        proof {
            use_type_invariant(self);
        }
        let ghost model = self@;
        let ghost keep = |c: usize| !model.elements[c as int].token;
        let mut nodes: Vec<usize> = Vec::new();
        let mut cursor = self.first_child(i);
        let ghost mut seen: Seq<usize> = Seq::empty();
        while cursor.is_some()
            invariant
                model == self@,
                well_formed(model.elements, model.source.len()),
                keep == |c: usize| !model.elements[c as int].token,
                cursor matches Some(j) ==> j < model.elements.len(),
                model.children(i as int) == seen + model.siblings_from(cursor),
                nodes@ == seen.filter(keep),
                forall|k: int|
                    0 <= k < nodes.len() ==> (#[trigger] nodes[k]) < model.elements.len(),
            decreases
                match cursor {
                    Some(j) => model.elements.len() - j,
                    None => 0,
                },
        {
            let c = cursor.unwrap();
            let e = self.elements[c];
            proof {
                assert(element_ok(model.elements, model.source.len(), c as int));
                assert(model.siblings_from(cursor) == seq![c] + model.siblings_from(e.next));
                assert(seen.push(c) + model.siblings_from(e.next) == seen + model.siblings_from(
                    cursor,
                ));
                seen.lemma_filter_push(c, keep);
            }
            if !e.token {
                nodes.push(c);
            }
            proof {
                seen = seen.push(c);
            }
            cursor = e.next;
        }
        proof {
            assert(model.siblings_from(None) == Seq::<usize>::empty());
            assert(seen + Seq::<usize>::empty() == seen);
        }
        nodes
    }

    /// The text of element `i`, where its range cuts no character of the
    /// source in two.
    pub fn text(&self, i: usize) -> (t: Option<&'a str>)
        requires
            i < self@.elements.len(),
        ensures
            match t {
                Some(s) => self@.text_of(i as int) == Some(s@) && s.spec_bytes() == self@.bytes_of(
                    i as int,
                ),
                None => self@.text_of(i as int) is None,
            },
    {
        proof {
            use_type_invariant(self);
        }
        let e = self.elements[i];
        let source = self.source;
        assert(element_ok(self.elements@, source.spec_bytes().len(), i as int));
        if source.is_char_boundary(e.start) && source.is_char_boundary(e.end) {
            let ghost bytes = source.spec_bytes();
            proof {
                encode_utf8_valid_utf8(source@);
            }
            let (head, _) = source.split_at(e.end);
            proof {
                valid_utf8_split(bytes, e.end as int);
                let prefix = bytes.subrange(0, e.end as int);
                assert(head.spec_bytes() == prefix);
                if e.start == 0 || e.start == e.end {
                    is_char_boundary_start_end_of_seq(prefix);
                } else {
                    is_char_boundary_iff_not_is_continuation_byte(bytes, e.start as int);
                    is_char_boundary_iff_not_is_continuation_byte(prefix, e.start as int);
                }
            }
            let (_, piece) = head.split_at(e.start);
            proof {
                assert(piece.spec_bytes() == bytes.subrange(e.start as int, e.end as int));
                encode_utf8_decode_utf8(piece@);
            }
            Some(piece)
        } else {
            None
        }
    }
}

/// The child nodes of an element are elements of the tree.
pub proof fn lemma_child_nodes_in_range(m: TreeModel, i: int)
    ensures
        forall|k: int|
            0 <= k < m.child_nodes(i).len() ==> (#[trigger] m.child_nodes(i)[k])
                < m.elements.len(),
{
    let keep = |c: usize| !m.elements[c as int].token;
    lemma_siblings_in_range(m, m.first_child(i));
    let all = m.children(i);
    assert forall|k: int| 0 <= k < m.child_nodes(i).len() implies (#[trigger] m.child_nodes(i)[k])
        < m.elements.len() by {
        all.lemma_filter_contains_rev(keep, m.child_nodes(i)[k]);
        let j = choose|j: int| 0 <= j < all.len() && all[j] == m.child_nodes(i)[k];
        assert(all[j] < m.elements.len());
    }
}

/// The siblings of an element are elements of the tree.
proof fn lemma_siblings_in_range(m: TreeModel, from: Option<usize>)
    ensures
        forall|k: int|
            0 <= k < m.siblings_from(from).len() ==> (#[trigger] m.siblings_from(from)[k])
                < m.elements.len(),
    decreases
        match from {
            Some(i) => m.elements.len() - i,
            None => 0,
        },
{
    match from {
        Some(i) => if i < m.elements.len() {
            let rest = match m.elements[i as int].next {
                Some(n) => if i < n && n < m.elements.len() {
                    lemma_siblings_in_range(m, Some(n));
                    m.siblings_from(Some(n))
                } else {
                    Seq::empty()
                },
                None => Seq::empty(),
            };
            let all = m.siblings_from(from);
            assert(all == seq![i] + rest);
            assert forall|k: int| 0 <= k < all.len() implies (#[trigger] all[k])
                < m.elements.len() by {
                if k > 0 {
                    assert(all[k] == rest[k - 1]);
                }
            }
        },
        None => {},
    }
}

/// Steps that fail at some point are the walk of no tree.
proof fn lemma_walk_fails(steps: Seq<WalkStep>, n: int, limit: nat)
    requires
        0 <= n <= steps.len(),
        walk(steps.take(n), limit) is None,
    ensures
        walk(steps, limit) is None,
        tree_of_walk(steps, limit) is None,
    decreases steps.len() - n,
{
    if n < steps.len() {
        assert(steps.take(n + 1).drop_last() == steps.take(n));
        lemma_walk_fails(steps, n + 1, limit);
    } else {
        assert(steps.take(n) == steps);
    }
}

} // verus!
