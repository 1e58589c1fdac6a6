//! Finds the comments that document a definition: those that stand right in
//! front of it in the source, with nothing but whitespace and the left-hand
//! side of the definition in between.

use crate::comment::{cleanup_comments, fragment_views, normalize};
use crate::syntax::{NodeKind, SyntaxTree, TreeModel};
use vstd::prelude::*;

verus! {

/// The kinds that the walk back from a definition passes over without
/// taking note: whitespace, what the tokenizer could not read, and the key
/// and the `=` of the definition itself.
pub open spec fn is_passed(kind: NodeKind) -> bool {
    kind == NodeKind::Whitespace || kind == NodeKind::ErrorToken || kind == NodeKind::Key || kind
        == NodeKind::Assign
}

/// The element just before element `i`: its previous sibling, or that of
/// the nearest ancestor that has one. `None` when the walk comes to the root
/// without finding one.
pub open spec fn step_back(m: TreeModel, i: int) -> Option<usize>
    decreases i + 1,
{
    if i < 0 || i >= m.elements.len() {
        None
    } else {
        match m.elements[i].prev {
            Some(q) => Some(q),
            None => match m.elements[i].parent {
                Some(p) => if p < i {
                    step_back(m, p as int)
                } else {
                    None
                },
                None => None,
            },
        }
    }
}

/// The comments in front of element `i`, nearest first. The walk back ends
/// at the first element that is neither a comment nor passed over, or at
/// the root, where nothing stands before; the comments met until then
/// count.
pub open spec fn comment_run(m: TreeModel, i: int) -> Seq<usize>
    decreases i + 1,
{
    match step_back(m, i) {
        None => Seq::empty(),
        Some(q) => if 0 <= q < i && q < m.elements.len() {
            let kind = m.elements[q as int].kind;
            if kind == NodeKind::Comment {
                seq![q] + comment_run(m, q as int)
            } else if is_passed(kind) {
                comment_run(m, q as int)
            } else {
                Seq::empty()
            }
        } else {
            Seq::empty()
        },
    }
}

/// The texts of the elements `run`, if each of them has one.
pub open spec fn texts_of(m: TreeModel, run: Seq<usize>) -> Option<Seq<Seq<char>>> {
    if forall|k: int| 0 <= k < run.len() ==> (#[trigger] m.text_of(run[k] as int)) is Some {
        Some(Seq::new(run.len(), |k: int| m.text_of(run[k] as int).unwrap()))
    } else {
        None
    }
}

/// The documentation of element `i`: what the comments in front of it hold,
/// if there are any and they hold anything.
pub open spec fn documentation(m: TreeModel, i: int) -> Option<Seq<char>> {
    match texts_of(m, comment_run(m, i)) {
        Some(texts) => if normalize(texts).len() > 0 {
            Some(normalize(texts))
        } else {
            None
        },
        None => None,
    }
}

/// The element just before element `i`, going up through its ancestors as
/// far as needed.
pub fn previous_element(tree: &SyntaxTree, i: usize) -> (r: Option<usize>)
    requires
        i < tree@.elements.len(),
    ensures
        r == step_back(tree@, i as int),
        r matches Some(q) ==> q < i,
{
    let mut current = i;
    loop
        invariant
            current <= i,
            current < tree@.elements.len(),
            step_back(tree@, i as int) == step_back(tree@, current as int),
        decreases current,
    {
        let e = tree.element(current);
        match e.prev {
            Some(q) => {
                return Some(q);
            },
            None => match e.parent {
                Some(p) => {
                    current = p;
                },
                None => {
                    return None;
                },
            },
        }
    }
}

/// The comment tokens in front of element `i`, nearest first.
pub fn preceding_comments(tree: &SyntaxTree, i: usize) -> (run: Vec<usize>)
    requires
        i < tree@.elements.len(),
    ensures
        run@ == comment_run(tree@, i as int),
        forall|k: int| 0 <= k < run.len() ==> (#[trigger] run[k]) < tree@.elements.len(),
{
    let mut run: Vec<usize> = Vec::new();
    let mut current = i;
    loop
        invariant
            current <= i,
            current < tree@.elements.len(),
            forall|k: int| 0 <= k < run.len() ==> (#[trigger] run[k]) < tree@.elements.len(),
            comment_run(tree@, i as int) == run@ + comment_run(tree@, current as int),
        decreases current,
    {
        match previous_element(tree, current) {
            None => {
                assert(run@ + Seq::<usize>::empty() == run@);
                return run;
            },
            Some(q) => {
                let kind = tree.element(q).kind;
                if kind == NodeKind::Comment {
                    proof {
                        let rest = comment_run(tree@, q as int);
                        assert(run@ + (seq![q] + rest) == run@.push(q) + rest);
                    }
                    run.push(q);
                } else if kind == NodeKind::Whitespace || kind == NodeKind::ErrorToken || kind
                    == NodeKind::Key || kind == NodeKind::Assign {
                } else {
                    assert(run@ + Seq::<usize>::empty() == run@);
                    return run;
                }
                current = q;
            },
        }
    }
}

/// The documentation of element `i`, taken from the comments in front of
/// it.
pub fn find_comment(tree: &SyntaxTree, i: usize) -> (r: Option<String>)
    requires
        i < tree@.elements.len(),
    ensures
        match r {
            Some(doc) => documentation(tree@, i as int) == Some(doc@),
            None => documentation(tree@, i as int) is None,
        },
{
    let run = preceding_comments(tree, i);
    let mut texts: Vec<&str> = Vec::new();
    let mut k: usize = 0;
    while k < run.len()
        invariant
            k <= run.len(),
            i < tree@.elements.len(),
            comment_run(tree@, i as int) == run@,
            forall|j: int| 0 <= j < run.len() ==> (#[trigger] run[j]) < tree@.elements.len(),
            texts.len() == k,
            forall|j: int|
                0 <= j < k ==> tree@.text_of(run[j] as int) == Some((#[trigger] texts[j])@),
        decreases run.len() - k,
    {
        match tree.text(run[k]) {
            Some(text) => {
                texts.push(text);
            },
            None => {
                assert(tree@.text_of(run@[k as int] as int) is None);
                assert(texts_of(tree@, run@) is None);
                return None;
            },
        }
        k += 1;
    }
    let doc = cleanup_comments(texts.as_slice());
    proof {
        assert forall|j: int| 0 <= j < run@.len() implies (#[trigger] tree@.text_of(
            run@[j] as int,
        )) is Some by {
            assert(tree@.text_of(run[j] as int) == Some(texts[j]@));
        }
        let wanted = texts_of(tree@, run@).unwrap();
        assert forall|j: int| 0 <= j < wanted.len() implies fragment_views(texts@)[j]
            == wanted[j] by {
            assert(tree@.text_of(run[j] as int) == Some(texts[j]@));
        }
        assert(fragment_views(texts@) == wanted);
    }
    if doc.as_str().is_empty() {
        None
    } else {
        Some(doc)
    }
}

} // verus!
