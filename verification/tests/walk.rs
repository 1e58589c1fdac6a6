use nix_doc::syntax::{NodeKind, SyntaxTree, WalkStep};

fn enter(kind: NodeKind, token: bool, start: usize, end: usize) -> WalkStep {
    WalkStep::Enter { kind, token, start, end }
}

#[test]
fn a_walk_is_read_into_a_tree() {
    let steps = vec![
        enter(NodeKind::Other, false, 0, 5),
        enter(NodeKind::Comment, true, 0, 2),
        WalkStep::Leave,
        enter(NodeKind::Lambda, false, 2, 5),
        enter(NodeKind::Ident, true, 2, 3),
        WalkStep::Leave,
        WalkStep::Leave,
        WalkStep::Leave,
    ];
    let tree = SyntaxTree::from_walk("# x:y", &steps).unwrap();
    assert_eq!(tree.len(), 4);
    let lambda = tree.element(2);
    assert_eq!((lambda.parent, lambda.prev, lambda.next), (Some(0), Some(1), None));
    assert_eq!(tree.element(1).next, Some(2));
    assert_eq!(tree.element(3).parent, Some(2));
    assert_eq!(tree.first_child(0), Some(1));
    assert_eq!(tree.first_child(1), None);
    assert_eq!(tree.child_nodes(0), vec![2]);
    assert_eq!(tree.text(2), Some("x:y"));
}

#[test]
fn steps_that_are_no_walk_give_no_tree() {
    let root = enter(NodeKind::Other, false, 0, 1);
    let token = enter(NodeKind::Other, true, 0, 1);
    assert!(SyntaxTree::from_walk("a", &vec![]).is_none());
    assert!(SyntaxTree::from_walk("a", &vec![root]).is_none());
    assert!(SyntaxTree::from_walk("a", &vec![WalkStep::Leave]).is_none());
    assert!(SyntaxTree::from_walk("a", &vec![root, WalkStep::Leave, WalkStep::Leave]).is_none());
    assert!(SyntaxTree::from_walk("a", &vec![root, WalkStep::Leave, root, WalkStep::Leave]).is_none());
    assert!(SyntaxTree::from_walk(
        "a",
        &vec![token, token, WalkStep::Leave, WalkStep::Leave]
    )
    .is_none());
    assert!(SyntaxTree::from_walk("a", &vec![enter(NodeKind::Other, false, 0, 2), WalkStep::Leave])
        .is_none());
    assert!(SyntaxTree::from_walk("a", &vec![enter(NodeKind::Other, false, 1, 0), WalkStep::Leave])
        .is_none());
    assert!(SyntaxTree::from_walk("a", &vec![root, WalkStep::Leave]).is_some());
}

#[test]
fn a_range_inside_a_character_has_no_text() {
    let steps = vec![
        enter(NodeKind::Other, false, 0, 2),
        enter(NodeKind::Other, true, 0, 1),
        WalkStep::Leave,
        WalkStep::Leave,
    ];
    let tree = SyntaxTree::from_walk("\u{e9}", &steps).unwrap();
    assert_eq!(tree.text(0), Some("\u{e9}"));
    assert_eq!(tree.text(1), None);
}

#[test]
fn a_child_stands_in_its_parent_and_behind_the_sibling_before_it() {
    let walk = |children: &[(usize, usize)]| {
        let mut steps = vec![enter(NodeKind::Other, false, 1, 5)];
        for &(start, end) in children {
            steps.push(enter(NodeKind::Other, true, start, end));
            steps.push(WalkStep::Leave);
        }
        steps.push(WalkStep::Leave);
        SyntaxTree::from_walk("abcdef", &steps)
    };
    assert!(walk(&[(1, 3), (3, 5)]).is_some());
    assert!(walk(&[(1, 3), (3, 4)]).is_some());
    assert!(walk(&[(1, 1), (1, 5)]).is_some());
    // The first child begins where its parent begins.
    assert!(walk(&[(0, 3)]).is_none());
    assert!(walk(&[(2, 3)]).is_none());
    // A later one begins where the one before it ends.
    assert!(walk(&[(1, 3), (4, 5)]).is_none());
    assert!(walk(&[(1, 3), (2, 5)]).is_none());
    // None reaches beyond its parent.
    assert!(walk(&[(1, 6)]).is_none());
    assert!(walk(&[(1, 3), (3, 6)]).is_none());
}
