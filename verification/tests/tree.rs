use nix_doc::locate::{find_comment, preceding_comments};
use nix_doc::parse::parse;
use nix_doc::syntax::NodeKind;

#[test]
fn finds_the_comment_of_a_function() {
    let source = "{\n  # adds one\n  addOne = x: x + 1;\n}\n";
    let tree = parse(source).unwrap();
    let mut found = Vec::new();
    for i in 0..tree.len() {
        if tree.element(i).kind == NodeKind::Lambda {
            found.push(find_comment(&tree, i));
        }
    }
    assert_eq!(found, vec![Some("adds one".to_string())]);
}

#[test]
fn comments_are_found_through_the_left_hand_side() {
    let source = "{\n  /* first */\n  # second\n  f = x: x;\n}\n";
    let tree = parse(source).unwrap();
    let lambda = (0..tree.len()).find(|&i| tree.element(i).kind == NodeKind::Lambda).unwrap();
    assert_eq!(find_comment(&tree, lambda), Some("first\nsecond".to_string()));
}

#[test]
fn a_comment_at_the_top_of_a_file_documents_what_follows() {
    let tree = parse("# doc\nx: x").unwrap();
    let lambda = (0..tree.len()).find(|&i| tree.element(i).kind == NodeKind::Lambda).unwrap();
    assert_eq!(find_comment(&tree, lambda), Some("doc".to_string()));
    assert_eq!(preceding_comments(&tree, lambda).len(), 1);
    assert_eq!(preceding_comments(&tree, 0), Vec::<usize>::new());
    let bare = parse("x: x").unwrap();
    assert_eq!(find_comment(&bare, 1), None);
}

#[test]
fn a_tree_covers_its_source() {
    let source = "{ a = 1; }";
    let tree = parse(source).unwrap();
    assert_eq!(tree.source(), source);
    assert_eq!(tree.source_bytes(), source.as_bytes());
    let root = tree.element(0);
    assert_eq!((root.start, root.end, root.parent, root.token), (0, source.len(), None, false));
    assert_eq!(tree.text(0), Some(source));
    for i in 1..tree.len() {
        let e = tree.element(i);
        let parent = e.parent.unwrap();
        assert!(parent < i);
        assert!(!tree.element(parent).token);
        assert!(e.start <= e.end && e.end <= source.len());
        match e.prev {
            Some(prev) => assert_eq!(tree.element(prev).next, Some(i)),
            None => assert_eq!(tree.first_child(parent), Some(i)),
        }
    }
    let set = tree.child_nodes(0);
    assert_eq!(set.len(), 1);
    assert_eq!(tree.element(set[0]).kind, NodeKind::AttrSet);
    let entries = tree.child_nodes(set[0]);
    assert_eq!(entries.len(), 1);
    assert_eq!(tree.element(entries[0]).kind, NodeKind::KeyValue);
    assert_eq!(tree.text(entries[0]), Some("a = 1;"));
}

#[test]
fn a_text_is_cut_at_the_borders_of_characters() {
    let source = "{ a = \"\u{e9}\u{4e16}\"; }";
    let tree = parse(source).unwrap();
    for i in 0..tree.len() {
        let e = tree.element(i);
        assert_eq!(tree.text(i), Some(&source[e.start..e.end]));
    }
}
