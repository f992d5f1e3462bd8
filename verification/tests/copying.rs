use vectree::tree_to_string;
use vectree::VecTree;

fn build_tree() -> VecTree<String> {
    let mut tree = VecTree::new();
    let root = tree.add_root("root".to_string());
    let a = tree.add(Some(root), "a".to_string());
    let _ = tree.add(Some(root), "b".to_string());
    let c = tree.add(Some(root), "c".to_string());
    tree.add_iter(Some(a), vec!["a1".to_string(), "a2".to_string()]);
    tree.add_iter(Some(c), vec!["c1".to_string(), "c2".to_string()]);
    tree
}

#[test]
fn add_from_tree_iter() {
    let mut tree = build_tree();
    let other = tree.clone();
    let other_root = other.get_root().unwrap();
    tree.add_from_tree_iter(Some(6), &other, other_root);
    assert_eq!(
        tree_to_string(&tree),
        "root(a(a1,a2),b,c(c1(root(a(a1,a2),b,c(c1,c2))),c2))"
    );
    tree.add_from_tree_iter(Some(4), &other, 3);
    assert_eq!(
        tree_to_string(&tree),
        "root(a(a1(c(c1,c2)),a2),b,c(c1(root(a(a1,a2),b,c(c1,c2))),c2))"
    );
}

#[test]
fn add_from_tree() {
    let mut tree = build_tree();
    let other = tree.clone();
    tree.add_from_tree(Some(6), &other, None);
    assert_eq!(
        tree_to_string(&tree),
        "root(a(a1,a2),b,c(c1(root(a(a1,a2),b,c(c1,c2))),c2))"
    );
    tree.add_from_tree(Some(4), &other, Some(3));
    assert_eq!(
        tree_to_string(&tree),
        "root(a(a1(c(c1,c2)),a2),b,c(c1(root(a(a1,a2),b,c(c1,c2))),c2))"
    );
}

#[test]
fn add_from_tree_iter_callback() {
    let mut tree = build_tree();
    let other = tree.clone();
    let mut result_trace = vec![];
    let expected_trace = vec![
        (8, 4, "a1".to_string()),
        (9, 5, "a2".to_string()),
        (10, 1, "a".to_string()),
        (11, 2, "b".to_string()),
        (12, 6, "c1".to_string()),
        (13, 7, "c2".to_string()),
        (14, 3, "c".to_string()),
        (15, 0, "root".to_string()),
    ];
    let other_root = other.get_root().unwrap();
    tree.add_from_tree_iter_callback(Some(6), &other, other_root, &mut result_trace);
    assert_eq!(
        tree_to_string(&tree),
        "root(a(a1,a2),b,c(c1(root(a(a1,a2),b,c(c1,c2))),c2))"
    );
    assert_eq!(result_trace, expected_trace);
    let mut result_trace = vec![];
    let expected_trace = vec![
        (16, 6, "c1".to_string()),
        (17, 7, "c2".to_string()),
        (18, 3, "c".to_string()),
    ];
    tree.add_from_tree_iter_callback(Some(4), &other, 3, &mut result_trace);
    assert_eq!(
        tree_to_string(&tree),
        "root(a(a1(c(c1,c2)),a2),b,c(c1(root(a(a1,a2),b,c(c1,c2))),c2))"
    );
    assert_eq!(result_trace, expected_trace);
}

#[test]
fn add_from_tree_callback() {
    let mut tree = build_tree();
    let other = tree.clone();
    let mut result_trace = vec![];
    let expected_trace = vec![
        (8, 4, "a1".to_string()),
        (9, 5, "a2".to_string()),
        (10, 1, "a".to_string()),
        (11, 2, "b".to_string()),
        (12, 6, "c1".to_string()),
        (13, 7, "c2".to_string()),
        (14, 3, "c".to_string()),
        (15, 0, "root".to_string()),
    ];
    tree.add_from_tree_callback(Some(6), &other, None, &mut result_trace);
    assert_eq!(
        tree_to_string(&tree),
        "root(a(a1,a2),b,c(c1(root(a(a1,a2),b,c(c1,c2))),c2))"
    );
    assert_eq!(result_trace, expected_trace);
    let mut result_trace = vec![];
    let expected_trace = vec![
        (16, 6, "c1".to_string()),
        (17, 7, "c2".to_string()),
        (18, 3, "c".to_string()),
    ];
    tree.add_from_tree_callback(Some(4), &other, Some(3), &mut result_trace);
    assert_eq!(
        tree_to_string(&tree),
        "root(a(a1(c(c1,c2)),a2),b,c(c1(root(a(a1,a2),b,c(c1,c2))),c2))"
    );
    assert_eq!(result_trace, expected_trace);
}

#[test]
fn copy_shape_matches() {
    // rendering the source subtree and the copied subtree produces the
    // same structural string
    let mut dest: VecTree<String> = VecTree::new();
    let source = build_tree();
    let top = source.get_root().unwrap();
    let new_root = dest.add_from_tree(None, &source, Some(top));
    dest.set_root(new_root);
    assert_eq!(tree_to_string(&dest), tree_to_string(&source));

    let mut partial: VecTree<String> = VecTree::new();
    let sub_root = partial.add_from_tree(None, &source, Some(1));
    partial.set_root(sub_root);
    assert_eq!(tree_to_string(&partial), "a(a1,a2)");
}

#[test]
fn copy_into_smaller_tree() {
    let mut dest: VecTree<String> = VecTree::new();
    let anchor = dest.add_root("anchor".to_string());
    let source = build_tree();
    let new_root = dest.add_from_tree(Some(anchor), &source, Some(3));
    assert_eq!(new_root, 3);
    assert_eq!(dest.len(), 4);
    assert_eq!(tree_to_string(&dest), "anchor(c(c1,c2))");
}
