use vectree::tree_to_string;
use vectree::TreeError;
use vectree::VecTree;

fn build_tree() -> VecTree<String> {
    let mut tree = VecTree::new();
    let root = tree.add_root("root".to_string());
    let a = tree.add(Some(root), "a".to_string());
    let _ = tree.add(Some(root), "b".to_string());
    let c = tree.add(Some(root), "c".to_string());
    tree.add_iter(Some(a), vec!["a1".to_string(), "a2".to_string()]);
    tree.add_iter(Some(c), vec!["c1".to_string(), "c2".to_string()]);
    tree
}

#[test]
fn clear_fails_while_borrowed() {
    let mut tree = build_tree();
    let mut it = tree.iter_depth_mut();
    let proxy = it.next_full_mut(&mut tree).unwrap();
    assert_eq!(tree.borrow_count(), 1);
    assert_eq!(tree.clear(), Err(TreeError::MutationWhileBorrowed));
    assert_eq!(tree.len(), 8);
    proxy.release(&mut tree);
    assert_eq!(tree.borrow_count(), 0);
    assert_eq!(tree.clear(), Ok(()));
    assert_eq!(tree.len(), 0);
    assert_eq!(tree.get_root(), None);
}

#[test]
fn aliasing_violation_detected() {
    // retain the proxy for "a1" while asking "a" for its children: the
    // read is refused; releasing "a1" first makes the same call succeed
    let mut tree = build_tree();
    let mut it = tree.iter_depth_mut();
    let a1_write = it.next_full_mut(&mut tree).unwrap(); // taking   a1
    assert_eq!(a1_write.index, 4);
    let a2_write = it.next_full_mut(&mut tree).unwrap(); // skipping a2
    a2_write.release(&mut tree);
    let a_write = it.next_full_mut(&mut tree).unwrap(); // taking   a
    assert_eq!(a_write.index, 1);
    assert_eq!(tree.borrow_count(), 2);
    assert_eq!(
        a_write.iter_children(&tree).unwrap_err(),
        TreeError::AliasingViolation
    );
    a1_write.release(&mut tree);
    assert_eq!(tree.borrow_count(), 1);
    let kids = a_write.iter_children(&tree).unwrap();
    assert_eq!(kids.len(), 2);
    assert_eq!(kids[0].index, 4);
    assert_eq!(kids[1].index, 5);
    assert_eq!(kids[0].depth, a_write.depth + 1);
    a_write.release(&mut tree);
}

#[test]
fn aliasing_violation_payloads() {
    let mut tree = build_tree();
    let mut it = tree.iter_depth_mut();
    let c1_write = it.next_full_mut(&mut tree).unwrap();
    let c2_write = it.next_full_mut(&mut tree).unwrap();
    assert_eq!(
        c2_write.iter_children_simple(&tree).unwrap_err(),
        TreeError::AliasingViolation
    );
    c1_write.release(&mut tree);
    let payloads: Vec<&String> = c2_write.iter_children_simple(&tree).unwrap();
    assert!(payloads.is_empty());
    c2_write.release(&mut tree);
    assert_eq!(tree.borrow_count(), 0);
}

#[test]
fn guard_allows_single_writer() {
    // with exactly one write-capable proxy alive, children reads succeed
    let mut tree = build_tree();
    let mut it = tree.iter_depth_at_mut(3);
    while let Some(px) = it.next_full_mut(&mut tree) {
        let kids = px.iter_children(&tree).unwrap();
        assert_eq!(kids.len(), px.num_children(&tree));
        let payloads = px.iter_children_simple(&tree).unwrap();
        assert_eq!(payloads.len(), kids.len());
        px.release(&mut tree);
    }
    assert_eq!(tree.borrow_count(), 0);
    assert_eq!(tree_to_string(&tree), "root(a(a1,a2),b,c(c1,c2))");
}

#[test]
fn children_accessors_agree() {
    let mut tree = build_tree();
    assert_eq!(tree.children(0), &[1, 2, 3]);
    assert_eq!(tree.children(1), &[4, 5]);
    assert_eq!(tree.children(4), &[] as &[usize]);
    let refs = tree.iter_children(0);
    assert_eq!(refs.len(), 3);
    assert_eq!(refs[0].children(), &[4, 5]);
    assert!(!refs[1].has_children());
    tree.children_mut(2).push(4);
    assert_eq!(tree.children(2), &[4]);
    *tree.get_mut(2) = "b'".to_string();
    assert_eq!(tree.get(2), "b'");
}

#[test]
fn shared_child_visited_per_attachment() {
    // attaching one slot under two positions makes the traversal hand it
    // out once per attachment: the arena is a DAG, not a strict tree
    let mut tree = VecTree::new();
    let a = tree.add(None, "a".to_string());
    let root = tree.addci_iter(None, "r".to_string(), &[a, a]);
    tree.set_root(root);
    let mut visits = Vec::new();
    let mut it = tree.iter_depth_simple();
    while let Some(p) = it.next_simple(&tree) {
        visits.push((p.index, p.depth));
    }
    assert_eq!(visits, vec![(0, 1), (0, 1), (1, 0)]);
    assert_eq!(tree_to_string(&tree), "r(a,a)");
}
