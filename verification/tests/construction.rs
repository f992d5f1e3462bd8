use vectree::tree_to_string;
use vectree::tree_to_string_index;
use vectree::VecTree;

fn build_tree() -> VecTree<String> {
    let mut tree = VecTree::new();
    let root = tree.add_root("root".to_string());
    let a = tree.add(Some(root), "a".to_string());
    let _ = tree.add(Some(root), "b".to_string());
    let c = tree.add(Some(root), "c".to_string());
    tree.add_iter(Some(a), vec!["a1".to_string(), "a2".to_string()]);
    tree.add_iter(Some(c), vec!["c1".to_string(), "c2".to_string()]);
    tree
}

#[test]
fn test_build_tree() {
    let tree = build_tree();
    assert_eq!(tree.get_root(), Some(0));
    assert_eq!(tree_to_string(&tree), "root(a(a1,a2),b,c(c1,c2))");
}

#[test]
fn tree_build_methods() {
    let mut tree = VecTree::new();
    assert_eq!(tree.is_empty(), true);
    assert_eq!(tree.len(), 0);
    assert_eq!(tree.depth(), None);
    let a = tree.add(None, "a".to_string());
    assert_eq!(tree.is_empty(), false);
    let root = tree.addci(None, "root".to_string(), a);
    let b = tree.add(None, "b".to_string());
    tree.attach_children(root, &[b]);
    tree.addc(Some(root), "c".to_string(), "c1".to_string());
    tree.addc_iter(
        Some(b),
        "b1".to_string(),
        vec!["b11".to_string(), "b12".to_string()],
    );
    tree.set_root(root);
    assert_eq!(tree_to_string(&tree), "root(a,b(b1(b11,b12)),c(c1))");
    assert_eq!(tree.len(), 8);
    assert_eq!(tree.depth(), Some(3));
    let b2 = tree.add(None, "b2".to_string());
    tree.attach_child(b, b2);
    assert_eq!(tree_to_string(&tree), "root(a,b(b1(b11,b12),b2),c(c1))");
}

#[test]
fn tree_build_methods2() {
    let mut tree = build_tree();
    let mut it = tree.iter_depth_mut();
    while let Some(leaf) = it.next_full_mut(&mut tree) {
        assert_eq!(tree.borrow_count(), 1);
        let old = tree.get(leaf.index).clone();
        *tree.get_mut(leaf.index) = format!("_{}_", old);
        leaf.release(&mut tree);
    }
    assert_eq!(tree.nodes[0].has_children(), true);
    assert_eq!(tree.nodes[0].children(), &[1, 2, 3]);
    tree.get_mut(0).make_ascii_uppercase();
    assert_eq!(tree_to_string(&tree), "_ROOT_(_a_(_a1_,_a2_),_b_,_c_(_c1_,_c2_))");
    assert!(tree.clear().is_ok());
    assert_eq!(tree.len(), 0);
    assert_eq!(tree.borrow_count(), 0);
}

#[test]
fn tests_clone() {
    let tree = build_tree();
    let other_tree = tree.clone();
    drop(tree);
    assert_eq!(tree_to_string(&other_tree), "root(a(a1,a2),b,c(c1,c2))");
}

fn sample_nodes() -> Vec<(String, Vec<usize>)> {
    vec![
        ("a".to_string(), vec![3, 4]),
        ("root".to_string(), vec![0, 2]),
        ("b".to_string(), vec![5, 6, 7]),
        ("a1".to_string(), vec![]),
        ("a2".to_string(), vec![8]),
        ("b1".to_string(), vec![]),
        ("b2".to_string(), vec![]),
        ("b3".to_string(), vec![]),
        ("a21".to_string(), vec![9, 10]),
        ("a211".to_string(), vec![]),
        ("a212".to_string(), vec![]),
    ]
}

#[test]
fn from() {
    let tree = VecTree::from_nodes(Some(1), sample_nodes());
    assert_eq!(tree_to_string(&tree), "root(a(a1,a2(a21(a211,a212))),b(b1,b2,b3))");

    let tree = VecTree::from_nodes(Some(1), sample_nodes());
    assert_eq!(tree_to_string(&tree), "root(a(a1,a2(a21(a211,a212))),b(b1,b2,b3))");

    let tree = VecTree::from_nodes(
        Some(0),
        vec![
            ("root".to_string(), vec![1, 2]),
            ("a".to_string(), vec![3, 4]),
            ("b".to_string(), vec![]),
            ("a.1".to_string(), vec![]),
            ("a.2".to_string(), vec![]),
        ],
    );
    let mut pieces: Vec<String> = Vec::new();
    let mut it = tree.iter_depth_simple();
    while let Some(n) = it.next_simple(&tree) {
        pieces.push(format!("{}:{}", n.depth, tree.get(n.index)));
    }
    assert_eq!(pieces.join(","), "2:a.1,2:a.2,1:a,1:b,0:root");
}

#[test]
fn from_array() {
    let data: Vec<(Option<usize>, Vec<(String, Vec<usize>)>)> = vec![
        (
            Some(0),
            vec![
                ("root".to_string(), vec![1, 2]),
                ("a".to_string(), vec![3, 4]),
                ("b".to_string(), vec![]),
                ("a1".to_string(), vec![]),
                ("a2".to_string(), vec![]),
            ],
        ),
        (Some(1), sample_nodes()),
    ];
    let result: Vec<String> = data
        .into_iter()
        .map(|(root, nodes)| tree_to_string(&VecTree::from_nodes(root, nodes)))
        .collect();
    assert_eq!(
        result,
        vec!["root(a(a1,a2),b)", "root(a(a1,a2(a21(a211,a212))),b(b1,b2,b3))"]
    );
}

#[test]
fn test_build_tree2() {
    let mut tree = VecTree::new();
    let a = tree.add(None, "a".to_string());
    let b = tree.add(None, "b".to_string());
    let c = tree.add(None, "c".to_string());
    let root = tree.addci_iter(None, "root".to_string(), &[a, b, c]);
    tree.add_iter(Some(a), vec!["a1".to_string(), "a2".to_string()]);
    tree.add_iter(Some(c), vec!["c1".to_string(), "c2".to_string()]);
    tree.set_root(root);
    assert_eq!(tree_to_string(&tree), "root(a(a1,a2),b,c(c1,c2))");
}

#[test]
fn empty_tree_behavior() {
    let mut tree: VecTree<String> = VecTree::with_capacity(4);
    assert!(tree.is_empty());
    assert_eq!(tree.get_root(), None);
    assert_eq!(tree.depth(), None);
    assert_eq!(tree_to_string(&tree), "None");
    let mut it = tree.iter_depth_simple();
    assert!(it.next_simple(&tree).is_none());
    assert!(tree.clear().is_ok());
    assert_eq!(tree.len(), 0);
}

#[test]
fn index_rendering() {
    let mut tree = VecTree::new();
    let root = tree.add_root("r".to_string());
    for k in 0..11 {
        tree.add(Some(root), format!("n{}", k));
    }
    let rendered = tree_to_string_index(&tree);
    assert_eq!(
        rendered,
        "0:r(1:n0,2:n1,3:n2,4:n3,5:n4,6:n5,7:n6,8:n7,9:n8,10:n9,11:n10)"
    );
}

#[test]
fn deep_chain_depth() {
    let mut tree = VecTree::new();
    let mut cur = tree.add_root("0".to_string());
    for k in 1..40 {
        cur = tree.add(Some(cur), format!("{}", k));
    }
    assert_eq!(tree.depth(), Some(39));
    assert_eq!(tree.len(), 40);
}
