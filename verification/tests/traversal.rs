use vectree::tree_to_string;
use vectree::VecTree;

fn build_tree() -> VecTree<String> {
    let mut tree = VecTree::new();
    let root = tree.add_root("root".to_string());
    let a = tree.add(Some(root), "a".to_string());
    let _ = tree.add(Some(root), "b".to_string());
    let c = tree.add(Some(root), "c".to_string());
    tree.add_iter(Some(a), vec!["a1".to_string(), "a2".to_string()]);
    tree.add_iter(Some(c), vec!["c1".to_string(), "c2".to_string()]);
    tree
}

fn build_tree2() -> VecTree<String> {
    let mut tree = VecTree::new();
    let a = tree.add(None, "a".to_string());
    let b = tree.add(None, "b".to_string());
    let c = tree.add(None, "c".to_string());
    let root = tree.addci_iter(None, "root".to_string(), &[a, b, c]);
    tree.add_iter(Some(a), vec!["a1".to_string(), "a2".to_string()]);
    tree.add_iter(Some(c), vec!["c1".to_string(), "c2".to_string()]);
    tree.set_root(root);
    tree
}

#[test]
fn iter_depth_simple() {
    let tree = build_tree();
    let mut result = String::new();
    let mut result_index = vec![];
    let mut result_depth = vec![];
    let mut result_num_children = vec![];
    let mut it = tree.iter_depth_simple();
    while let Some(inode) = it.next_simple(&tree) {
        result.push_str(&tree.get(inode.index).to_uppercase());
        result.push(',');
        result_index.push(inode.index);
        result_depth.push(inode.depth);
        result_num_children.push(inode.num_children());
    }
    assert_eq!(result, "A1,A2,A,B,C1,C2,C,ROOT,");
    assert_eq!(result_index, [4, 5, 1, 2, 6, 7, 3, 0]);
    assert_eq!(result_depth, [2, 2, 1, 1, 2, 2, 1, 0]);
    assert_eq!(result_num_children, [0, 0, 2, 0, 0, 0, 2, 3]);
}

#[test]
fn iter_depth_simple_at() {
    let tree = build_tree();
    let mut result = String::new();
    let mut result_index = vec![];
    let mut it = tree.iter_depth_simple_at(3);
    while let Some(inode) = it.next_simple(&tree) {
        result.push_str(tree.get(inode.index));
        result.push(',');
        result_index.push(inode.index);
    }
    assert_eq!(result, "c1,c2,c,");
    assert_eq!(result_index, [6, 7, 3]);
}

#[test]
fn iter_depth() {
    let tree = build_tree();
    let mut result = String::new();
    let mut result_index = vec![];
    let mut result_num_children = vec![];
    let mut result_size_subtree = vec![];
    let mut it = tree.iter_depth();
    while let Some(inode) = it.next_full(&tree) {
        let name = tree.get(inode.index).clone();
        let main_lineage = name.to_lowercase().starts_with('c')
            || inode
                .iter_children(&tree)
                .iter()
                .any(|n| tree.get(n.index).to_lowercase().starts_with('c'));
        let main_lineage_simple = name.to_lowercase().starts_with('c')
            || inode
                .iter_children_simple(&tree)
                .iter()
                .any(|n| n.to_lowercase().starts_with('c'));
        assert_eq!(main_lineage, main_lineage_simple);
        if main_lineage {
            result.push_str(&name.to_uppercase());
        } else {
            result.push_str(&name);
        }
        result.push(',');
        result_index.push(inode.index);
        result_num_children.push(inode.num_children(&tree));
        let mut n = 0;
        let mut sub = inode.iter_depth_simple(&tree);
        while sub.next_simple(&tree).is_some() {
            n += 1;
        }
        result_size_subtree.push(n);
    }
    assert_eq!(result, "a1,a2,a,b,C1,C2,C,ROOT,");
    assert_eq!(result_index, [4, 5, 1, 2, 6, 7, 3, 0]);
    assert_eq!(result_num_children, [0, 0, 2, 0, 0, 0, 2, 3]);
    assert_eq!(result_size_subtree, [1, 1, 3, 1, 1, 1, 3, 8]);
}

#[test]
fn iter_depth_at() {
    let tree = build_tree();
    let mut result = String::new();
    let mut result_index = vec![];
    let mut it = tree.iter_depth_at(3);
    while let Some(inode) = it.next_full(&tree) {
        result.push_str(tree.get(inode.index));
        result.push(',');
        result_index.push(inode.index);
    }
    assert_eq!(result, "c1,c2,c,");
    assert_eq!(result_index, [6, 7, 3]);
}

#[test]
fn iter_depth_children() {
    let tree = build_tree();
    let mut result = String::new();
    let mut it = tree.iter_depth();
    while let Some(inode) = it.next_full(&tree) {
        // condition: any child j begins with 'c' and has all j's children k begin with 'c'
        let sub_is_c = inode.iter_children(&tree).iter().any(|j| {
            tree.get(j.index).to_lowercase().starts_with('c')
                && j.iter_children(&tree)
                    .iter()
                    .all(|k| tree.get(k.index).to_lowercase().starts_with('c'))
        });
        if sub_is_c {
            result.push_str(&tree.get(inode.index).to_uppercase());
        } else {
            result.push_str(tree.get(inode.index));
        }
        result.push(',');
    }
    assert_eq!(result, "a1,a2,a,b,c1,c2,C,ROOT,");
}

#[test]
fn iter_depth_simple_mut() {
    let mut tree = build_tree();
    let mut result_index = vec![];
    let mut it = tree.iter_depth_simple_mut();
    while let Some(inode) = it.next_simple_mut(&tree) {
        let upper = tree.get(inode.index).to_uppercase();
        *tree.get_mut(inode.index) = upper;
        result_index.push(inode.index);
    }
    let result = tree_to_string(&tree);
    assert_eq!(result, "ROOT(A(A1,A2),B,C(C1,C2))");
    assert_eq!(result_index, [4, 5, 1, 2, 6, 7, 3, 0]);
}

#[test]
fn iter_depth_simple_mut_at() {
    let mut tree = build_tree();
    let mut result = String::new();
    let mut result_index = vec![];
    let mut it = tree.iter_depth_simple_at_mut(3);
    while let Some(inode) = it.next_simple_mut(&tree) {
        let upper = tree.get(inode.index).to_uppercase();
        *tree.get_mut(inode.index) = upper;
        result.push_str(tree.get(inode.index));
        result.push(',');
        result_index.push(inode.index);
    }
    assert_eq!(result, "C1,C2,C,");
    assert_eq!(result_index, [6, 7, 3]);
}

#[test]
fn iter_depth_mut() {
    let mut tree = build_tree();
    let mut result_index = vec![];
    let mut result_num_children = vec![];
    let mut result_size_subtree = vec![];
    let mut it = tree.iter_depth_mut();
    while let Some(inode) = it.next_full_mut(&mut tree) {
        let name = tree.get(inode.index).clone();
        let main_lineage = name.to_lowercase().starts_with('c')
            || inode
                .iter_children(&tree)
                .unwrap()
                .iter()
                .any(|n| tree.get(n.index).to_lowercase().starts_with('c'));
        let main_lineage_simple = name.to_lowercase().starts_with('c')
            || inode
                .iter_children_simple(&tree)
                .unwrap()
                .iter()
                .any(|n| n.to_lowercase().starts_with('c'));
        assert_eq!(main_lineage, main_lineage_simple);
        if main_lineage {
            *tree.get_mut(inode.index) = name.to_uppercase();
        }
        result_index.push(inode.index);
        result_num_children.push(inode.num_children(&tree));
        let mut n = 0;
        let mut sub = inode.iter_depth_simple(&tree);
        while sub.next_simple(&tree).is_some() {
            n += 1;
        }
        result_size_subtree.push(n);
        inode.release(&mut tree);
    }
    let result = tree_to_string(&tree);
    assert_eq!(result, "ROOT(a(a1,a2),b,C(C1,C2))");
    assert_eq!(result_index, [4, 5, 1, 2, 6, 7, 3, 0]);
    assert_eq!(result_num_children, [0, 0, 2, 0, 0, 0, 2, 3]);
    assert_eq!(result_size_subtree, [1, 1, 3, 1, 1, 1, 3, 8]);
}

#[test]
fn iter_depth_mut_at() {
    let mut tree = build_tree();
    let mut result = String::new();
    let mut result_index = vec![];
    let mut it = tree.iter_depth_at_mut(3);
    while let Some(inode) = it.next_full_mut(&mut tree) {
        let upper = tree.get(inode.index).to_uppercase();
        *tree.get_mut(inode.index) = upper;
        result.push_str(tree.get(inode.index));
        result.push(',');
        result_index.push(inode.index);
        inode.release(&mut tree);
    }
    assert_eq!(result, "C1,C2,C,");
    assert_eq!(result_index, [6, 7, 3]);
}

#[test]
fn iter_depth_mut_children() {
    let mut tree = build_tree();
    let mut it = tree.iter_depth_mut();
    while let Some(inode) = it.next_full_mut(&mut tree) {
        // condition: any child j begins with 'c' and has all j's children k (if any) begin with 'c'
        let sub_is_c = inode.iter_children(&tree).unwrap().iter().any(|j| {
            tree.get(j.index).to_lowercase().starts_with('c')
                && j.iter_children(&tree)
                    .iter()
                    .all(|k| tree.get(k.index).to_lowercase().starts_with('c'))
        });
        if sub_is_c {
            let upper = tree.get(inode.index).to_uppercase();
            *tree.get_mut(inode.index) = upper;
        }
        inode.release(&mut tree);
    }
    let result = tree_to_string(&tree);
    assert_eq!(result, "ROOT(a(a1,a2),b,C(c1,c2))");
}

#[test]
fn iter_depth_mut_children_simple_miri() {
    let mut tree = build_tree();
    let mut inodes = Vec::new();
    let mut it = tree.iter_depth_simple_mut();
    while let Some(inode) = it.next_simple_mut(&tree) {
        inodes.push(inode);
    }
    for inode in inodes {
        let upper = tree.get(inode.index).to_uppercase();
        *tree.get_mut(inode.index) = upper;
    }
    let result = tree_to_string(&tree);
    assert_eq!(result, "ROOT(A(A1,A2),B,C(C1,C2))");
}

#[test]
fn iter_depth_mut_children_miri() {
    let mut tree = build_tree();
    let mut inodes = Vec::new();
    let mut it = tree.iter_depth_mut();
    while let Some(inode) = it.next_full_mut(&mut tree) {
        inodes.push(inode);
    }
    for inode in inodes {
        let upper = tree.get(inode.index).to_uppercase();
        *tree.get_mut(inode.index) = upper;
        inode.release(&mut tree);
    }
    let result = tree_to_string(&tree);
    assert_eq!(result, "ROOT(A(A1,A2),B,C(C1,C2))");
}

#[test]
fn test_iterators() {
    let mut tree = build_tree2();
    let mut result = String::new();
    let mut it = tree.iter_depth_simple();
    while let Some(i) = it.next_simple(&tree) {
        result.push_str(&format!("{}:{}", i.index, tree.get(i.index)));
        result.push(',');
    }
    assert_eq!(result, "4:a1,5:a2,0:a,1:b,6:c1,7:c2,2:c,3:root,");
    result.clear();
    let mut it = tree.iter_depth();
    while let Some(i) = it.next_full(&tree) {
        result.push_str(&format!("{}:{}", i.index, tree.get(i.index)));
        if i.num_children(&tree) > 0 {
            result.push('(');
            for j in i.iter_children_simple(&tree) {
                result.push_str(j);
                result.push(',');
            }
            result.push(')');
        }
        result.push(',');
    }
    assert_eq!(result, "4:a1,5:a2,0:a(a1,a2,),1:b,6:c1,7:c2,2:c(c1,c2,),3:root(a,b,c,),");
    let mut it = tree.iter_depth_simple_mut();
    while let Some(i) = it.next_simple_mut(&tree) {
        if tree.get(i.index).starts_with("a") {
            let upper = tree.get(i.index).to_uppercase();
            *tree.get_mut(i.index) = upper;
        }
    }
    assert_eq!(tree_to_string(&tree), "root(A(A1,A2),b,c(c1,c2))");
    let mut it = tree.iter_depth_mut();
    while let Some(i) = it.next_full_mut(&mut tree) {
        if i.index != 3 && i.num_children(&tree) > 0 {
            *tree.get_mut(i.index) = "-".to_string();
        }
        i.release(&mut tree);
    }
    assert_eq!(tree_to_string(&tree), "root(-(A1,A2),b,-(c1,c2))");
}

#[test]
fn clone() {
    let tree = build_tree();
    let other_tree = tree.clone();
    drop(tree);
    assert_eq!(tree_to_string(&other_tree), "root(a(a1,a2),b,c(c1,c2))");
}

#[test]
fn retraverse_same_sequence() {
    let tree = build_tree2();
    let mut first: Vec<(usize, usize)> = Vec::new();
    let mut it = tree.iter_depth_simple();
    while let Some(p) = it.next_simple(&tree) {
        first.push((p.index, p.depth));
    }
    let mut second: Vec<(usize, usize)> = Vec::new();
    let mut it = tree.iter_depth_simple();
    while let Some(p) = it.next_simple(&tree) {
        second.push((p.index, p.depth));
    }
    assert_eq!(first, second);
    let mut third: Vec<(usize, usize)> = Vec::new();
    let mut it = tree.iter_depth_at(3);
    while let Some(p) = it.next_full(&tree) {
        third.push((p.index, p.depth));
    }
    let mut fourth: Vec<(usize, usize)> = Vec::new();
    let mut it = tree.iter_depth_at(3);
    while let Some(p) = it.next_full(&tree) {
        fourth.push((p.index, p.depth));
    }
    assert_eq!(third, fourth);
}

#[test]
fn single_node_traversal() {
    let mut tree = VecTree::new();
    tree.add_root("only".to_string());
    let mut it = tree.iter_depth_simple();
    let first = it.next_simple(&tree).unwrap();
    assert_eq!(first.index, 0);
    assert_eq!(first.depth, 0);
    assert_eq!(first.num_children(), 0);
    assert!(it.next_simple(&tree).is_none());
    assert!(it.next_simple(&tree).is_none());
}

#[test]
fn subtree_size_sums() {
    // summing the children's subtree sizes accounts for every descendant:
    // a node's subtree is one larger than its children's put together
    let tree = build_tree();
    let mut it = tree.iter_depth();
    while let Some(p) = it.next_full(&tree) {
        let mut own = 0;
        let mut sub = p.iter_depth_simple(&tree);
        while sub.next_simple(&tree).is_some() {
            own += 1;
        }
        let mut kids_total = 0;
        for child in p.iter_children(&tree) {
            let mut csub = child.iter_depth_simple(&tree);
            while csub.next_simple(&tree).is_some() {
                kids_total += 1;
            }
        }
        assert_eq!(own, kids_total + 1);
        assert_eq!(p.num_children(&tree), tree.children(p.index).len());
    }
}
