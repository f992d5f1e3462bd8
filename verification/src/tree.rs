//! The arena: node storage, append-only construction, validated access.

use crate::model::traversable_of;
use vstd::prelude::*;

verus! {

/// A vector-based tree collection type. Each node is of type [`Node<T>`].
pub struct VecTree<T> {
    pub nodes: Vec<Node<T>>,
    pub borrows: u32,
    pub root: Option<usize>,
}

/// A node of a [`VecTree<T>`] collection. It holds a payload of type `T`
/// and a list of indices to its children in the tree collection.
pub struct Node<T> {
    pub data: T,
    pub children: Vec<usize>,
}

/// Model of a node: its payload and its ordered child indices.
#[verifier::ext_equal]
pub struct NodeModel<T> {
    pub data: T,
    pub children: Seq<usize>,
}

/// Model of an arena: the node sequence, the optional root index and the
/// count of live write-capable proxies.
#[verifier::ext_equal]
pub struct TreeModel<T> {
    pub nodes: Seq<NodeModel<T>>,
    pub root: Option<usize>,
    pub borrows: u32,
}

impl<T> View for Node<T> {
    type V = NodeModel<T>;

    open spec fn view(&self) -> NodeModel<T> {
        NodeModel { data: self.data, children: self.children@ }
    }
}

impl<T> View for VecTree<T> {
    type V = TreeModel<T>;

    open spec fn view(&self) -> TreeModel<T> {
        TreeModel {
            nodes: self.nodes@.map_values(|n: Node<T>| n@),
            root: self.root,
            borrows: self.borrows,
        }
    }
}

impl<T> NodeModel<T> {
    /// A childless node holding `data`.
    pub open spec fn leaf(data: T) -> NodeModel<T> {
        NodeModel { data, children: Seq::empty() }
    }
}

impl<T> TreeModel<T> {
    /// The children-structure of the arena, which is all a traversal
    /// depends on.
    pub open spec fn structure(self) -> Seq<Seq<usize>> {
        self.nodes.map_values(|n: NodeModel<T>| n.children)
    }

    /// Number of slots in the arena.
    pub open spec fn len(self) -> nat {
        self.nodes.len()
    }

    /// The arena with `c` appended to the child list of slot `p`.
    pub open spec fn attach(self, p: int, c: usize) -> TreeModel<T> {
        TreeModel {
            nodes: self.nodes.update(
                p,
                NodeModel { data: self.nodes[p].data, children: self.nodes[p].children.push(c) },
            ),
            ..self
        }
    }

    /// The arena with each index of `cs` appended, in order, to the child
    /// list of slot `p`.
    pub open spec fn attach_all(self, p: int, cs: Seq<usize>) -> TreeModel<T>
        decreases cs.len(),
    {
        if cs.len() == 0 {
            self
        } else {
            self.attach_all(p, cs.drop_last()).attach(p, cs.last())
        }
    }

    /// The arena with a new childless node holding `data` appended, as
    /// the last child of `p` if a parent is given.
    pub open spec fn grown(self, parent: Option<usize>, data: T) -> TreeModel<T> {
        let base = match parent {
            Some(p) => self.attach(p as int, self.nodes.len() as usize),
            None => self,
        };
        TreeModel { nodes: base.nodes.push(NodeModel::leaf(data)), ..base }
    }

    /// The arena with one new childless node per item of `items`, each a
    /// child of `parent` if a parent is given, in order.
    pub open spec fn grown_all(self, parent: Option<usize>, items: Seq<T>) -> TreeModel<T>
        decreases items.len(),
    {
        if items.len() == 0 {
            self
        } else {
            self.grown_all(parent, items.drop_last()).grown(parent, items.last())
        }
    }

    /// The region reachable from the root is acyclic, so root-based
    /// traversals are defined; holds trivially when no root is set.
    pub open spec fn rooted_traversable(self) -> bool {
        traversable_of(self.structure(), self.root)
    }
}

impl<T> VecTree<T> {
    /// Creates a new and empty tree, with no pre-allocated buffer.
    ///
    /// If the number of items is known in advance, prefer the
    /// [`VecTree::with_capacity()`] method.
    pub fn new() -> (tree: Self)
        ensures
            tree@.nodes == Seq::<NodeModel<T>>::empty(),
            tree@.root is None,
            tree@.borrows == 0,
    {
        let tree = VecTree { nodes: Vec::new(), borrows: 0, root: None };
        proof {
            assert(tree@.nodes =~= Seq::<NodeModel<T>>::empty());
        }
        tree
    }

    /// Creates a new and empty tree with a pre-allocated buffer of the
    /// specified initial capacity. `capacity` is not a hard limit; it is
    /// still possible to add more items than were pre-allocated.
    pub fn with_capacity(capacity: usize) -> (tree: Self)
        ensures
            tree@.nodes == Seq::<NodeModel<T>>::empty(),
            tree@.root is None,
            tree@.borrows == 0,
    {
        let tree = VecTree { nodes: Vec::with_capacity(capacity), borrows: 0, root: None };
        proof {
            assert(tree@.nodes =~= Seq::<NodeModel<T>>::empty());
        }
        tree
    }

    /// Returns the index of the tree root item, if it exists.
    pub fn get_root(&self) -> (r: Option<usize>)
        ensures
            r == self@.root,
    {
        self.root
    }

    /// Sets the root of the tree by specifying its index, which must name
    /// an existing item. The method returns `index` for convenience.
    ///
    /// Redefining the root does not invalidate or relocate any slot;
    /// items that are not below the new root merely become unreachable by
    /// root-based traversals while remaining addressable by index.
    pub fn set_root(&mut self, index: usize) -> (r: usize)
        requires
            index < old(self)@.len(),
        ensures
            final(self)@ == (TreeModel { root: Some(index), ..old(self)@ }),
            r == index,
    {
        self.root = Some(index);
        index
    }

    /// Adds an item and defines it as root of the tree. The method
    /// returns the index of the item.
    pub fn add_root(&mut self, item: T) -> (r: usize)
        ensures
            r == old(self)@.len(),
            final(self)@ == (TreeModel { root: Some(r), ..old(self)@.grown(None, item) }),
    {
        let index = self.add(None, item);
        self.root = Some(index);
        index
    }

    /// Adds an item to the tree and returns its index.
    ///
    /// If `parent_index` is provided (not `None`), it must name an
    /// existing item, and the new item is added to that parent's list of
    /// children. If `parent_index` is `None`, the item must be attached
    /// to the tree another way.
    pub fn add(&mut self, parent_index: Option<usize>, item: T) -> (r: usize)
        requires
            match parent_index {
                Some(p) => p < old(self)@.len(),
                None => true,
            },
        ensures
            r == old(self)@.len(),
            final(self)@ == old(self)@.grown(parent_index, item),
    {
        let index = self.nodes.len();
        if let Some(parent_index) = parent_index {
            self.nodes[parent_index].children.push(index);
        }
        let node = Node { data: item, children: Vec::new() };
        self.nodes.push(node);
        proof {
            assert(self@ =~~= old(self)@.grown(parent_index, item));
        }
        index
    }

    /// Adds an item and a new child of that item to the tree, and returns
    /// the item's index.
    ///
    /// If `parent_index` is provided (not `None`), it must name an
    /// existing item, and the new item is added to that parent's list of
    /// children.
    pub fn addc(&mut self, parent_index: Option<usize>, item: T, child: T) -> (r: usize)
        requires
            match parent_index {
                Some(p) => p < old(self)@.len(),
                None => true,
            },
        ensures
            r == old(self)@.len(),
            final(self)@ == old(self)@.grown(parent_index, item).grown(Some(r), child),
    {
        let index = self.add(parent_index, item);
        self.add(Some(index), child);
        index
    }

    /// Adds an item to the tree, attaching an existing item as its child,
    /// and returns the new item's index.
    ///
    /// `child_id` must name an item that already exists. If
    /// `parent_index` is provided (not `None`), it must name an existing
    /// item, and the new item is added to that parent's list of children.
    pub fn addci(&mut self, parent_index: Option<usize>, item: T, child_id: usize) -> (r: usize)
        requires
            match parent_index {
                Some(p) => p < old(self)@.len(),
                None => true,
            },
            child_id < old(self)@.len(),
        ensures
            r == old(self)@.len(),
            final(self)@ == old(self)@.grown(parent_index, item).attach(r as int, child_id),
    {
        let node_id = self.add(parent_index, item);
        proof {
            assert(self@.nodes.len() == old(self)@.nodes.len() + 1);
            assert(node_id < self.nodes@.len());
        }
        self.nodes[node_id].children.push(child_id);
        proof {
            assert(self@ =~~= old(self)@.grown(parent_index, item).attach(node_id as int, child_id));
        }
        node_id
    }

    /// Adds an item to the tree, attaching existing items as its
    /// children, and returns the new item's index.
    ///
    /// Each index of `children_id` must name an item that exists once the
    /// new item has been added (so it may also be the new item's own
    /// index). If `parent_index` is provided (not `None`), it must name
    /// an existing item, and the new item is added to that parent's list
    /// of children.
    pub fn addci_iter(&mut self, parent_index: Option<usize>, item: T, children_id: &[usize]) -> (r:
        usize)
        requires
            match parent_index {
                Some(p) => p < old(self)@.len(),
                None => true,
            },
            forall|j: int|
                0 <= j < children_id@.len() ==> children_id@[j] < old(self)@.len() + 1,
        ensures
            r == old(self)@.len(),
            final(self)@ == old(self)@.grown(parent_index, item).attach_all(r as int, children_id@),
    {
        let node_id = self.add(parent_index, item);
        let ghost base = self@;
        let n = children_id.len();
        let mut j: usize = 0;
        while j < n
            invariant
                n == children_id@.len(),
                0 <= j <= n,
                node_id < base.len(),
                self@ == base.attach_all(node_id as int, children_id@.subrange(0, j as int)),
                base.len() == self@.len(),
            decreases n - j,
        {
            let c = children_id[j];
            self.nodes[node_id].children.push(c);
            proof {
                let pre = children_id@.subrange(0, j as int);
                let cur = children_id@.subrange(0, j + 1 as int);
                assert(cur.drop_last() =~= pre);
                assert(self@ =~~= base.attach_all(node_id as int, pre).attach(node_id as int, c));
            }
            j = j + 1;
        }
        proof {
            assert(children_id@.subrange(0, n as int) =~= children_id@);
        }
        node_id
    }

    /// Adds the given items to the tree and returns their indices.
    ///
    /// If `parent_index` is provided (not `None`), it must name an
    /// existing item, and each new item is added to that parent's list of
    /// children.
    pub fn add_iter(&mut self, parent_index: Option<usize>, items: Vec<T>) -> (r: Vec<usize>)
        requires
            match parent_index {
                Some(p) => p < old(self)@.len(),
                None => true,
            },
        ensures
            final(self)@ == old(self)@.grown_all(parent_index, items@),
            r@.len() == items@.len(),
            forall|j: int| 0 <= j < r@.len() ==> r@[j] == old(self)@.len() + j,
    {
        let ghost base = self@;
        let ghost all = items@;
        let mut items = items;
        let mut indices: Vec<usize> = Vec::new();
        let mut j: usize = 0;
        let n = items.len();
        while j < n
            invariant
                n == all.len(),
                0 <= j <= n,
                items@ == all.subrange(j as int, n as int),
                match parent_index {
                    Some(p) => p < base.len(),
                    None => true,
                },
                self@ == base.grown_all(parent_index, all.subrange(0, j as int)),
                self@.len() == base.len() + j,
                indices@.len() == j,
                forall|k: int| 0 <= k < j ==> indices@[k] == base.len() + k,
            decreases n - j,
        {
            let item = items.remove(0);
            let ix = self.add(parent_index, item);
            indices.push(ix);
            proof {
                let pre = all.subrange(0, j as int);
                let cur = all.subrange(0, j + 1 as int);
                assert(cur.drop_last() =~= pre);
                assert(cur.last() == all[j as int]);
                assert(items@ =~= all.subrange(j + 1 as int, n as int));
            }
            j = j + 1;
        }
        proof {
            assert(all.subrange(0, n as int) =~= all);
        }
        indices
    }

    /// Adds an item and new children of that item to the tree, and
    /// returns the item's index.
    ///
    /// If `parent_index` is provided (not `None`), it must name an
    /// existing item, and the new item is added to that parent's list of
    /// children.
    pub fn addc_iter(&mut self, parent_index: Option<usize>, item: T, children: Vec<T>) -> (r:
        usize)
        requires
            match parent_index {
                Some(p) => p < old(self)@.len(),
                None => true,
            },
        ensures
            r == old(self)@.len(),
            final(self)@ == old(self)@.grown(parent_index, item).grown_all(Some(r), children@),
    {
        let index = self.add(parent_index, item);
        self.add_iter(Some(index), children);
        index
    }

    /// Attaches one existing item as an extra child of an existing
    /// parent.
    pub fn attach_child(&mut self, parent_index: usize, child_index: usize)
        requires
            parent_index < old(self)@.len(),
            child_index < old(self)@.len(),
        ensures
            final(self)@ == old(self)@.attach(parent_index as int, child_index),
    {
        self.nodes[parent_index].children.push(child_index);
        proof {
            assert(self@ =~~= old(self)@.attach(parent_index as int, child_index));
        }
    }

    /// Attaches existing items as extra children of an existing parent.
    pub fn attach_children(&mut self, parent_index: usize, children_index: &[usize])
        requires
            parent_index < old(self)@.len(),
            forall|j: int|
                0 <= j < children_index@.len() ==> children_index@[j] < old(self)@.len(),
        ensures
            final(self)@ == old(self)@.attach_all(parent_index as int, children_index@),
    {
        let ghost base = self@;
        let n = children_index.len();
        let mut j: usize = 0;
        while j < n
            invariant
                n == children_index@.len(),
                0 <= j <= n,
                parent_index < base.len(),
                self@ == base.attach_all(parent_index as int, children_index@.subrange(0, j as int)),
                base.len() == self@.len(),
            decreases n - j,
        {
            let c = children_index[j];
            self.nodes[parent_index].children.push(c);
            proof {
                let pre = children_index@.subrange(0, j as int);
                let cur = children_index@.subrange(0, j + 1 as int);
                assert(cur.drop_last() =~= pre);
                assert(self@ =~~= base.attach_all(parent_index as int, pre).attach(
                    parent_index as int,
                    c,
                ));
            }
            j = j + 1;
        }
        proof {
            assert(children_index@.subrange(0, n as int) =~= children_index@);
        }
    }

    /// Returns the number of items in the tree buffer, reachable from the
    /// root or not.
    pub fn len(&self) -> (r: usize)
        ensures
            r == self@.len(),
    {
        self.nodes.len()
    }

    /// Returns `true` if the tree buffer contains no items.
    pub fn is_empty(&self) -> (r: bool)
        ensures
            r == (self@.len() == 0),
    {
        self.nodes.is_empty()
    }

    /// Returns a reference to the item stored at the given index, which
    /// must be within the buffer bounds.
    pub fn get(&self, index: usize) -> (r: &T)
        requires
            index < self@.len(),
        ensures
            *r == self@.nodes[index as int].data,
    {
        &self.nodes[index].data
    }

    /// Returns a mutable reference to the item stored at the given index,
    /// which must be within the buffer bounds.
    pub fn get_mut(&mut self, index: usize) -> (r: &mut T)
        requires
            index < old(self)@.len(),
        ensures
            *r == old(self)@.nodes[index as int].data,
            final(self)@.nodes =~= old(self)@.nodes.update(
                index as int,
                NodeModel { data: *final(r), children: old(self)@.nodes[index as int].children },
            ),
            final(self)@.root == old(self)@.root,
            final(self)@.borrows == old(self)@.borrows,
    {
        let node = &mut self.nodes[index];
        &mut node.data
    }

    /// Returns the item's children indices, as a slice. The index must be
    /// within the buffer bounds.
    pub fn children(&self, index: usize) -> (r: &[usize])
        requires
            index < self@.len(),
        ensures
            r@ == self@.nodes[index as int].children,
    {
        self.nodes[index].children.as_slice()
    }

    /// Returns a mutable reference to the item's children indices. The
    /// index must be within the buffer bounds.
    pub fn children_mut(&mut self, index: usize) -> (r: &mut Vec<usize>)
        requires
            index < old(self)@.len(),
        ensures
            (*r)@ == old(self)@.nodes[index as int].children,
            final(self)@.nodes =~= old(self)@.nodes.update(
                index as int,
                NodeModel { data: old(self)@.nodes[index as int].data, children: final(r)@ },
            ),
            final(self)@.root == old(self)@.root,
            final(self)@.borrows == old(self)@.borrows,
    {
        let node = &mut self.nodes[index];
        &mut node.children
    }

    /// Returns references to the item's child nodes, in child-list order.
    /// The index must be within the buffer bounds and the child indices
    /// must themselves be within bounds.
    pub fn iter_children(&self, index: usize) -> (r: Vec<&Node<T>>)
        requires
            index < self@.len(),
            forall|j: int|
                0 <= j < self@.nodes[index as int].children.len()
                    ==> #[trigger] self@.nodes[index as int].children[j] < self@.len(),
        ensures
            r@.len() == self@.nodes[index as int].children.len(),
            forall|j: int|
                0 <= j < r@.len() ==> {
                    let c = self@.nodes[index as int].children[j];
                    (#[trigger] r@[j])@ == self@.nodes[c as int]
                },
    {
        let ghost cs = self@.nodes[index as int].children;
        let n = self.nodes[index].children.len();
        let mut out: Vec<&Node<T>> = Vec::new();
        let mut j: usize = 0;
        while j < n
            invariant
                n == cs.len(),
                0 <= j <= n,
                index < self@.len(),
                cs == self@.nodes[index as int].children,
                forall|k: int| 0 <= k < cs.len() ==> #[trigger] cs[k] < self@.len(),
                out@.len() == j,
                forall|k: int|
                    0 <= k < j ==> (#[trigger] out@[k])@ == self@.nodes[cs[k] as int],
            decreases n - j,
        {
            let c = self.nodes[index].children[j];
            out.push(&self.nodes[c]);
            j = j + 1;
        }
        out
    }

    /// Clears the tree content: length back to zero, root unset.
    ///
    /// Succeeds exactly when no write-capable proxy is outstanding;
    /// otherwise the tree is left unchanged and the mutation is refused.
    pub fn clear(&mut self) -> (r: Result<(), TreeError>)
        ensures
            old(self)@.borrows == 0 ==> r is Ok && final(self)@ == (TreeModel::<T> {
                nodes: Seq::empty(),
                root: None,
                borrows: 0,
            }),
            old(self)@.borrows != 0 ==> r == Err::<(), TreeError>(TreeError::MutationWhileBorrowed)
                && final(self)@ == old(self)@,
    {
        if self.borrows != 0 {
            return Err(TreeError::MutationWhileBorrowed);
        }
        self.nodes.clear();
        self.root = None;
        proof {
            assert(self@.nodes =~= Seq::<NodeModel<T>>::empty());
        }
        Ok(())
    }

    /// Builds a tree from a flattened description: one `(payload,
    /// child-index-list)` pair per slot, in slot order, plus an optional
    /// root index. Child indices reference positions in the same
    /// sequence, and the root, if given, must be one of them.
    pub fn from_nodes(root: Option<usize>, items: Vec<(T, Vec<usize>)>) -> (tree: Self)
        requires
            forall|i: int, j: int|
                0 <= i < items@.len() && 0 <= j < items@[i].1@.len()
                    ==> #[trigger] items@[i].1@[j] < items@.len(),
            match root {
                Some(r) => r < items@.len(),
                None => true,
            },
        ensures
            tree@.nodes.len() == items@.len(),
            forall|i: int|
                0 <= i < items@.len() ==> (#[trigger] tree@.nodes[i]).data == items@[i].0
                    && tree@.nodes[i].children == items@[i].1@,
            tree@.root == root,
            tree@.borrows == 0,
    {
        let ghost all = items@;
        let mut items = items;
        let mut nodes: Vec<Node<T>> = Vec::new();
        let n = items.len();
        let mut i: usize = 0;
        while i < n
            invariant
                n == all.len(),
                0 <= i <= n,
                items@ == all.subrange(i as int, n as int),
                nodes@.len() == i,
                forall|k: int|
                    0 <= k < i ==> (#[trigger] nodes@[k])@.data == all[k].0 && nodes@[k]@.children
                        == all[k].1@,
            decreases n - i,
        {
            let (data, children) = items.remove(0);
            nodes.push(Node { data, children });
            proof {
                assert(items@ =~= all.subrange(i + 1 as int, n as int));
            }
            i = i + 1;
        }
        let tree = VecTree { nodes, borrows: 0, root };
        proof {
            assert(all.subrange(n as int, n as int).len() == 0);
        }
        tree
    }

    /// Number of currently outstanding write-capable proxies.
    pub fn borrow_count(&self) -> (r: u32)
        ensures
            r == self@.borrows,
    {
        self.borrows
    }
}

impl<T> Node<T> {
    /// Returns `true` if the node has children.
    pub fn has_children(&self) -> (r: bool)
        ensures
            r == (self@.children.len() > 0),
    {
        self.children.len() > 0
    }

    /// Returns the node's children indices, as a slice.
    pub fn children(&self) -> (r: &[usize])
        ensures
            r@ == self@.children,
    {
        self.children.as_slice()
    }
}

impl<T> Default for VecTree<T> {
    fn default() -> (tree: Self)
        ensures
            tree@.nodes == Seq::<NodeModel<T>>::empty(),
            tree@.root is None,
            tree@.borrows == 0,
    {
        VecTree::new()
    }
}

impl<T: Clone> Clone for Node<T> {
    fn clone(&self) -> (r: Self)
        ensures
            r@.children == self@.children,
            cloned::<T>(self@.data, r@.data),
    {
        Node { data: self.data.clone(), children: self.children.clone() }
    }
}

impl<T: Clone> Clone for VecTree<T> {
    /// The clone has the same structure and root, payloads cloned
    /// pairwise, and no outstanding proxies.
    fn clone(&self) -> (r: Self)
        ensures
            r@.nodes.len() == self@.nodes.len(),
            forall|i: int|
                0 <= i < r@.nodes.len() ==> (#[trigger] r@.nodes[i]).children
                    == self@.nodes[i].children && cloned::<T>(self@.nodes[i].data, r@.nodes[i].data),
            r@.root == self@.root,
            r@.borrows == 0,
    {
        let n = self.nodes.len();
        let mut nodes: Vec<Node<T>> = Vec::new();
        let mut j: usize = 0;
        while j < n
            invariant
                n == self@.nodes.len(),
                0 <= j <= n,
                nodes@.len() == j,
                forall|k: int|
                    0 <= k < j ==> (#[trigger] nodes@[k])@.children == self@.nodes[k].children
                        && cloned::<T>(self@.nodes[k].data, nodes@[k]@.data),
            decreases n - j,
        {
            let node = self.nodes[j].clone();
            nodes.push(node);
            j = j + 1;
        }
        VecTree { nodes, borrows: 0, root: self.root }
    }
}

/// Failures of the runtime aliasing discipline. Out-of-range indices are
/// contract violations excluded by the operations' preconditions; these
/// two conditions instead depend on the dynamic proxy count and are
/// reported to the caller.
#[derive(Clone, Copy, Debug, PartialEq, Eq, Structural)]
pub enum TreeError {
    /// Children-read requested on a write-capable proxy while another
    /// write-capable proxy is still retained.
    AliasingViolation,
    /// Destructive reset requested while write-capable proxies are
    /// outstanding.
    MutationWhileBorrowed,
}

/// The structural invariant established by pure append construction:
/// every child was appended after its parent — its index is strictly
/// greater — and no slot is attached as a child twice.
pub open spec fn append_built(s: Seq<Seq<usize>>) -> bool {
    &&& forall|i: int, j: int|
        0 <= i < s.len() && 0 <= j < s[i].len() ==> i < #[trigger] s[i][j] < s.len()
    &&& forall|i1: int, j1: int, i2: int, j2: int|
        0 <= i1 < s.len() && 0 <= j1 < s[i1].len() && 0 <= i2 < s.len() && 0 <= j2 < s[i2].len()
            && #[trigger] s[i1][j1] == #[trigger] s[i2][j2] ==> i1 == i2 && j1 == j2
}

} // verus!
