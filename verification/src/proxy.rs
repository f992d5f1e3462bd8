//! The proxy subsystem: the four capability views over a traversal's
//! emissions, and the runtime aliasing guard.
//!
//! A post-order traversal hands out every descendant's proxy before the
//! ancestor's. A caller may retain an earlier write-capable proxy while
//! pulling later ones, so when an ancestor's write-capable proxy is asked
//! for read access to its children, a retained descendant proxy could
//! still be live. The guard is a counter on the arena: each
//! [`NodeProxyMut`] bumps it at creation and releases it explicitly;
//! children-read on a [`NodeProxyMut`] demands the counter be exactly
//! one (the proxy itself) and otherwise reports an aliasing violation.

use crate::model::postorder_of;
use crate::model::traversable;
use crate::tree::TreeError;
use crate::tree::VecTree;
use crate::traverse::VecTreePoDfsIter;
use vstd::prelude::*;

verus! {

/// A proxy returned by simple read traversals: the visited index, its
/// depth, and the child count captured at emission time. The payload is
/// read through [`VecTree::get`].
#[derive(Clone, Copy, Debug)]
pub struct NodeProxySimple {
    pub index: usize,
    pub depth: usize,
    pub num_children: usize,
}

impl NodeProxySimple {
    /// Gets the number of children of the node, as captured when the
    /// proxy was created.
    pub fn num_children(&self) -> (r: usize)
        ensures
            r == self.num_children,
    {
        self.num_children
    }
}

/// A proxy returned by simple write traversals: the visited index and its
/// depth. The payload is read and written through [`VecTree::get`] and
/// [`VecTree::get_mut`]; no access to the children is offered.
#[derive(Clone, Copy, Debug)]
pub struct NodeProxySimpleMut {
    pub index: usize,
    pub depth: usize,
}

/// A proxy returned by full read traversals: it reaches the visited
/// node's payload (through [`VecTree::get`]), its children and the whole
/// subtree under it.
#[derive(Clone, Copy, Debug)]
pub struct NodeProxy {
    pub index: usize,
    pub depth: usize,
}

/// A proxy returned by full write traversals: exclusive write access to
/// the visited node's payload (through [`VecTree::get_mut`]), and
/// guarded read access to its children. It is registered with the
/// arena's live-proxy counter at creation and must be released with
/// [`NodeProxyMut::release`].
#[derive(Debug)]
pub struct NodeProxyMut {
    pub index: usize,
    pub depth: usize,
}

impl VecTreePoDfsIter {
    /// Produces the next emission as a [`NodeProxySimple`], or `None`
    /// once the traversal is exhausted.
    pub fn next_simple<T>(&mut self, tree: &VecTree<T>) -> (r: Option<NodeProxySimple>)
        requires
            old(self).inv(),
            old(self).structure() == tree@.structure(),
        ensures
            final(self).inv(),
            final(self).structure() == old(self).structure(),
            final(self).plan() == old(self).plan(),
            old(self).pos() < old(self).plan().len() ==> {
                let e = old(self).plan()[old(self).pos() as int];
                &&& final(self).pos() == old(self).pos() + 1
                &&& r is Some
                &&& r->Some_0.index == e.0
                &&& r->Some_0.depth == e.1
                &&& r->Some_0.num_children == tree@.structure()[e.0 as int].len()
            },
            old(self).pos() == old(self).plan().len() ==> r is None && final(self).pos() == old(
                self,
            ).pos(),
    {
        match self.advance(tree) {
            Some((index, depth)) => {
                proof {
                    let e = old(self).plan()[old(self).pos() as int];
                    assert(e.0 < tree@.structure().len());
                    assert(tree@.structure()[e.0 as int] == tree.nodes@[e.0 as int]@.children);
                }
                let num_children = tree.nodes[index].children.len();
                Some(NodeProxySimple { index, depth, num_children })
            },
            None => None,
        }
    }

    /// Produces the next emission as a [`NodeProxySimpleMut`], or `None`
    /// once the traversal is exhausted.
    pub fn next_simple_mut<T>(&mut self, tree: &VecTree<T>) -> (r: Option<NodeProxySimpleMut>)
        requires
            old(self).inv(),
            old(self).structure() == tree@.structure(),
        ensures
            final(self).inv(),
            final(self).structure() == old(self).structure(),
            final(self).plan() == old(self).plan(),
            old(self).pos() < old(self).plan().len() ==> {
                let e = old(self).plan()[old(self).pos() as int];
                &&& final(self).pos() == old(self).pos() + 1
                &&& r is Some
                &&& r->Some_0.index == e.0
                &&& r->Some_0.depth == e.1
            },
            old(self).pos() == old(self).plan().len() ==> r is None && final(self).pos() == old(
                self,
            ).pos(),
    {
        match self.advance(tree) {
            Some((index, depth)) => Some(NodeProxySimpleMut { index, depth }),
            None => None,
        }
    }

    /// Produces the next emission as a [`NodeProxy`], or `None` once the
    /// traversal is exhausted.
    pub fn next_full<T>(&mut self, tree: &VecTree<T>) -> (r: Option<NodeProxy>)
        requires
            old(self).inv(),
            old(self).structure() == tree@.structure(),
        ensures
            final(self).inv(),
            final(self).structure() == old(self).structure(),
            final(self).plan() == old(self).plan(),
            old(self).pos() < old(self).plan().len() ==> {
                let e = old(self).plan()[old(self).pos() as int];
                &&& final(self).pos() == old(self).pos() + 1
                &&& r is Some
                &&& r->Some_0.index == e.0
                &&& r->Some_0.depth == e.1
            },
            old(self).pos() == old(self).plan().len() ==> r is None && final(self).pos() == old(
                self,
            ).pos(),
    {
        match self.advance(tree) {
            Some((index, depth)) => Some(NodeProxy { index, depth }),
            None => None,
        }
    }

    /// Produces the next emission as a [`NodeProxyMut`], registering it
    /// with the arena's live-proxy counter, or `None` once the traversal
    /// is exhausted (then the counter is untouched).
    pub fn next_full_mut<T>(&mut self, tree: &mut VecTree<T>) -> (r: Option<NodeProxyMut>)
        requires
            old(self).inv(),
            old(self).structure() == old(tree)@.structure(),
            old(tree)@.borrows < u32::MAX,
        ensures
            final(self).inv(),
            final(self).structure() == old(self).structure(),
            final(self).plan() == old(self).plan(),
            final(tree)@.nodes == old(tree)@.nodes,
            final(tree)@.root == old(tree)@.root,
            old(self).pos() < old(self).plan().len() ==> {
                let e = old(self).plan()[old(self).pos() as int];
                &&& final(self).pos() == old(self).pos() + 1
                &&& r is Some
                &&& r->Some_0.index == e.0
                &&& r->Some_0.depth == e.1
                &&& final(tree)@.borrows == old(tree)@.borrows + 1
            },
            old(self).pos() == old(self).plan().len() ==> r is None && final(self).pos() == old(
                self,
            ).pos() && final(tree)@.borrows == old(tree)@.borrows,
    {
        match self.advance(tree) {
            Some((index, depth)) => {
                tree.borrows = tree.borrows + 1;
                Some(NodeProxyMut { index, depth })
            },
            None => None,
        }
    }
}

impl NodeProxy {
    /// Gets the number of children of the visited node.
    pub fn num_children<T>(&self, tree: &VecTree<T>) -> (r: usize)
        requires
            self.index < tree@.len(),
        ensures
            r == tree@.nodes[self.index as int].children.len(),
    {
        tree.nodes[self.index].children.len()
    }

    /// Read proxies for the node's children, one level down, in
    /// child-list order.
    pub fn iter_children<T>(&self, tree: &VecTree<T>) -> (r: Vec<NodeProxy>)
        requires
            self.index < tree@.len(),
            self.depth < usize::MAX,
        ensures
            r@.len() == tree@.nodes[self.index as int].children.len(),
            forall|j: int|
                0 <= j < r@.len() ==> {
                    let cs = tree@.nodes[self.index as int].children;
                    (#[trigger] r@[j]).index == cs[j] && r@[j].depth == self.depth + 1
                },
    {
        child_proxies(tree, self.index, self.depth)
    }

    /// References to the payloads of the node's children, in child-list
    /// order. The child indices must be within the arena bounds.
    pub fn iter_children_simple<'a, T>(&self, tree: &'a VecTree<T>) -> (r: Vec<&'a T>)
        requires
            self.index < tree@.len(),
            forall|j: int|
                0 <= j < tree@.nodes[self.index as int].children.len()
                    ==> #[trigger] tree@.nodes[self.index as int].children[j] < tree@.len(),
        ensures
            r@.len() == tree@.nodes[self.index as int].children.len(),
            forall|j: int|
                0 <= j < r@.len() ==> {
                    let c = tree@.nodes[self.index as int].children[j];
                    *(#[trigger] r@[j]) == tree@.nodes[c as int].data
                },
    {
        child_payloads(tree, self.index)
    }

    /// A fresh read-only post-order traversal of the subtree under this
    /// node, independent of the traversal that produced the proxy.
    pub fn iter_depth_simple<T>(&self, tree: &VecTree<T>) -> (it: VecTreePoDfsIter)
        requires
            traversable(tree@.structure(), self.index),
        ensures
            it.valid_for(tree@.structure()),
            it.plan() == postorder_of(tree@.structure(), Some(self.index)),
            it.pos() == 0,
    {
        VecTreePoDfsIter::begin(tree, Some(self.index))
    }
}

impl NodeProxyMut {
    /// Gets the number of children of the visited node.
    pub fn num_children<T>(&self, tree: &VecTree<T>) -> (r: usize)
        requires
            self.index < tree@.len(),
        ensures
            r == tree@.nodes[self.index as int].children.len(),
    {
        tree.nodes[self.index].children.len()
    }

    /// Read proxies for the node's children, one level down — guarded.
    ///
    /// Succeeds exactly when this proxy is the only write-capable proxy
    /// outstanding on the arena; any other retained write-capable proxy
    /// may still hold exclusive access to a descendant's payload, so the
    /// read is refused as an aliasing violation.
    pub fn iter_children<T>(&self, tree: &VecTree<T>) -> (r: Result<Vec<NodeProxy>, TreeError>)
        requires
            self.index < tree@.len(),
            self.depth < usize::MAX,
        ensures
            tree@.borrows <= 1 ==> r is Ok && {
                let v = r->Ok_0;
                &&& v@.len() == tree@.nodes[self.index as int].children.len()
                &&& forall|j: int|
                    0 <= j < v@.len() ==> {
                        let cs = tree@.nodes[self.index as int].children;
                        (#[trigger] v@[j]).index == cs[j] && v@[j].depth == self.depth + 1
                    }
            },
            tree@.borrows > 1 ==> r == Err::<Vec<NodeProxy>, TreeError>(
                TreeError::AliasingViolation,
            ),
    {
        if tree.borrows > 1 {
            return Err(TreeError::AliasingViolation);
        }
        Ok(child_proxies(tree, self.index, self.depth))
    }

    /// References to the payloads of the node's children — guarded as
    /// [`NodeProxyMut::iter_children`] is.
    pub fn iter_children_simple<'a, T>(&self, tree: &'a VecTree<T>) -> (r: Result<
        Vec<&'a T>,
        TreeError,
    >)
        requires
            self.index < tree@.len(),
            forall|j: int|
                0 <= j < tree@.nodes[self.index as int].children.len()
                    ==> #[trigger] tree@.nodes[self.index as int].children[j] < tree@.len(),
        ensures
            tree@.borrows <= 1 ==> r is Ok && {
                let v = r->Ok_0;
                &&& v@.len() == tree@.nodes[self.index as int].children.len()
                &&& forall|j: int|
                    0 <= j < v@.len() ==> {
                        let c = tree@.nodes[self.index as int].children[j];
                        *(#[trigger] v@[j]) == tree@.nodes[c as int].data
                    }
            },
            tree@.borrows > 1 ==> r == Err::<Vec<&'a T>, TreeError>(TreeError::AliasingViolation),
    {
        if tree.borrows > 1 {
            return Err(TreeError::AliasingViolation);
        }
        Ok(child_payloads(tree, self.index))
    }

    /// A fresh read-only post-order traversal of the subtree under this
    /// node, independent of the traversal that produced the proxy.
    pub fn iter_depth_simple<T>(&self, tree: &VecTree<T>) -> (it: VecTreePoDfsIter)
        requires
            traversable(tree@.structure(), self.index),
        ensures
            it.valid_for(tree@.structure()),
            it.plan() == postorder_of(tree@.structure(), Some(self.index)),
            it.pos() == 0,
    {
        VecTreePoDfsIter::begin(tree, Some(self.index))
    }

    /// Releases the proxy, giving its registration on the arena's
    /// live-proxy counter back.
    pub fn release<T>(self, tree: &mut VecTree<T>)
        requires
            old(tree)@.borrows >= 1,
        ensures
            final(tree)@.nodes == old(tree)@.nodes,
            final(tree)@.root == old(tree)@.root,
            final(tree)@.borrows == old(tree)@.borrows - 1,
    {
        tree.borrows = tree.borrows - 1;
    }
}

/// Builds the read proxies for the children of `index`, one level below
/// `depth`.
fn child_proxies<T>(tree: &VecTree<T>, index: usize, depth: usize) -> (r: Vec<NodeProxy>)
    requires
        index < tree@.len(),
        depth < usize::MAX,
    ensures
        r@.len() == tree@.nodes[index as int].children.len(),
        forall|j: int|
            0 <= j < r@.len() ==> (#[trigger] r@[j]).index == tree@.nodes[index as int].children[j]
                && r@[j].depth == depth + 1,
{
    let ghost cs = tree@.nodes[index as int].children;
    let n = tree.nodes[index].children.len();
    let mut out: Vec<NodeProxy> = Vec::new();
    let mut j: usize = 0;
    while j < n
        invariant
            n == cs.len(),
            0 <= j <= n,
            index < tree@.len(),
            depth < usize::MAX,
            cs == tree@.nodes[index as int].children,
            out@.len() == j,
            forall|k: int|
                0 <= k < j ==> (#[trigger] out@[k]).index == cs[k] && out@[k].depth == depth + 1,
        decreases n - j,
    {
        let c = tree.nodes[index].children[j];
        out.push(NodeProxy { index: c, depth: depth + 1 });
        j = j + 1;
    }
    out
}

/// Collects references to the payloads of the children of `index`.
fn child_payloads<'a, T>(tree: &'a VecTree<T>, index: usize) -> (r: Vec<&'a T>)
    requires
        index < tree@.len(),
        forall|j: int|
            0 <= j < tree@.nodes[index as int].children.len()
                ==> #[trigger] tree@.nodes[index as int].children[j] < tree@.len(),
    ensures
        r@.len() == tree@.nodes[index as int].children.len(),
        forall|j: int|
            0 <= j < r@.len() ==> {
                let c = tree@.nodes[index as int].children[j];
                *(#[trigger] r@[j]) == tree@.nodes[c as int].data
            },
{
    let ghost cs = tree@.nodes[index as int].children;
    let n = tree.nodes[index].children.len();
    let mut out: Vec<&'a T> = Vec::new();
    let mut j: usize = 0;
    while j < n
        invariant
            n == cs.len(),
            0 <= j <= n,
            index < tree@.len(),
            cs == tree@.nodes[index as int].children,
            forall|k: int| 0 <= k < cs.len() ==> #[trigger] cs[k] < tree@.len(),
            out@.len() == j,
            forall|k: int| 0 <= k < j ==> *(#[trigger] out@[k]) == tree@.nodes[cs[k] as int].data,
        decreases n - j,
    {
        let c = tree.nodes[index].children[j];
        out.push(&tree.nodes[c].data);
        j = j + 1;
    }
    out
}

} // verus!
