//! The post-order, depth-first search engine.
//!
//! A traversal is an explicit state machine over an arena: a stack of
//! pending visit events, a running depth counter and the next pending
//! event. It does not borrow the arena; each [`VecTreePoDfsIter::advance`]
//! call is handed the arena and produces the next post-order emission.
//! The planned emission sequence is fixed at construction (the ghost
//! `route` field) and `advance` is proved to walk it exactly, which makes
//! traversal deterministic by contract.

use crate::model::lemma_po_list_bounds;
use crate::model::lemma_po_list_fuel;
use crate::model::lemma_po_list_split;
use crate::model::lemma_po_node_bounds;
use crate::model::po_at;
use crate::model::po_fuel;
use crate::model::po_list;
use crate::model::po_ok_at;
use crate::model::postorder_of;
use crate::model::traversable;
use crate::model::traversable_of;
use crate::tree::VecTree;
use vstd::prelude::*;

verus! {

/// An index holder indicating the direction of the search: up or down.
/// This type is stored in the stack used by the post-order, depth-first
/// search loop.
#[derive(Clone, Copy)]
pub enum VisitNode {
    Down(usize),
    Up(usize),
}

/// The emission sequence still owed by a traversal whose pending events
/// are `evs` (top of stack last) at running depth `d`: a `Down` event
/// owes the whole post-order sequence of its subtree at the current
/// depth, an `Up` event owes its own visit one level up and lowers the
/// depth for everything beneath it on the stack.
pub open spec fn rem(s: Seq<Seq<usize>>, evs: Seq<VisitNode>, d: nat) -> Seq<(usize, nat)>
    decreases evs.len(),
{
    if evs.len() == 0 {
        Seq::empty()
    } else {
        match evs.last() {
            VisitNode::Down(i) => po_at(s, i, d) + rem(s, evs.drop_last(), d),
            VisitNode::Up(i) => seq![(i, (d - 1) as nat)] + rem(s, evs.drop_last(), (d - 1) as nat),
        }
    }
}

/// Well-formedness of a pending event stack at running depth `d`: every
/// `Down` names a traversable subtree, every `Up` names a valid slot and
/// has a level to give back, so `d` is at least the number of `Up`
/// events on the stack.
pub open spec fn evs_wf(s: Seq<Seq<usize>>, evs: Seq<VisitNode>, d: nat) -> bool
    decreases evs.len(),
{
    if evs.len() == 0 {
        true
    } else {
        match evs.last() {
            VisitNode::Down(i) => po_ok_at(s, i, d) && evs_wf(s, evs.drop_last(), d),
            VisitNode::Up(i) => d >= 1 && i < s.len() && evs_wf(s, evs.drop_last(), (d - 1) as nat),
        }
    }
}

/// Work still owed by a pending event stack, counting two units per
/// visit under a `Down` event and one unit per `Up` event: each step of
/// the search loop strictly lowers it, which bounds the loop.
pub open spec fn toll(s: Seq<Seq<usize>>, evs: Seq<VisitNode>, d: nat) -> nat
    decreases evs.len(),
{
    if evs.len() == 0 {
        0
    } else {
        match evs.last() {
            VisitNode::Down(i) => 2 * po_at(s, i, d).len() + toll(s, evs.drop_last(), d),
            VisitNode::Up(i) => 1 + toll(s, evs.drop_last(), (d - 1) as nat),
        }
    }
}

/// Every planned emission names a valid slot at a depth no deeper than
/// the arena is long.
pub open spec fn plan_ok(s: Seq<Seq<usize>>, q: Seq<(usize, nat)>) -> bool {
    forall|k: int|
        0 <= k < q.len() ==> ((#[trigger] q[k]).0 < s.len() && q[k].1 <= s.len())
}

/// A [`VecTree`] post-order, depth-first search traversal.
///
/// The traversal is constructed against an arena and advanced against the
/// same arena; the arena's children-structure must not change in between
/// (payload writes are fine). The ghost fields pin the structure seen at
/// construction, the planned emission sequence and how much of it has
/// been handed out.
pub struct VecTreePoDfsIter {
    pub stack: Vec<VisitNode>,
    pub depth: usize,
    pub next: Option<VisitNode>,
    pub snap: Ghost<Seq<Seq<usize>>>,
    pub route: Ghost<Seq<(usize, nat)>>,
    pub taken: Ghost<nat>,
}

impl VecTreePoDfsIter {
    /// The arena children-structure this traversal was constructed
    /// against.
    pub open spec fn structure(self) -> Seq<Seq<usize>> {
        self.snap@
    }

    /// The full planned emission sequence: post-order visits paired with
    /// their depths.
    pub open spec fn plan(self) -> Seq<(usize, nat)> {
        self.route@
    }

    /// How many emissions have been handed out so far.
    pub open spec fn pos(self) -> nat {
        self.taken@
    }

    /// The pending events, the one processed next last.
    pub open spec fn events(self) -> Seq<VisitNode> {
        match self.next {
            Some(e) => self.stack@.push(e),
            None => self.stack@,
        }
    }

    /// Internal coherence: the pending events are well formed and owe
    /// exactly the part of the plan not yet handed out.
    pub open spec fn inv(self) -> bool {
        &&& evs_wf(self.snap@, self.events(), self.depth as nat)
        &&& rem(self.snap@, self.events(), self.depth as nat) == self.route@.skip(
            self.taken@ as int,
        )
        &&& self.taken@ <= self.route@.len()
        &&& plan_ok(self.snap@, self.route@)
        &&& (self.next is None ==> self.stack@.len() == 0)
    }

    /// The traversal is coherent and was constructed against `s`.
    pub open spec fn valid_for(self, s: Seq<Seq<usize>>) -> bool {
        self.inv() && self.snap@ == s
    }

    /// Starts a traversal of `tree` from `start` (or an empty traversal
    /// when no start is given). The region under `start` must be
    /// traversable.
    pub fn begin<T>(tree: &VecTree<T>, start: Option<usize>) -> (it: VecTreePoDfsIter)
        requires
            traversable_of(tree@.structure(), start),
        ensures
            it.valid_for(tree@.structure()),
            it.plan() == postorder_of(tree@.structure(), start),
            it.pos() == 0,
    {
        let ghost s = tree@.structure();
        let first: Option<VisitNode> = match start {
            Some(i) => Some(VisitNode::Down(i)),
            None => None,
        };
        let it = VecTreePoDfsIter {
            stack: Vec::new(),
            depth: 0,
            next: first,
            snap: Ghost(s),
            route: Ghost(postorder_of(s, start)),
            taken: Ghost(0),
        };
        proof {
            let q = postorder_of(s, start);
            match start {
                Some(i) => {
                    assert(it.events() =~= Seq::<VisitNode>::empty().push(VisitNode::Down(i)));
                    assert(it.events().drop_last() =~= Seq::<VisitNode>::empty());
                    lemma_po_node_bounds(s, i, 0, po_fuel(s));
                    assert(rem(s, Seq::<VisitNode>::empty(), 0) =~= Seq::<(usize, nat)>::empty());
                    assert(evs_wf(s, Seq::<VisitNode>::empty(), 0));
                    assert(rem(s, it.events(), 0) =~= po_at(s, i, 0) + rem(
                        s,
                        Seq::<VisitNode>::empty(),
                        0,
                    ));
                    assert(rem(s, it.events(), 0) =~= q);
                    assert(q.skip(0) =~= q);
                    assert forall|k: int| 0 <= k < q.len() implies ((#[trigger] q[k]).0 < s.len()
                        && q[k].1 <= s.len()) by {
                        assert(q[k].1 < po_fuel(s));
                    }
                },
                None => {
                    assert(it.events() =~= Seq::<VisitNode>::empty());
                    assert(q.skip(0) =~= q);
                },
            }
        }
        it
    }

    /// Produces the next post-order emission, as the visited index and
    /// its zero-based depth, or `None` once the traversal is exhausted.
    ///
    /// The arena must be the one the traversal was constructed against,
    /// with its children-structure unchanged; the emission is exactly the
    /// next entry of the plan.
    pub fn advance<T>(&mut self, tree: &VecTree<T>) -> (r: Option<(usize, usize)>)
        requires
            old(self).inv(),
            old(self).structure() == tree@.structure(),
        ensures
            final(self).inv(),
            final(self).structure() == old(self).structure(),
            final(self).plan() == old(self).plan(),
            old(self).pos() < old(self).plan().len() ==> {
                let e = old(self).plan()[old(self).pos() as int];
                &&& final(self).pos() == old(self).pos() + 1
                &&& r is Some
                &&& r->Some_0.0 == e.0
                &&& r->Some_0.1 == e.1
            },
            old(self).pos() == old(self).plan().len() ==> r is None && final(self).pos() == old(
                self,
            ).pos(),
    {
        let ghost s = old(self).snap@;
        let ghost q = old(self).route@;
        let ghost f = po_fuel(s);
        while self.next.is_some()
            invariant
                self.inv(),
                self.snap@ == s,
                self.route@ == q,
                self.taken@ == old(self).taken@,
                s == old(self).snap@,
                q == old(self).route@,
                s == tree@.structure(),
                f == po_fuel(s),
            decreases toll(s, self.events(), self.depth as nat),
        {
            let ghost evs = self.events();
            let ghost d0 = self.depth as nat;
            let cur = self.next.unwrap();
            proof {
                assert(evs.last() == cur);
                assert(evs.drop_last() =~= self.stack@);
            }
            let emit: Option<usize> = match cur {
                VisitNode::Down(i) => {
                    proof {
                        assert(po_ok_at(s, i, d0));
                        assert(i < s.len());
                        assert(s.len() == tree.nodes@.len());
                        assert(s[i as int] == tree.nodes@[i as int]@.children);
                    }
                    let children_len = tree.nodes[i].children.len();
                    if children_len == 0 {
                        proof {
                            assert(po_at(s, i, d0) =~= seq![(i, d0)]);
                            assert(evs_wf(s, self.stack@, d0));
                            assert(rem(s, evs, d0) == seq![(i, d0)] + rem(s, self.stack@, d0));
                        }
                        Some(i)
                    } else {
                        let ghost ch = s[i as int];
                        let ghost qch = po_list(s, ch, d0 + 1, (f - 1) as nat)->Some_0;
                        proof {
                            // the subtree's plan: children first, then the node
                            assert(po_list(s, ch, d0 + 1, (f - 1) as nat) is Some);
                            lemma_po_list_fuel(s, ch, d0 + 1, (f - 1) as nat, f);
                            assert(po_at(s, i, d0) == qch.push((i, d0)));
                            lemma_po_list_bounds(s, ch, d0 + 1, f);
                            // the next planned emission lies in the child part,
                            // so its depth bound caps the new running depth
                            assert(qch.len() >= 1);
                            assert(po_at(s, i, d0)[0] == qch[0]);
                            assert(rem(s, evs, d0) == po_at(s, i, d0) + rem(s, self.stack@, d0));
                            assert(rem(s, evs, d0)[0] == qch[0]);
                            assert(q.skip(self.taken@ as int)[0] == q[self.taken@ as int]);
                            assert(d0 + 1 <= qch[0].1);
                            assert(qch[0].1 <= s.len());
                            assert(s.len() == tree.nodes@.len());
                        }
                        let n = tree.nodes.len();
                        proof {
                            assert(self.depth + 1 <= n);
                        }
                        self.depth = self.depth + 1;
                        let ghost pre_stack = self.stack@;
                        self.stack.push(VisitNode::Up(i));
                        proof {
                            assert(self.stack@.drop_last() =~= pre_stack);
                            assert(ch.subrange(children_len as int, ch.len() as int)
                                =~= Seq::<usize>::empty());
                        }
                        let mut j = children_len;
                        while j > 0
                            invariant
                                j <= children_len,
                                children_len == ch.len(),
                                i < s.len(),
                                ch == s[i as int],
                                s == tree@.structure(),
                                s.len() == tree.nodes@.len(),
                                s[i as int] == tree.nodes@[i as int]@.children,
                                f == po_fuel(s),
                                self.depth as nat == d0 + 1,
                                self.snap@ == s,
                                self.route@ == q,
                                self.taken@ == old(self).taken@,
                                self.next == Some(cur),
                                po_list(s, ch, d0 + 1, f) is Some,
                                po_list(s, ch.subrange(j as int, ch.len() as int), d0 + 1, f)
                                    is Some,
                                evs_wf(s, self.stack@, d0 + 1),
                                rem(s, self.stack@, d0 + 1) == po_list(
                                    s,
                                    ch.subrange(j as int, ch.len() as int),
                                    d0 + 1,
                                    f,
                                )->Some_0 + seq![(i, d0)] + rem(s, pre_stack, d0),
                                toll(s, self.stack@, d0 + 1) == 2 * po_list(
                                    s,
                                    ch.subrange(j as int, ch.len() as int),
                                    d0 + 1,
                                    f,
                                )->Some_0.len() + 1 + toll(s, pre_stack, d0),
                            decreases j,
                        {
                            let c = tree.nodes[i].children[j - 1];
                            let ghost stack0 = self.stack@;
                            self.stack.push(VisitNode::Down(c));
                            proof {
                                lemma_po_list_split(s, ch, d0 + 1, f, j as int - 1);
                                assert(self.stack@.drop_last() =~= stack0);
                                assert(c == ch[j as int - 1]);
                                assert(rem(s, self.stack@, d0 + 1) =~= po_at(s, c, d0 + 1) + rem(
                                    s,
                                    stack0,
                                    d0 + 1,
                                ));
                                assert(po_list(
                                    s,
                                    ch.subrange(j as int - 1, ch.len() as int),
                                    d0 + 1,
                                    f,
                                )->Some_0 =~= po_at(s, c, d0 + 1) + po_list(
                                    s,
                                    ch.subrange(j as int, ch.len() as int),
                                    d0 + 1,
                                    f,
                                )->Some_0);
                                assert(rem(s, self.stack@, d0 + 1) =~= po_list(
                                    s,
                                    ch.subrange(j as int - 1, ch.len() as int),
                                    d0 + 1,
                                    f,
                                )->Some_0 + seq![(i, d0)] + rem(s, pre_stack, d0));
                            }
                            j = j - 1;
                        }
                        proof {
                            assert(ch.subrange(0, ch.len() as int) =~= ch);
                            assert(qch.push((i, d0)) =~= qch + seq![(i, d0)]);
                            assert(rem(s, self.stack@, d0 + 1) =~= po_at(s, i, d0) + rem(
                                s,
                                pre_stack,
                                d0,
                            ));
                            assert(rem(s, self.stack@, d0 + 1) == q.skip(self.taken@ as int));
                            assert(po_at(s, i, d0).len() == qch.len() + 1);
                            assert(toll(s, evs, d0) == 2 * (qch.len() + 1) + toll(s, pre_stack, d0));
                            assert(toll(s, self.stack@, d0 + 1) == 2 * qch.len() + 1 + toll(
                                s,
                                pre_stack,
                                d0,
                            ));
                        }
                        None
                    }
                },
                VisitNode::Up(i) => {
                    proof {
                        assert(d0 >= 1);
                        assert(evs_wf(s, self.stack@, (d0 - 1) as nat));
                        assert(rem(s, evs, d0) == seq![(i, (d0 - 1) as nat)] + rem(
                            s,
                            self.stack@,
                            (d0 - 1) as nat,
                        ));
                    }
                    self.depth = self.depth - 1;
                    Some(i)
                },
            };
            let ghost mid_stack = self.stack@;
            let ghost dmid = self.depth as nat;
            proof {
                // whether the event expanded or emitted, the stack now owes
                // the plan from the first not-yet-emitted entry on
                let k = self.taken@ as int;
                match emit {
                    Some(i) => {
                        assert(rem(s, evs, d0) == q.skip(k));
                        assert(rem(s, evs, d0) == seq![(i, dmid)] + rem(s, mid_stack, dmid));
                        assert(q.skip(k).len() >= 1);
                        assert(q.skip(k)[0] == (i, dmid));
                        assert(rem(s, mid_stack, dmid) =~= q.skip(k).drop_first());
                        assert(q.skip(k).drop_first() =~= q.skip(k + 1));
                    },
                    None => {
                        assert(toll(s, mid_stack, dmid) < toll(s, evs, d0));
                    },
                }
            }
            self.next = self.stack.pop();
            proof {
                match self.next {
                    Some(e) => {
                        assert(self.events() =~= mid_stack);
                    },
                    None => {
                        assert(self.events() =~= mid_stack);
                    },
                }
                if emit is None {
                    assert(toll(s, self.events(), self.depth as nat) < toll(s, evs, d0));
                }
            }
            if let Some(i) = emit {
                let ghost k = self.taken@;
                proof {
                    assert(q.skip(k as int)[0] == q[k as int]);
                    assert(q[k as int] == (i, dmid));
                    assert(q.skip(k as int).len() == q.len() - k);
                    assert(k < q.len());
                }
                self.taken = Ghost((self.taken@ + 1) as nat);
                return Some((i, self.depth));
            }
        }
        proof {
            assert(self.events().len() == 0);
            assert(rem(s, self.events(), self.depth as nat) =~= Seq::<(usize, nat)>::empty());
            assert(q.skip(self.taken@ as int).len() == q.len() - self.taken@);
        }
        None
    }
}

/// Deepest depth occurring in an emission sequence (zero when empty).
pub open spec fn max_depth(q: Seq<(usize, nat)>) -> nat
    decreases q.len(),
{
    if q.len() == 0 {
        0
    } else {
        let m = max_depth(q.drop_last());
        if q.last().1 > m {
            q.last().1
        } else {
            m
        }
    }
}

impl<T> VecTree<T> {
    /// Post-order, depth-first search traversal over all the nodes of the
    /// [VecTree], starting at its root node, for simple read access: each
    /// emission is wrapped by [`VecTreePoDfsIter::next_simple`].
    pub fn iter_depth_simple(&self) -> (it: VecTreePoDfsIter)
        requires
            self@.rooted_traversable(),
        ensures
            it.valid_for(self@.structure()),
            it.plan() == postorder_of(self@.structure(), self@.root),
            it.pos() == 0,
    {
        VecTreePoDfsIter::begin(self, self.root)
    }

    /// Post-order, depth-first search traversal starting at the node of
    /// index `top`, for simple read access.
    pub fn iter_depth_simple_at(&self, top: usize) -> (it: VecTreePoDfsIter)
        requires
            traversable(self@.structure(), top),
        ensures
            it.valid_for(self@.structure()),
            it.plan() == postorder_of(self@.structure(), Some(top)),
            it.pos() == 0,
    {
        VecTreePoDfsIter::begin(self, Some(top))
    }

    /// Post-order, depth-first search traversal from the root, for full
    /// read access: each emission is wrapped by
    /// [`VecTreePoDfsIter::next_full`], whose proxy also reaches the
    /// visited node's children and subtree.
    pub fn iter_depth(&self) -> (it: VecTreePoDfsIter)
        requires
            self@.rooted_traversable(),
        ensures
            it.valid_for(self@.structure()),
            it.plan() == postorder_of(self@.structure(), self@.root),
            it.pos() == 0,
    {
        VecTreePoDfsIter::begin(self, self.root)
    }

    /// Post-order, depth-first search traversal starting at the node of
    /// index `top`, for full read access.
    pub fn iter_depth_at(&self, top: usize) -> (it: VecTreePoDfsIter)
        requires
            traversable(self@.structure(), top),
        ensures
            it.valid_for(self@.structure()),
            it.plan() == postorder_of(self@.structure(), Some(top)),
            it.pos() == 0,
    {
        VecTreePoDfsIter::begin(self, Some(top))
    }

    /// Post-order, depth-first search traversal from the root, for simple
    /// write access: each emission is wrapped by
    /// [`VecTreePoDfsIter::next_simple_mut`], and the visited payload is
    /// written through [`VecTree::get_mut`].
    pub fn iter_depth_simple_mut(&self) -> (it: VecTreePoDfsIter)
        requires
            self@.rooted_traversable(),
        ensures
            it.valid_for(self@.structure()),
            it.plan() == postorder_of(self@.structure(), self@.root),
            it.pos() == 0,
    {
        VecTreePoDfsIter::begin(self, self.root)
    }

    /// Post-order, depth-first search traversal starting at the node of
    /// index `top`, for simple write access.
    pub fn iter_depth_simple_at_mut(&self, top: usize) -> (it: VecTreePoDfsIter)
        requires
            traversable(self@.structure(), top),
        ensures
            it.valid_for(self@.structure()),
            it.plan() == postorder_of(self@.structure(), Some(top)),
            it.pos() == 0,
    {
        VecTreePoDfsIter::begin(self, Some(top))
    }

    /// Post-order, depth-first search traversal from the root, for full
    /// write access: each emission is wrapped by
    /// [`VecTreePoDfsIter::next_full_mut`], which registers the proxy
    /// with the arena's live-proxy counter.
    pub fn iter_depth_mut(&self) -> (it: VecTreePoDfsIter)
        requires
            self@.rooted_traversable(),
        ensures
            it.valid_for(self@.structure()),
            it.plan() == postorder_of(self@.structure(), self@.root),
            it.pos() == 0,
    {
        VecTreePoDfsIter::begin(self, self.root)
    }

    /// Post-order, depth-first search traversal starting at the node of
    /// index `top`, for full write access.
    pub fn iter_depth_at_mut(&self, top: usize) -> (it: VecTreePoDfsIter)
        requires
            traversable(self@.structure(), top),
        ensures
            it.valid_for(self@.structure()),
            it.plan() == postorder_of(self@.structure(), Some(top)),
            it.pos() == 0,
    {
        VecTreePoDfsIter::begin(self, Some(top))
    }

    /// Calculates the tree depth: the maximum zero-based depth emitted by
    /// a full traversal from the root, or `None` if the tree has no root.
    /// This method walks all reachable nodes, so it is O(n).
    pub fn depth(&self) -> (r: Option<usize>)
        requires
            self@.rooted_traversable(),
        ensures
            match self@.root {
                None => r is None,
                Some(_) => r is Some && r->Some_0 == max_depth(
                    postorder_of(self@.structure(), self@.root),
                ),
            },
    {
        if self.root.is_none() {
            return None;
        }
        let ghost s = self@.structure();
        let ghost q = postorder_of(s, self@.root);
        let mut it = VecTreePoDfsIter::begin(self, self.root);
        let mut best: usize = 0;
        proof {
            assert(q.take(0) =~= Seq::<(usize, nat)>::empty());
        }
        loop
            invariant
                it.valid_for(s),
                it.plan() == q,
                it.pos() <= q.len(),
                s == self@.structure(),
                q == postorder_of(s, self@.root),
                best == max_depth(q.take(it.pos() as int)),
            ensures
                best == max_depth(q),
            decreases q.len() - it.pos(),
        {
            let ghost k = it.pos();
            let step = it.advance(self);
            match step {
                Some(em) => {
                    proof {
                        assert(q.take(k as int + 1).drop_last() =~= q.take(k as int));
                        assert(q.take(k as int + 1).last() == q[k as int]);
                    }
                    if em.1 > best {
                        best = em.1;
                    }
                },
                None => {
                    proof {
                        assert(q.take(k as int) =~= q);
                    }
                    break;
                },
            }
        }
        Some(best)
    }
}

} // verus!
