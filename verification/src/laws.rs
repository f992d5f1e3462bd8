//! The laws of post-order traversal, stated and proved over the model:
//! what a traversal visits, in what order, at what depths, and — for
//! trees built purely by appending — that it visits every reachable node
//! exactly once.

use crate::model::lemma_po_list_fuel;
use crate::model::lemma_po_node_bounds;
use crate::model::lemma_po_node_depth;
use crate::model::po_fuel;
use crate::model::po_list;
use crate::model::po_node;
use crate::model::postorder;
use crate::model::postorder_of;
use crate::model::traversable;
use crate::traverse::VecTreePoDfsIter;
use crate::tree::append_built;
use crate::tree::TreeModel;
use vstd::prelude::*;

verus! {

/// Some visit strictly before position `k` is `(c, d)`.
pub open spec fn occurs_before(q: Seq<(usize, nat)>, k: int, c: usize, d: nat) -> bool {
    exists|k2: int| 0 <= k2 < k && #[trigger] q[k2] == (c, d)
}

/// Every visit of an emission sequence comes after a visit of each of
/// its children, one level deeper: the parent-before-child direction can
/// never occur in post order.
pub open spec fn children_first(s: Seq<Seq<usize>>, q: Seq<(usize, nat)>) -> bool {
    forall|k: int, j: int|
        0 <= k < q.len() && 0 <= j < s[q[k].0 as int].len() ==> occurs_before(
            q,
            k,
            (#[trigger] s[q[k].0 as int][j]),
            (q[k].1 + 1) as nat,
        )
}

/// Post order emits a node only after all of its children, each at one
/// more than the node's own depth; the subtree's own root comes last, at
/// the starting depth.
pub proof fn lemma_po_node_children_first(s: Seq<Seq<usize>>, i: usize, d: nat, fuel: nat)
    requires
        po_node(s, i, d, fuel) is Some,
    ensures
        children_first(s, po_node(s, i, d, fuel)->Some_0),
        po_node(s, i, d, fuel)->Some_0.last() == (i, d),
        po_node(s, i, d, fuel)->Some_0.len() >= 1,
    decreases fuel, 0int, 0int,
{
    let q = po_node(s, i, d, fuel)->Some_0;
    let cs = s[i as int];
    lemma_po_node_bounds(s, i, d, fuel);
    if cs.len() == 0 {
        assert(q =~= seq![(i, d)]);
        assert forall|k: int, j: int|
            0 <= k < q.len() && 0 <= j < s[q[k].0 as int].len() implies occurs_before(
            q,
            k,
            (#[trigger] s[q[k].0 as int][j]),
            (q[k].1 + 1) as nat,
        ) by {
            assert(q[k].0 == i);
            assert(s[i as int].len() == 0);
        }
    } else {
        let f1 = (fuel - 1) as nat;
        let ql = po_list(s, cs, d + 1, f1)->Some_0;
        lemma_po_list_children_first(s, cs, (d + 1) as nat, f1);
        assert(q == ql.push((i, d)));
        assert forall|k: int, j: int|
            0 <= k < q.len() && 0 <= j < s[q[k].0 as int].len() implies occurs_before(
            q,
            k,
            (#[trigger] s[q[k].0 as int][j]),
            (q[k].1 + 1) as nat,
        ) by {
            if k < ql.len() {
                assert(q[k] == ql[k]);
                assert(occurs_before(ql, k, s[ql[k].0 as int][j], (ql[k].1 + 1) as nat));
                let k2 = choose|k2: int|
                    0 <= k2 < k && #[trigger] ql[k2] == (
                        s[ql[k].0 as int][j],
                        (ql[k].1 + 1) as nat,
                    );
                assert(q[k2] == ql[k2]);
                assert(occurs_before(q, k, s[q[k].0 as int][j], (q[k].1 + 1) as nat));
            } else {
                assert(q[k] == (i, d));
                assert(occurs(ql, cs[j], (d + 1) as nat));
                let k2 = choose|k2: int|
                    0 <= k2 < ql.len() && #[trigger] ql[k2] == (cs[j], (d + 1) as nat);
                assert(q[k2] == ql[k2]);
                assert(occurs_before(q, k, s[q[k].0 as int][j], (q[k].1 + 1) as nat));
            }
        }
    }
}

/// Some visit of the sequence is `(c, d)`.
pub open spec fn occurs(q: Seq<(usize, nat)>, c: usize, d: nat) -> bool {
    exists|k: int| 0 <= k < q.len() && #[trigger] q[k] == (c, d)
}

/// `children_first` for a child list's concatenated sequence, together
/// with the fact that each listed child's own visit occurs in it, at the
/// list's depth.
pub proof fn lemma_po_list_children_first(s: Seq<Seq<usize>>, cs: Seq<usize>, d: nat, fuel: nat)
    requires
        po_list(s, cs, d, fuel) is Some,
    ensures
        children_first(s, po_list(s, cs, d, fuel)->Some_0),
        forall|t: int|
            0 <= t < cs.len() ==> occurs(po_list(s, cs, d, fuel)->Some_0, (#[trigger] cs[t]), d),
    decreases fuel, cs.len(), 1int,
{
    let ql = po_list(s, cs, d, fuel)->Some_0;
    if cs.len() == 0 {
        assert(ql =~= Seq::<(usize, nat)>::empty());
        assert(children_first(s, ql));
    } else {
        let q0 = po_node(s, cs[0], d, fuel)->Some_0;
        let q1 = po_list(s, cs.drop_first(), d, fuel)->Some_0;
        assert(ql == q0 + q1);
        lemma_po_node_children_first(s, cs[0], d, fuel);
        lemma_po_list_children_first(s, cs.drop_first(), d, fuel);
        assert forall|k: int, j: int|
            0 <= k < ql.len() && 0 <= j < s[ql[k].0 as int].len() implies occurs_before(
            ql,
            k,
            (#[trigger] s[ql[k].0 as int][j]),
            (ql[k].1 + 1) as nat,
        ) by {
            if k < q0.len() {
                assert(ql[k] == q0[k]);
                assert(occurs_before(q0, k, s[q0[k].0 as int][j], (q0[k].1 + 1) as nat));
                let k2 = choose|k2: int|
                    0 <= k2 < k && #[trigger] q0[k2] == (
                        s[q0[k].0 as int][j],
                        (q0[k].1 + 1) as nat,
                    );
                assert(ql[k2] == q0[k2]);
                assert(occurs_before(ql, k, s[ql[k].0 as int][j], (ql[k].1 + 1) as nat));
            } else {
                let kk = k - q0.len();
                assert(ql[k] == q1[kk]);
                assert(occurs_before(q1, kk, s[q1[kk].0 as int][j], (q1[kk].1 + 1) as nat));
                let k2 = choose|k2: int|
                    0 <= k2 < kk && #[trigger] q1[k2] == (
                        s[q1[kk].0 as int][j],
                        (q1[kk].1 + 1) as nat,
                    );
                assert(ql[k2 + q0.len()] == q1[k2]);
                assert(occurs_before(ql, k, s[ql[k].0 as int][j], (ql[k].1 + 1) as nat));
            }
        }
        assert forall|t: int| 0 <= t < cs.len() implies occurs(ql, (#[trigger] cs[t]), d) by {
            if t == 0 {
                lemma_po_node_bounds(s, cs[0], d, fuel);
                assert(ql[q0.len() - 1] == q0.last());
                assert(ql[q0.len() - 1] == (cs[0], d));
            } else {
                let cs1 = cs.drop_first();
                assert(cs1[t - 1] == cs[t]);
                assert(occurs(q1, cs1[t - 1], d));
                let k = choose|k: int| 0 <= k < q1.len() && #[trigger] q1[k] == (cs1[t - 1], d);
                assert(ql[k + q0.len()] == q1[k]);
                assert(ql[k + q0.len()] == (cs[t], d));
            }
        }
    }
}

/// Whether `p` is recorded as a parent of `x` in the arena's structure.
pub open spec fn is_parent(s: Seq<Seq<usize>>, p: usize, x: usize) -> bool {
    exists|j: int| 0 <= j < s[p as int].len() && p < s.len() && #[trigger] s[p as int][j] == x
}

/// Whether `x` has any parent in the arena's structure.
pub open spec fn has_parent(s: Seq<Seq<usize>>, x: usize) -> bool {
    exists|p: usize| is_parent(s, p, x)
}

/// The parent of `x` (meaningful under `append_built`, where it is
/// unique).
pub open spec fn parent_of(s: Seq<Seq<usize>>, x: usize) -> usize {
    choose|p: usize| is_parent(s, p, x)
}

/// `a` is an ancestor of `x` (or `x` itself), following the parent chain.
/// In an append-built arena every parent precedes its child, so the chain
/// strictly descends and the recursion is well founded.
pub open spec fn is_above(s: Seq<Seq<usize>>, x: usize, a: usize) -> bool
    decreases x,
{
    x == a || (has_parent(s, x) && parent_of(s, x) < x && is_above(s, parent_of(s, x), a))
}

/// Under `append_built` the parent is unique, so `parent_of` returns it.
pub proof fn lemma_parent_unique(s: Seq<Seq<usize>>, p: usize, x: usize)
    requires
        append_built(s),
        p < s.len(),
        is_parent(s, p, x),
    ensures
        has_parent(s, x),
        parent_of(s, x) == p,
        p < x,
{
    let pc = parent_of(s, x);
    assert(is_parent(s, pc, x));
    let j1 = choose|j: int| 0 <= j < s[p as int].len() && p < s.len() && s[p as int][j] == x;
    let j2 = choose|j: int| 0 <= j < s[pc as int].len() && pc < s.len() && s[pc as int][j] == x;
    assert(s[p as int][j1] == s[pc as int][j2]);
}

/// Chains extend: an ancestor of the parent is an ancestor of the child.
pub proof fn lemma_above_step(s: Seq<Seq<usize>>, x: usize, p: usize, a: usize)
    requires
        append_built(s),
        p < s.len(),
        is_parent(s, p, x),
        is_above(s, p, a),
    ensures
        is_above(s, x, a),
{
    lemma_parent_unique(s, p, x);
    if x != a {
        assert(has_parent(s, x) && parent_of(s, x) == p && p < x);
    }
}

/// The parent chain only descends: an ancestor never has a larger index
/// than its descendant.
pub proof fn lemma_above_le(s: Seq<Seq<usize>>, x: usize, a: usize)
    requires
        is_above(s, x, a),
    ensures
        a <= x,
    decreases x,
{
    if x != a {
        lemma_above_le(s, parent_of(s, x), a);
    }
}

/// Parent chains are linear: two ancestors of one node are themselves in
/// the ancestor relation, one way or the other.
pub proof fn lemma_above_linear(s: Seq<Seq<usize>>, x: usize, a: usize, b: usize)
    requires
        is_above(s, x, a),
        is_above(s, x, b),
    ensures
        is_above(s, a, b) || is_above(s, b, a),
    decreases x,
{
    if x == a {
        // b is an ancestor of a
    } else if x == b {
        // a is an ancestor of b
    } else {
        lemma_above_linear(s, parent_of(s, x), a, b);
    }
}

/// Subtrees of two distinct children of one node are disjoint: no node is
/// below both, because its parent chain is unique.
pub proof fn lemma_siblings_disjoint(
    s: Seq<Seq<usize>>,
    i: usize,
    c1: usize,
    c2: usize,
    x: usize,
)
    requires
        append_built(s),
        i < s.len(),
        is_parent(s, i, c1),
        is_parent(s, i, c2),
        c1 != c2,
        is_above(s, x, c1),
    ensures
        !is_above(s, x, c2),
{
    if is_above(s, x, c2) {
        lemma_above_linear(s, x, c1, c2);
        if is_above(s, c1, c2) {
            assert(c1 != c2);
            lemma_parent_unique(s, i, c1);
            assert(is_above(s, i, c2));
            lemma_above_le(s, i, c2);
            lemma_parent_unique(s, i, c2);
        } else {
            assert(c1 != c2);
            lemma_parent_unique(s, i, c2);
            assert(is_above(s, i, c1));
            lemma_above_le(s, i, c1);
            lemma_parent_unique(s, i, c1);
        }
    }
}

/// Everything the post-order sequence under `i` visits lies below `i` on
/// the parent chain.
pub proof fn lemma_po_node_members_below(s: Seq<Seq<usize>>, i: usize, d: nat, fuel: nat)
    requires
        append_built(s),
        po_node(s, i, d, fuel) is Some,
    ensures
        forall|k: int|
            0 <= k < po_node(s, i, d, fuel)->Some_0.len() ==> is_above(
                s,
                (#[trigger] po_node(s, i, d, fuel)->Some_0[k]).0,
                i,
            ),
    decreases fuel, 0int, 0int,
{
    let q = po_node(s, i, d, fuel)->Some_0;
    let cs = s[i as int];
    if cs.len() == 0 {
        assert(q =~= seq![(i, d)]);
    } else {
        let f1 = (fuel - 1) as nat;
        let ql = po_list(s, cs, (d + 1) as nat, f1)->Some_0;
        lemma_po_list_members_below(s, i, cs, (d + 1) as nat, f1);
        assert(q == ql.push((i, d)));
        assert forall|k: int| 0 <= k < q.len() implies is_above(
            s,
            (#[trigger] q[k]).0,
            i,
        ) by {
            if k < ql.len() {
                assert(q[k] == ql[k]);
            } else {
                assert(q[k] == (i, d));
            }
        }
    }
}

/// Subtree membership, for child lists: everything visited under a list
/// of children of `i` lies below `i`.
pub proof fn lemma_po_list_members_below(
    s: Seq<Seq<usize>>,
    i: usize,
    cs: Seq<usize>,
    d: nat,
    fuel: nat,
)
    requires
        append_built(s),
        i < s.len(),
        forall|t: int| 0 <= t < cs.len() ==> is_parent(s, i, #[trigger] cs[t]),
        po_list(s, cs, d, fuel) is Some,
    ensures
        forall|k: int|
            0 <= k < po_list(s, cs, d, fuel)->Some_0.len() ==> is_above(
                s,
                (#[trigger] po_list(s, cs, d, fuel)->Some_0[k]).0,
                i,
            ),
    decreases fuel, cs.len(), 1int,
{
    let ql = po_list(s, cs, d, fuel)->Some_0;
    if cs.len() > 0 {
        let q0 = po_node(s, cs[0], d, fuel)->Some_0;
        let q1 = po_list(s, cs.drop_first(), d, fuel)->Some_0;
        assert(ql == q0 + q1);
        lemma_po_node_members_below(s, cs[0], d, fuel);
        lemma_po_list_members_below(s, i, cs.drop_first(), d, fuel);
        assert forall|k: int| 0 <= k < ql.len() implies is_above(
            s,
            (#[trigger] ql[k]).0,
            i,
        ) by {
            if k < q0.len() {
                assert(ql[k] == q0[k]);
                assert(is_above(s, q0[k].0, cs[0]));
                lemma_above_step_chain(s, q0[k].0, cs[0], i);
            } else {
                assert(ql[k] == q1[k - q0.len()]);
            }
        }
    }
}

/// Whatever is below a child is below the parent.
pub proof fn lemma_above_step_chain(s: Seq<Seq<usize>>, x: usize, c: usize, i: usize)
    requires
        append_built(s),
        i < s.len(),
        is_parent(s, i, c),
        is_above(s, x, c),
    ensures
        is_above(s, x, i),
    decreases x,
{
    if x == c {
        lemma_above_step(s, c, i, i);
    } else {
        lemma_above_step_chain(s, parent_of(s, x), c, i);
        assert(is_above(s, x, i));
    }
}

/// In an arena built purely by appending — every child created after its
/// parent, no slot attached as a child twice — a post-order traversal
/// visits no slot more than once.
pub proof fn lemma_po_node_unique(s: Seq<Seq<usize>>, i: usize, d: nat, fuel: nat)
    requires
        append_built(s),
        po_node(s, i, d, fuel) is Some,
    ensures
        forall|k1: int, k2: int|
            0 <= k1 < k2 < po_node(s, i, d, fuel)->Some_0.len() ==> (#[trigger] po_node(
                s,
                i,
                d,
                fuel,
            )->Some_0[k1]).0 != (#[trigger] po_node(s, i, d, fuel)->Some_0[k2]).0,
    decreases fuel, 0int, 0int,
{
    let q = po_node(s, i, d, fuel)->Some_0;
    let cs = s[i as int];
    if cs.len() == 0 {
        assert(q =~= seq![(i, d)]);
    } else {
        let f1 = (fuel - 1) as nat;
        let ql = po_list(s, cs, (d + 1) as nat, f1)->Some_0;
        assert(q == ql.push((i, d)));
        lemma_po_list_unique(s, i, cs, (d + 1) as nat, f1);
        lemma_po_list_members_below(s, i, cs, (d + 1) as nat, f1);
        assert forall|k1: int, k2: int|
            0 <= k1 < k2 < q.len() implies (#[trigger] q[k1]).0 != (#[trigger] q[k2]).0 by {
            if k2 < ql.len() {
                assert(q[k1] == ql[k1] && q[k2] == ql[k2]);
            } else {
                assert(q[k2] == (i, d));
                assert(q[k1] == ql[k1]);
                // everything in the child part lies strictly below i
                assert(is_above(s, ql[k1].0, i));
                if ql[k1].0 == i {
                    lemma_list_member_above_child(s, i, cs, (d + 1) as nat, f1, k1);
                }
            }
        }
    }
}

/// A visit in a child list's sequence lies below one of the listed
/// children, which is strictly greater than the common parent.
pub proof fn lemma_list_member_above_child(
    s: Seq<Seq<usize>>,
    i: usize,
    cs: Seq<usize>,
    d: nat,
    fuel: nat,
    k: int,
)
    requires
        append_built(s),
        i < s.len(),
        forall|t: int| 0 <= t < cs.len() ==> is_parent(s, i, #[trigger] cs[t]),
        po_list(s, cs, d, fuel) is Some,
        0 <= k < po_list(s, cs, d, fuel)->Some_0.len(),
    ensures
        exists|t: int|
            0 <= t < cs.len() && is_above(
                s,
                po_list(s, cs, d, fuel)->Some_0[k].0,
                #[trigger] cs[t],
            ),
        po_list(s, cs, d, fuel)->Some_0[k].0 > i,
    decreases fuel, cs.len(), 1int,
{
    let ql = po_list(s, cs, d, fuel)->Some_0;
    let q0 = po_node(s, cs[0], d, fuel)->Some_0;
    let q1 = po_list(s, cs.drop_first(), d, fuel)->Some_0;
    assert(ql == q0 + q1);
    if k < q0.len() {
        lemma_po_node_members_below(s, cs[0], d, fuel);
        assert(ql[k] == q0[k]);
        assert(is_above(s, ql[k].0, cs[0]));
        lemma_above_le(s, ql[k].0, cs[0]);
        lemma_parent_unique(s, i, cs[0]);
    } else {
        lemma_list_member_above_child(s, i, cs.drop_first(), d, fuel, k - q0.len());
        assert(ql[k] == q1[k - q0.len()]);
        let t = choose|t: int|
            0 <= t < cs.drop_first().len() && is_above(s, q1[k - q0.len()].0, cs.drop_first()[t]);
        assert(cs.drop_first()[t] == cs[t + 1]);
        assert(0 <= t + 1 < cs.len() && is_above(s, ql[k].0, cs[t + 1]));
    }
}

/// Distinct visits across a whole child list: within one child's subtree
/// by induction, across children because sibling subtrees are disjoint.
pub proof fn lemma_po_list_unique(s: Seq<Seq<usize>>, i: usize, cs: Seq<usize>, d: nat, fuel: nat)
    requires
        append_built(s),
        i < s.len(),
        forall|t: int| 0 <= t < cs.len() ==> is_parent(s, i, #[trigger] cs[t]),
        forall|t1: int, t2: int| 0 <= t1 < t2 < cs.len() ==> #[trigger] cs[t1] != #[trigger] cs[t2],
        po_list(s, cs, d, fuel) is Some,
    ensures
        forall|k1: int, k2: int|
            0 <= k1 < k2 < po_list(s, cs, d, fuel)->Some_0.len() ==> (#[trigger] po_list(
                s,
                cs,
                d,
                fuel,
            )->Some_0[k1]).0 != (#[trigger] po_list(s, cs, d, fuel)->Some_0[k2]).0,
    decreases fuel, cs.len(), 1int,
{
    let ql = po_list(s, cs, d, fuel)->Some_0;
    if cs.len() > 0 {
        let c0 = cs[0];
        let cs1 = cs.drop_first();
        let q0 = po_node(s, c0, d, fuel)->Some_0;
        let q1 = po_list(s, cs1, d, fuel)->Some_0;
        assert(ql == q0 + q1);
        lemma_po_node_unique(s, c0, d, fuel);
        assert(forall|t1: int, t2: int|
            0 <= t1 < t2 < cs1.len() ==> #[trigger] cs1[t1] != #[trigger] cs1[t2]) by {
            assert(forall|t: int| 0 <= t < cs1.len() ==> #[trigger] cs1[t] == cs[t + 1]);
        }
        lemma_po_list_unique(s, i, cs1, d, fuel);
        lemma_po_node_members_below(s, c0, d, fuel);
        assert forall|k1: int, k2: int|
            0 <= k1 < k2 < ql.len() implies (#[trigger] ql[k1]).0 != (#[trigger] ql[k2]).0 by {
            if k2 < q0.len() {
                assert(ql[k1] == q0[k1] && ql[k2] == q0[k2]);
            } else if k1 >= q0.len() {
                assert(ql[k1] == q1[k1 - q0.len()] && ql[k2] == q1[k2 - q0.len()]);
            } else {
                // one visit in the first child's subtree, one in a later
                // sibling's: the subtrees share no slot
                assert(ql[k1] == q0[k1]);
                assert(ql[k2] == q1[k2 - q0.len()]);
                assert(is_above(s, ql[k1].0, c0));
                lemma_list_member_above_child(s, i, cs1, d, fuel, k2 - q0.len());
                let t = choose|t: int|
                    0 <= t < cs1.len() && is_above(s, q1[k2 - q0.len()].0, cs1[t]);
                assert(cs1[t] == cs[t + 1]);
                assert(cs[t + 1] != c0);
                if ql[k1].0 == ql[k2].0 {
                    lemma_siblings_disjoint(s, i, c0, cs[t + 1], ql[k1].0);
                }
            }
        }
    }
}

/// For any tree built purely by append operations, the post-order
/// traversal from a traversable start visits every reachable node exactly
/// once — at least once because the visited set contains the start and,
/// by `children_first`, every visited node's children; at most once by
/// `lemma_po_node_unique` — emits a node only after all of its children,
/// each child one level deeper than its parent, and emits the start
/// itself last, at depth zero.
pub proof fn lemma_postorder_visits_once(s: Seq<Seq<usize>>, r: usize)
    requires
        append_built(s),
        traversable(s, r),
    ensures
        children_first(s, postorder(s, r)),
        postorder(s, r).len() >= 1,
        postorder(s, r).last() == (r, 0nat),
        forall|k1: int, k2: int|
            0 <= k1 < k2 < postorder(s, r).len() ==> (#[trigger] postorder(s, r)[k1]).0 != (
            #[trigger] postorder(s, r)[k2]).0,
{
    lemma_po_node_children_first(s, r, 0, po_fuel(s));
    lemma_po_node_unique(s, r, 0, po_fuel(s));
}

/// Re-traversing an unmodified arena from the same start is
/// deterministic: the planned emission sequence is a function of the
/// arena's children-structure and the start index alone, and
/// [`VecTreePoDfsIter::advance`] is proved to emit exactly that plan,
/// entry by entry. Two traversals over the same structure from the same
/// start therefore yield the same index and depth sequences.
pub proof fn lemma_traversal_deterministic(
    t1: VecTreePoDfsIter,
    t2: VecTreePoDfsIter,
    s: Seq<Seq<usize>>,
    start: Option<usize>,
)
    requires
        t1.plan() == postorder_of(s, start),
        t2.plan() == postorder_of(s, start),
    ensures
        t1.plan() == t2.plan(),
{
}

/// Total size of the post-order sequences of the subtrees under the
/// indices of `cs`.
pub open spec fn subtree_sizes(s: Seq<Seq<usize>>, cs: Seq<usize>) -> nat
    decreases cs.len(),
{
    if cs.len() == 0 {
        0
    } else {
        postorder(s, cs[0]).len() + subtree_sizes(s, cs.drop_first())
    }
}

/// Summing the subtree sizes of a node's children accounts for every
/// visit under the node except the node itself: the subtree's size is one
/// more than its children's subtree sizes combined.
pub proof fn lemma_subtree_sizes(s: Seq<Seq<usize>>, i: usize)
    requires
        traversable(s, i),
    ensures
        postorder(s, i).len() == 1 + subtree_sizes(s, s[i as int]),
{
    let f = po_fuel(s);
    let cs = s[i as int];
    if cs.len() == 0 {
        assert(postorder(s, i) =~= seq![(i, 0nat)]);
        assert(subtree_sizes(s, cs) == 0);
    } else {
        let f1 = (f - 1) as nat;
        lemma_po_list_fuel(s, cs, 1, f1, f);
        lemma_sizes_match(s, cs, 1, f);
    }
}

/// The concatenated sequence of a child list is exactly as long as the
/// children's own subtree sequences combined.
pub proof fn lemma_sizes_match(s: Seq<Seq<usize>>, cs: Seq<usize>, d: nat, fuel: nat)
    requires
        fuel == po_fuel(s),
        po_list(s, cs, d, fuel) is Some,
    ensures
        po_list(s, cs, d, fuel)->Some_0.len() == subtree_sizes(s, cs),
    decreases cs.len(),
{
    if cs.len() > 0 {
        let q0 = po_node(s, cs[0], d, fuel)->Some_0;
        let q1 = po_list(s, cs.drop_first(), d, fuel)->Some_0;
        assert(po_list(s, cs, d, fuel)->Some_0 == q0 + q1);
        lemma_po_node_depth(s, cs[0], d, 0, fuel);
        lemma_sizes_match(s, cs.drop_first(), d, fuel);
        assert(q0.len() == postorder(s, cs[0]).len());
    }
}

/// The empty arena is append-built, and appending a node under an
/// existing parent (or under none) keeps an arena append-built: the new
/// slot is created after its parent and attached exactly once. Trees
/// assembled with [`crate::VecTree::add`] and
/// [`crate::VecTree::add_root`] alone therefore always satisfy
/// `append_built`, which is the hypothesis of
/// [`lemma_postorder_visits_once`].
pub proof fn lemma_grown_append_built<T>(m: TreeModel<T>, parent: Option<usize>, data: T)
    requires
        append_built(m.structure()),
        m.nodes.len() < usize::MAX,
        match parent {
            Some(p) => p < m.nodes.len(),
            None => true,
        },
    ensures
        append_built(m.grown(parent, data).structure()),
        append_built(Seq::<Seq<usize>>::empty()),
{
    let s = m.structure();
    let s2 = m.grown(parent, data).structure();
    let n = s.len() as int;
    assert(s2.len() == n + 1);
    match parent {
        Some(p) => {
            assert(s2[p as int] =~= s[p as int].push(n as usize));
            assert(s2[n] =~= Seq::<usize>::empty());
            assert(forall|t: int| 0 <= t < n && t != p ==> s2[t] == #[trigger] s[t]);
            assert forall|i: int, j: int|
                0 <= i < s2.len() && 0 <= j < s2[i].len() implies i < #[trigger] s2[i][j]
                && s2[i][j] < s2.len() by {
                if i == p && j == s[p as int].len() {
                    assert(s2[i][j] == n);
                } else {
                    assert(s2[i][j] == s[i][j]);
                }
            }
            assert forall|i1: int, j1: int, i2: int, j2: int|
                0 <= i1 < s2.len() && 0 <= j1 < s2[i1].len() && 0 <= i2 < s2.len() && 0 <= j2
                < s2[i2].len() && #[trigger] s2[i1][j1] == #[trigger] s2[i2][j2] implies i1 == i2
                && j1 == j2 by {
                let new1 = i1 == p && j1 == s[p as int].len();
                let new2 = i2 == p && j2 == s[p as int].len();
                if new1 && !new2 {
                    assert(s2[i2][j2] == s[i2][j2]);
                    assert(s[i2][j2] < n);
                } else if !new1 && new2 {
                    assert(s2[i1][j1] == s[i1][j1]);
                    assert(s[i1][j1] < n);
                } else if !new1 && !new2 {
                    assert(s2[i1][j1] == s[i1][j1]);
                    assert(s2[i2][j2] == s[i2][j2]);
                }
            }
        },
        None => {
            assert(s2[n] =~= Seq::<usize>::empty());
            assert(forall|t: int| 0 <= t < n ==> s2[t] == #[trigger] s[t]);
            assert forall|i: int, j: int|
                0 <= i < s2.len() && 0 <= j < s2[i].len() implies i < #[trigger] s2[i][j]
                && s2[i][j] < s2.len() by {
                assert(s2[i][j] == s[i][j]);
            }
            assert forall|i1: int, j1: int, i2: int, j2: int|
                0 <= i1 < s2.len() && 0 <= j1 < s2[i1].len() && 0 <= i2 < s2.len() && 0 <= j2
                < s2[i2].len() && #[trigger] s2[i1][j1] == #[trigger] s2[i2][j2] implies i1 == i2
                && j1 == j2 by {
                assert(s2[i1][j1] == s[i1][j1]);
                assert(s2[i2][j2] == s[i2][j2]);
            }
        },
    }
}

/// Definedness of post order for arenas whose child links all point
/// forward: the chain of nested subtrees climbs strictly, so the fuel
/// margin above the start index covers the nesting.
proof fn lemma_forward_node_defined(s: Seq<Seq<usize>>, i: usize, d: nat, fuel: nat)
    requires
        forall|a: int, b: int|
            0 <= a < s.len() && 0 <= b < s[a].len() ==> a < #[trigger] s[a][b] < s.len(),
        i < s.len(),
        fuel > s.len() - i,
    ensures
        po_node(s, i, d, fuel) is Some,
    decreases fuel, 0int, 0int,
{
    let cs = s[i as int];
    if cs.len() > 0 {
        lemma_forward_list_defined(s, i, cs, (d + 1) as nat, (fuel - 1) as nat);
    }
}

/// Definedness of post order for child lists whose entries all lie
/// strictly above a common bound.
proof fn lemma_forward_list_defined(
    s: Seq<Seq<usize>>,
    bound: usize,
    cs: Seq<usize>,
    d: nat,
    fuel: nat,
)
    requires
        forall|a: int, b: int|
            0 <= a < s.len() && 0 <= b < s[a].len() ==> a < #[trigger] s[a][b] < s.len(),
        bound < s.len(),
        forall|t: int| 0 <= t < cs.len() ==> bound < #[trigger] cs[t] < s.len(),
        fuel > s.len() - bound - 1,
    ensures
        po_list(s, cs, d, fuel) is Some,
    decreases fuel, cs.len(), 1int,
{
    if cs.len() > 0 {
        lemma_forward_node_defined(s, cs[0], d, fuel);
        lemma_forward_list_defined(s, bound, cs.drop_first(), d, fuel);
    }
}

/// Every slot of an append-built arena is traversable: child links only
/// point forward, so no reachable region can nest deeper than the arena
/// is long. Together with [`lemma_grown_append_built`] this discharges
/// the traversal entry points' preconditions for trees assembled purely
/// by appending.
pub proof fn lemma_append_built_traversable(s: Seq<Seq<usize>>, r: usize)
    requires
        append_built(s),
        r < s.len(),
    ensures
        traversable(s, r),
{
    lemma_forward_node_defined(s, r, 0, po_fuel(s));
}

} // verus!
