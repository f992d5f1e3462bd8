//! The subtree copy algorithm.
//!
//! A copy consumes a post-order traversal of a source subtree and replays
//! it into a destination arena with an assembly stack of destination
//! indices: each emission pops as many entries as the visited node has
//! children — post-order guarantees those are exactly the destination
//! roots of its child subtrees — and pushes the node built from them.
//!
//! The discipline is modelled by [`replay`]: a ghost stack of
//! [`RepEntry`] records (source index, depth and subtree size per
//! completed subtree). [`lemma_replay_po_node`] shows that replaying a
//! whole post-order sequence always succeeds and collapses the stack to
//! exactly one entry, which is why the executable copy needs no failure
//! path for malformed input: a traversal of a traversable subtree can
//! never produce one.

use crate::model::lemma_po_node_bounds;
use crate::model::lemma_po_node_fuel;
use crate::model::po_fuel;
use crate::model::po_list;
use crate::model::po_node;
use crate::model::postorder;
use crate::model::traversable;
use crate::traverse::VecTreePoDfsIter;
use crate::tree::NodeModel;
use crate::tree::TreeModel;
use crate::tree::VecTree;
use vstd::prelude::*;

verus! {

/// A completed subtree on the (ghost) assembly stack: the source index of
/// its root, the depth the root was emitted at, and the number of visits
/// its post-order sequence takes up.
#[verifier::ext_equal]
pub struct RepEntry {
    pub idx: usize,
    pub depth: nat,
    pub size: nat,
}

/// Total of the subtree sizes on an assembly stack.
pub open spec fn sizes_sum(st: Seq<RepEntry>) -> nat
    decreases st.len(),
{
    if st.len() == 0 {
        0
    } else {
        sizes_sum(st.drop_last()) + st.last().size
    }
}

/// One step of the assembly discipline on emission `e`: pop one entry per
/// child of the visited node — they must be exactly its children, one
/// level deeper — and push the completed subtree.
pub open spec fn rep_step(s: Seq<Seq<usize>>, st: Seq<RepEntry>, e: (usize, nat)) -> Option<
    Seq<RepEntry>,
> {
    if e.0 >= s.len() {
        None
    } else {
        let k = s[e.0 as int].len() as int;
        if st.len() < k {
            None
        } else {
            let popped = st.skip(st.len() - k);
            if popped.map_values(|en: RepEntry| en.idx) == s[e.0 as int] && (forall|t: int|
                0 <= t < popped.len() ==> (#[trigger] popped[t]).depth == e.1 + 1) {
                Some(
                    st.take(st.len() - k).push(
                        RepEntry { idx: e.0, depth: e.1, size: sizes_sum(popped) + 1 },
                    ),
                )
            } else {
                None
            }
        }
    }
}

/// The assembly discipline folded over an emission sequence.
pub open spec fn replay(s: Seq<Seq<usize>>, q: Seq<(usize, nat)>, st: Seq<RepEntry>) -> Option<
    Seq<RepEntry>,
>
    decreases q.len(),
{
    if q.len() == 0 {
        Some(st)
    } else {
        match rep_step(s, st, q[0]) {
            Some(st2) => replay(s, q.drop_first(), st2),
            None => None,
        }
    }
}

/// Subtree sizes add up over stack concatenation.
pub proof fn lemma_sizes_sum_concat(a: Seq<RepEntry>, b: Seq<RepEntry>)
    ensures
        sizes_sum(a + b) == sizes_sum(a) + sizes_sum(b),
    decreases b.len(),
{
    if b.len() == 0 {
        assert(a + b =~= a);
    } else {
        lemma_sizes_sum_concat(a, b.drop_last());
        assert((a + b).drop_last() =~= a + b.drop_last());
        assert((a + b).last() == b.last());
    }
}

/// Replaying a concatenation is replaying the parts in order.
pub proof fn lemma_replay_concat(
    s: Seq<Seq<usize>>,
    q1: Seq<(usize, nat)>,
    q2: Seq<(usize, nat)>,
    st: Seq<RepEntry>,
)
    ensures
        replay(s, q1 + q2, st) == (match replay(s, q1, st) {
            Some(m) => replay(s, q2, m),
            None => None,
        }),
    decreases q1.len(),
{
    if q1.len() == 0 {
        assert(q1 + q2 =~= q2);
    } else {
        assert((q1 + q2)[0] == q1[0]);
        match rep_step(s, st, q1[0]) {
            Some(st2) => {
                assert((q1 + q2).drop_first() =~= q1.drop_first() + q2);
                lemma_replay_concat(s, q1.drop_first(), q2, st2);
            },
            None => {
                assert((q1 + q2).len() > 0);
            },
        }
    }
}

/// The stack entries that a child list's post-order sequence leaves on
/// the assembly stack: one completed subtree per child, in order.
pub open spec fn kid_entries(s: Seq<Seq<usize>>, cs: Seq<usize>, d: nat, fuel: nat) -> Seq<
    RepEntry,
> {
    Seq::new(
        cs.len(),
        |j: int|
            RepEntry {
                idx: cs[j],
                depth: d,
                size: po_node(s, cs[j], d, fuel)->Some_0.len(),
            },
    )
}

/// Replaying the post-order sequence of a traversable subtree always
/// succeeds and pushes exactly one completed subtree, whose size is the
/// length of that sequence.
pub proof fn lemma_replay_po_node(
    s: Seq<Seq<usize>>,
    i: usize,
    d: nat,
    fuel: nat,
    st: Seq<RepEntry>,
)
    requires
        po_node(s, i, d, fuel) is Some,
    ensures
        replay(s, po_node(s, i, d, fuel)->Some_0, st) == Some(
            st.push(RepEntry { idx: i, depth: d, size: po_node(s, i, d, fuel)->Some_0.len() }),
        ),
    decreases fuel, 0int, 0int,
{
    let q = po_node(s, i, d, fuel)->Some_0;
    let cs = s[i as int];
    if cs.len() == 0 {
        assert(q =~= seq![(i, d)]);
        let st2 = rep_step(s, st, (i, d));
        assert(st.skip(st.len() as int) =~= Seq::<RepEntry>::empty());
        assert(st.skip(st.len() as int).map_values(|en: RepEntry| en.idx) =~= cs);
        assert(st.take(st.len() as int) =~= st);
        assert(sizes_sum(Seq::<RepEntry>::empty()) == 0);
        assert(st2 == Some(st.push(RepEntry { idx: i, depth: d, size: 1 })));
        assert(q.drop_first() =~= Seq::<(usize, nat)>::empty());
        let stf = st.push(RepEntry { idx: i, depth: d, size: 1 });
        assert(replay(s, Seq::<(usize, nat)>::empty(), stf) == Some(stf));
        assert(q[0] == (i, d));
        assert(replay(s, q, st) == Some(stf));
    } else {
        let f1 = (fuel - 1) as nat;
        let ql = po_list(s, cs, d + 1, f1)->Some_0;
        lemma_replay_po_list(s, cs, d + 1, f1, st);
        let ge = kid_entries(s, cs, d + 1, f1);
        let mid = st + ge;
        assert(q =~= ql + seq![(i, d)]);
        lemma_replay_concat(s, ql, seq![(i, d)], st);
        // the final emission pops exactly the child entries
        assert(mid.len() - cs.len() == st.len());
        assert(mid.skip(st.len() as int) =~= ge);
        assert(mid.take(st.len() as int) =~= st);
        assert(ge.map_values(|en: RepEntry| en.idx) =~= cs);
        assert(forall|t: int| 0 <= t < ge.len() ==> (#[trigger] ge[t]).depth == d + 1);
        assert(sizes_sum(ge) == ql.len());
        let e = RepEntry { idx: i, depth: d, size: (ql.len() + 1) as nat };
        assert(rep_step(s, mid, (i, d)) == Some(st.push(e)));
        assert(seq![(i, d)].drop_first() =~= Seq::<(usize, nat)>::empty());
        assert(replay(s, Seq::<(usize, nat)>::empty(), st.push(e)) == Some(st.push(e)));
        assert(seq![(i, d)][0] == (i, d));
        assert(replay(s, seq![(i, d)], mid) == Some(st.push(e)));
        assert(q.len() == ql.len() + 1);
    }
}

/// Replaying the concatenated post-order sequences of a child list leaves
/// one completed subtree per child on the stack, in order, their sizes
/// summing to the sequence's length.
pub proof fn lemma_replay_po_list(
    s: Seq<Seq<usize>>,
    cs: Seq<usize>,
    d: nat,
    fuel: nat,
    st: Seq<RepEntry>,
)
    requires
        po_list(s, cs, d, fuel) is Some,
    ensures
        replay(s, po_list(s, cs, d, fuel)->Some_0, st) == Some(st + kid_entries(s, cs, d, fuel)),
        sizes_sum(kid_entries(s, cs, d, fuel)) == po_list(s, cs, d, fuel)->Some_0.len(),
    decreases fuel, cs.len(), 1int,
{
    let ql = po_list(s, cs, d, fuel)->Some_0;
    let ge = kid_entries(s, cs, d, fuel);
    if cs.len() == 0 {
        assert(ql =~= Seq::<(usize, nat)>::empty());
        assert(ge =~= Seq::<RepEntry>::empty());
        assert(st + ge =~= st);
    } else {
        let q0 = po_node(s, cs[0], d, fuel)->Some_0;
        let q1 = po_list(s, cs.drop_first(), d, fuel)->Some_0;
        assert(ql == q0 + q1);
        lemma_replay_po_node(s, cs[0], d, fuel, st);
        let e0 = RepEntry { idx: cs[0], depth: d, size: q0.len() };
        lemma_replay_concat(s, q0, q1, st);
        lemma_replay_po_list(s, cs.drop_first(), d, fuel, st.push(e0));
        let ge1 = kid_entries(s, cs.drop_first(), d, fuel);
        assert(st.push(e0) + ge1 =~= st + ge);
        assert(ge =~= seq![e0] + ge1);
        lemma_sizes_sum_concat(seq![e0], ge1);
        assert(sizes_sum(seq![e0]) == q0.len()) by {
            assert(seq![e0].drop_last() =~= Seq::<RepEntry>::empty());
            assert(sizes_sum(Seq::<RepEntry>::empty()) == 0);
        }
    }
}

/// The post-order sequence of a subtree only reads the child lists of the
/// slots it visits, so it is unchanged in any arena at least as long that
/// agrees on those slots.
pub proof fn lemma_po_node_frame(
    s1: Seq<Seq<usize>>,
    s2: Seq<Seq<usize>>,
    i: usize,
    d: nat,
    fuel: nat,
)
    requires
        po_node(s1, i, d, fuel) is Some,
        s2.len() >= s1.len(),
        forall|k: int|
            0 <= k < po_node(s1, i, d, fuel)->Some_0.len() ==> {
                let v = (#[trigger] po_node(s1, i, d, fuel)->Some_0[k]).0;
                s2[v as int] == s1[v as int]
            },
    ensures
        po_node(s2, i, d, fuel) == po_node(s1, i, d, fuel),
    decreases fuel, 0int, 0int,
{
    let q = po_node(s1, i, d, fuel)->Some_0;
    let cs = s1[i as int];
    lemma_po_node_bounds(s1, i, d, fuel);
    assert(q[q.len() - 1] == (i, d));
    assert(s2[i as int] == s1[i as int]);
    if cs.len() > 0 {
        let f1 = (fuel - 1) as nat;
        let ql = po_list(s1, cs, d + 1, f1)->Some_0;
        assert(forall|k: int| 0 <= k < ql.len() ==> ql[k] == q[k]);
        lemma_po_list_frame(s1, s2, cs, (d + 1) as nat, f1);
    }
}

/// Frame property of [`lemma_po_node_frame`], for child lists.
pub proof fn lemma_po_list_frame(
    s1: Seq<Seq<usize>>,
    s2: Seq<Seq<usize>>,
    cs: Seq<usize>,
    d: nat,
    fuel: nat,
)
    requires
        po_list(s1, cs, d, fuel) is Some,
        s2.len() >= s1.len(),
        forall|k: int|
            0 <= k < po_list(s1, cs, d, fuel)->Some_0.len() ==> {
                let v = (#[trigger] po_list(s1, cs, d, fuel)->Some_0[k]).0;
                s2[v as int] == s1[v as int]
            },
    ensures
        po_list(s2, cs, d, fuel) == po_list(s1, cs, d, fuel),
    decreases fuel, cs.len(), 1int,
{
    if cs.len() > 0 {
        let q0 = po_node(s1, cs[0], d, fuel)->Some_0;
        let q1 = po_list(s1, cs.drop_first(), d, fuel)->Some_0;
        let ql = po_list(s1, cs, d, fuel)->Some_0;
        assert(ql == q0 + q1);
        assert(forall|k: int| 0 <= k < q0.len() ==> q0[k] == ql[k]);
        assert(forall|k: int| 0 <= k < q1.len() ==> q1[k] == ql[k + q0.len()]);
        lemma_po_node_frame(s1, s2, cs[0], d, fuel);
        lemma_po_list_frame(s1, s2, cs.drop_first(), d, fuel);
    }
}

/// The emission sequence of a copied subtree: the source emissions with
/// the visited indices replaced by the destination indices they were
/// copied to, which run consecutively from `base + lo`.
pub open spec fn shifted(q: Seq<(usize, nat)>, base: int, lo: int, size: nat) -> Seq<(usize, nat)> {
    Seq::new(size, |t: int| (((base + lo + t) as usize), q[lo + t].1))
}

/// A list of destination slots whose subtrees mirror consecutive segments
/// of the source emission sequence concatenates, as a child list, to the
/// mirrored segment union.
#[verifier::rlimit(50)]
pub proof fn lemma_children_po_list(
    ds: Seq<Seq<usize>>,
    q: Seq<(usize, nat)>,
    base: int,
    d: nat,
    fuel: nat,
    ge: Seq<RepEntry>,
    stp: Seq<usize>,
    lo: int,
)
    requires
        stp.len() == ge.len(),
        forall|t: int|
            0 <= t < ge.len() ==> po_node(ds, stp[t], d, fuel) == Some(
                shifted(q, base, lo + sizes_sum(ge.take(t)), (#[trigger] ge[t]).size),
            ),
    ensures
        po_list(ds, stp, d, fuel) is Some,
        po_list(ds, stp, d, fuel)->Some_0 == shifted(q, base, lo, sizes_sum(ge)),
    decreases ge.len(),
{
    if ge.len() == 0 {
        assert(po_list(ds, stp, d, fuel)->Some_0 =~= shifted(q, base, lo, sizes_sum(ge)));
    } else {
        let e0 = ge[0];
        assert(ge.take(0) =~= Seq::<RepEntry>::empty());
        assert(po_node(ds, stp[0], d, fuel) == Some(shifted(q, base, lo, e0.size)));
        let ge1 = ge.drop_first();
        let stp1 = stp.drop_first();
        assert forall|t: int| 0 <= t < ge1.len() implies po_node(ds, stp1[t], d, fuel) == Some(
            shifted(q, base, lo + e0.size + sizes_sum(ge1.take(t)), (#[trigger] ge1[t]).size),
        ) by {
            assert(ge1[t] == ge[t + 1]);
            assert(stp1[t] == stp[t + 1]);
            assert(ge.take(t + 1) =~= seq![e0] + ge1.take(t));
            lemma_sizes_sum_concat(seq![e0], ge1.take(t));
            assert(sizes_sum(seq![e0]) == e0.size) by {
                assert(seq![e0].drop_last() =~= Seq::<RepEntry>::empty());
                assert(sizes_sum(Seq::<RepEntry>::empty()) == 0);
            }
        }
        lemma_children_po_list(ds, q, base, d, fuel, ge1, stp1, lo + e0.size as int);
        assert(ge =~= seq![e0] + ge1);
        lemma_sizes_sum_concat(seq![e0], ge1);
        assert(sizes_sum(seq![e0]) == e0.size) by {
            assert(seq![e0].drop_last() =~= Seq::<RepEntry>::empty());
            assert(sizes_sum(Seq::<RepEntry>::empty()) == 0);
        }
        assert(po_list(ds, stp, d, fuel)->Some_0 =~= shifted(q, base, lo, sizes_sum(ge)));
    }
}

/// Effect of appending a list of child indices to one slot: only that
/// slot's child list changes, by concatenation.
pub proof fn lemma_attach_all_effect<T>(m: TreeModel<T>, p: int, cs: Seq<usize>)
    requires
        0 <= p < m.nodes.len(),
    ensures
        m.attach_all(p, cs).nodes.len() == m.nodes.len(),
        m.attach_all(p, cs).nodes[p].children == m.nodes[p].children + cs,
        m.attach_all(p, cs).nodes[p].data == m.nodes[p].data,
        forall|t: int|
            0 <= t < m.nodes.len() && t != p ==> m.attach_all(p, cs).nodes[t]
                == #[trigger] m.nodes[t],
        m.attach_all(p, cs).root == m.root,
        m.attach_all(p, cs).borrows == m.borrows,
    decreases cs.len(),
{
    if cs.len() == 0 {
        assert(m.nodes[p].children + cs =~= m.nodes[p].children);
    } else {
        lemma_attach_all_effect(m, p, cs.drop_last());
        assert(m.nodes[p].children + cs =~= (m.nodes[p].children + cs.drop_last()).push(cs.last()));
    }
}

/// What a subtree copy guarantees: the destination grows by exactly one
/// slot per source visit, in emission order; each new slot's payload is a
/// clone of the source payload visited at the same position and has as
/// many children; the copied region is itself a traversable subtree whose
/// post-order sequence is the source's, re-indexed to the consecutive new
/// slots with the same depths; and the pre-existing slots are untouched,
/// except that the new root is attached as the last child of the chosen
/// parent.
pub open spec fn copy_post<T: Clone>(
    pre: TreeModel<T>,
    src: TreeModel<T>,
    start: usize,
    parent_index: Option<usize>,
    post: TreeModel<T>,
    r: usize,
) -> bool {
    let q = postorder(src.structure(), start);
    let n = q.len() as int;
    let base = pre.nodes.len() as int;
    &&& r == base + n - 1
    &&& post.nodes.len() == base + n
    &&& (forall|t: int| 0 <= t < base ==> (#[trigger] post.nodes[t]).data == pre.nodes[t].data)
    &&& (match parent_index {
        Some(p) => post.nodes[p as int].children == pre.nodes[p as int].children.push(r) && (
        forall|t: int|
            0 <= t < base && t != p ==> (#[trigger] post.nodes[t]).children
                == pre.nodes[t].children),
        None => forall|t: int|
            0 <= t < base ==> (#[trigger] post.nodes[t]).children == pre.nodes[t].children,
    })
    &&& (forall|k: int|
        0 <= k < n ==> cloned::<T>(
            src.nodes[q[k].0 as int].data,
            (#[trigger] post.nodes[base + k]).data,
        ))
    &&& (forall|k: int|
        0 <= k < n ==> (#[trigger] post.nodes[base + k]).children.len()
            == src.nodes[q[k].0 as int].children.len())
    &&& traversable(post.structure(), r)
    &&& postorder(post.structure(), r) == shifted(q, base, 0, q.len())
    &&& post.root == pre.root
    &&& post.borrows == pre.borrows
}

/// What the copy's audit trace records: one triple per source visit, in
/// emission order — the destination index the item went to, the source
/// index it came from, and a clone of the source payload.
pub open spec fn trace_post<T: Clone>(
    pre: Seq<(usize, usize, T)>,
    src: TreeModel<T>,
    start: usize,
    base: int,
    post: Seq<(usize, usize, T)>,
) -> bool {
    let q = postorder(src.structure(), start);
    &&& post.len() == pre.len() + q.len()
    &&& (forall|t: int| 0 <= t < pre.len() ==> post[t] == pre[t])
    &&& (forall|k: int|
        0 <= k < q.len() ==> {
            let rec = #[trigger] post[pre.len() + k];
            &&& rec.0 == base + k
            &&& rec.1 == q[k].0
            &&& cloned::<T>(src.nodes[q[k].0 as int].data, rec.2)
        })
}

/// Every destination slot mirrored by the assembly stack: the `j`-th
/// stack entry is the destination root of a completed copy of the source
/// subtree recorded by `gs[j]`, laid out over the consecutive destination
/// slots holding that subtree's segment of the emission sequence.
pub open spec fn stack_mirrors(
    ds: Seq<Seq<usize>>,
    q: Seq<(usize, nat)>,
    base: int,
    gs: Seq<RepEntry>,
    st: Seq<usize>,
) -> bool {
    &&& st.len() == gs.len()
    &&& forall|j: int|
        0 <= j < gs.len() ==> {
            let lo = sizes_sum(gs.take(j)) as int;
            let e = #[trigger] gs[j];
            &&& e.size >= 1
            &&& st[j] == base + lo + e.size - 1
            &&& po_node(ds, st[j], e.depth, po_fuel(ds)) == Some(shifted(q, base, lo, e.size))
        }
}

/// The assembly step that the whole replay forces at position `k`: it
/// succeeds, and it turns the stack left by the first `k` emissions into
/// the one left by the first `k + 1`.
pub proof fn lemma_replay_prefix_step(
    s: Seq<Seq<usize>>,
    q: Seq<(usize, nat)>,
    k: int,
    gs: Seq<RepEntry>,
    fin: Seq<RepEntry>,
)
    requires
        0 <= k < q.len(),
        replay(s, q, Seq::<RepEntry>::empty()) == Some(fin),
        replay(s, q.take(k), Seq::<RepEntry>::empty()) == Some(gs),
    ensures
        rep_step(s, gs, q[k]) is Some,
        replay(s, q.take(k + 1), Seq::<RepEntry>::empty()) == Some(
            rep_step(s, gs, q[k])->Some_0,
        ),
{
    assert(q.take(k) + q.skip(k) =~= q);
    lemma_replay_concat(s, q.take(k), q.skip(k), Seq::<RepEntry>::empty());
    assert(replay(s, q.skip(k), gs) == Some(fin));
    assert(q.skip(k)[0] == q[k]);
    let gs2 = rep_step(s, gs, q[k])->Some_0;
    assert(q.take(k + 1) =~= q.take(k) + seq![q[k]]);
    lemma_replay_concat(s, q.take(k), seq![q[k]], Seq::<RepEntry>::empty());
    assert(seq![q[k]][0] == q[k]);
    assert(seq![q[k]].drop_first() =~= Seq::<(usize, nat)>::empty());
    assert(replay(s, Seq::<(usize, nat)>::empty(), gs2) == Some(gs2));
}

/// Every completed segment on the assembly stack ends at or before the
/// emissions consumed so far, so each mirrored destination root lies
/// strictly inside the region already copied.
pub proof fn lemma_mirror_slots_bounded(
    ds: Seq<Seq<usize>>,
    q: Seq<(usize, nat)>,
    base: int,
    gs: Seq<RepEntry>,
    st: Seq<usize>,
    j: int,
)
    requires
        stack_mirrors(ds, q, base, gs, st),
        0 <= j < gs.len(),
    ensures
        sizes_sum(gs.take(j)) + gs[j].size <= sizes_sum(gs),
        st[j] < base + sizes_sum(gs),
{
    assert(gs.take(j + 1) =~= gs.take(j).push(gs[j]));
    assert(gs.take(j + 1).drop_last() =~= gs.take(j));
    assert(sizes_sum(gs.take(j + 1)) == sizes_sum(gs.take(j)) + gs[j].size);
    assert(gs =~= gs.take(j + 1) + gs.skip(j + 1));
    lemma_sizes_sum_concat(gs.take(j + 1), gs.skip(j + 1));
}

/// One step of the copy: when the destination grows by the node built
/// from the popped destination roots, the assembly stack keeps mirroring
/// the source, now with the completed subtree of the `k`-th visit on top.
#[verifier::rlimit(100)]
pub proof fn lemma_copy_step(
    ss: Seq<Seq<usize>>,
    q: Seq<(usize, nat)>,
    base: int,
    k: int,
    gs: Seq<RepEntry>,
    st_pre: Seq<usize>,
    ds_old: Seq<Seq<usize>>,
    ds_new: Seq<Seq<usize>>,
    popped_ix: Seq<usize>,
    index: usize,
)
    requires
        0 <= k < q.len(),
        base >= 0,
        rep_step(ss, gs, q[k]) is Some,
        sizes_sum(gs) == k,
        stack_mirrors(ds_old, q, base, gs, st_pre),
        ds_old.len() == base + k,
        ds_new.len() == base + k + 1,
        forall|t: int| 0 <= t < base + k ==> ds_new[t] == #[trigger] ds_old[t],
        q[k].0 < ss.len(),
        popped_ix == st_pre.skip(st_pre.len() - ss[q[k].0 as int].len() as int),
        ds_new[base + k] == popped_ix,
        index == base + k,
    ensures
        sizes_sum(rep_step(ss, gs, q[k])->Some_0) == k + 1,
        stack_mirrors(
            ds_new,
            q,
            base,
            rep_step(ss, gs, q[k])->Some_0,
            st_pre.take(st_pre.len() - ss[q[k].0 as int].len() as int).push(index),
        ),
{
    let x = q[k].0;
    let d = q[k].1;
    let nc = ss[x as int].len() as int;
    let m = gs.len() - nc;
    let popped_g = gs.skip(m);
    let kept_g = gs.take(m);
    let lo_m = sizes_sum(kept_g) as int;
    let gs2 = rep_step(ss, gs, q[k])->Some_0;
    let fo = po_fuel(ds_old);
    let fnw = po_fuel(ds_new);
    let esz = (sizes_sum(popped_g) + 1) as nat;
    let gnew = RepEntry { idx: x, depth: d, size: esz };
    let st_new = st_pre.take(m).push(index);
    assert(gs2 == kept_g.push(gnew));
    assert(gs =~= kept_g + popped_g);
    lemma_sizes_sum_concat(kept_g, popped_g);
    assert(lo_m + sizes_sum(popped_g) == k);
    assert(sizes_sum(gs2) == k + 1) by {
        assert(gs2.drop_last() =~= kept_g);
    }
    assert(fnw == fo + 1);
    // the old mirrors survive the growth: their slots lie below the new one
    assert forall|j: int| 0 <= j < gs.len() implies po_node(
        ds_new,
        st_pre[j],
        (#[trigger] gs[j]).depth,
        fo,
    ) == Some(shifted(q, base, sizes_sum(gs.take(j)) as int, gs[j].size)) by {
        let lo = sizes_sum(gs.take(j)) as int;
        let piece = shifted(q, base, lo, gs[j].size);
        lemma_mirror_slots_bounded(ds_old, q, base, gs, st_pre, j);
        assert(po_node(ds_old, st_pre[j], gs[j].depth, fo) == Some(piece));
        assert forall|w: int| 0 <= w < piece.len() implies {
            let v = (#[trigger] piece[w]).0;
            ds_new[v as int] == ds_old[v as int]
        } by {
            assert(piece[w].0 == (base + lo + w) as usize);
            assert(base + lo + w < base + k);
        }
        lemma_po_node_frame(ds_old, ds_new, st_pre[j], gs[j].depth, fo);
    }
    // the new slot's subtree: its children's segments, then itself
    let target = shifted(q, base, lo_m, esz);
    if nc > 0 {
        assert forall|t: int| 0 <= t < popped_g.len() implies po_node(
            ds_new,
            popped_ix[t],
            ((d + 1) as nat),
            fo,
        ) == Some(
            shifted(
                q,
                base,
                lo_m + sizes_sum(popped_g.take(t)),
                (#[trigger] popped_g[t]).size,
            ),
        ) by {
            assert(popped_g[t] == gs[m + t]);
            assert(popped_ix[t] == st_pre[m + t]);
            assert(gs.take(m + t) =~= kept_g + popped_g.take(t));
            lemma_sizes_sum_concat(kept_g, popped_g.take(t));
            assert(popped_g[t].depth == d + 1);
        }
        lemma_children_po_list(ds_new, q, base, (d + 1) as nat, fo, popped_g, popped_ix, lo_m);
        assert(po_list(ds_new, popped_ix, (d + 1) as nat, fo) == Some(
            shifted(q, base, lo_m, sizes_sum(popped_g)),
        ));
        assert(po_node(ds_new, index, d, fnw) == Some(
            shifted(q, base, lo_m, sizes_sum(popped_g)).push(((base + k) as usize, d)),
        ));
        assert(shifted(q, base, lo_m, sizes_sum(popped_g)).push(((base + k) as usize, d))
            =~= target);
    } else {
        assert(popped_g =~= Seq::<RepEntry>::empty());
        assert(sizes_sum(popped_g) == 0);
        assert(lo_m == k);
        assert(popped_ix =~= Seq::<usize>::empty());
        assert(ds_new[index as int].len() == 0);
        assert(po_node(ds_new, index, d, fnw) == Some(seq![(((base + k) as usize), d)]));
        assert(seq![(((base + k) as usize), d)] =~= target);
    }
    assert(po_node(ds_new, index, d, fnw) == Some(target));
    // the stack mirrors the new ghost stack
    assert forall|j: int| 0 <= j < gs2.len() implies {
        let lo = sizes_sum(gs2.take(j)) as int;
        let e = #[trigger] gs2[j];
        &&& e.size >= 1
        &&& st_new[j] == base + lo + e.size - 1
        &&& po_node(ds_new, st_new[j], e.depth, fnw) == Some(shifted(q, base, lo, e.size))
    } by {
        assert(gs2.take(j) =~= gs.take(j));
        let lo = sizes_sum(gs2.take(j)) as int;
        if j < m {
            assert(gs2[j] == gs[j]);
            assert(st_new[j] == st_pre[j]);
            assert(po_node(ds_new, st_pre[j], gs[j].depth, fo) == Some(
                shifted(q, base, lo, gs[j].size),
            ));
            lemma_po_node_fuel(ds_new, st_pre[j], gs[j].depth, fo, fnw);
        } else {
            assert(j == m);
            assert(gs2[j] == gnew);
            assert(gs.take(m) =~= kept_g);
            assert(lo == lo_m);
            assert(st_new[j] == index);
        }
    }
}

/// Effect of inserting one copied node: the arena grows by a slot
/// holding the payload and the given children, and nothing else moves.
pub proof fn lemma_insert_effects<T>(pre: TreeModel<T>, post: TreeModel<T>, payload: T, kids: Seq<usize>)
    requires
        post == pre.grown(None, payload).attach_all(pre.nodes.len() as int, kids) || (kids.len()
            == 0 && post == pre.grown(None, payload)),
    ensures
        post.nodes.len() == pre.nodes.len() + 1,
        forall|t: int| 0 <= t < pre.nodes.len() ==> post.nodes[t] == #[trigger] pre.nodes[t],
        post.nodes[pre.nodes.len() as int].data == payload,
        post.nodes[pre.nodes.len() as int].children == kids,
        post.root == pre.root,
        post.borrows == pre.borrows,
        post.structure().len() == pre.structure().len() + 1,
        forall|t: int|
            0 <= t < pre.nodes.len() ==> post.structure()[t] == #[trigger] pre.structure()[t],
        post.structure()[pre.nodes.len() as int] == kids,
{
    let mid = pre.grown(None, payload);
    assert(mid.nodes == pre.nodes.push(NodeModel::leaf(payload)));
    if kids.len() == 0 && post == mid {
        assert(post.nodes[pre.nodes.len() as int].children =~= kids);
    } else {
        lemma_attach_all_effect(mid, pre.nodes.len() as int, kids);
        assert(Seq::<usize>::empty() + kids =~= kids);
    }
    assert forall|t: int|
        0 <= t < pre.nodes.len() implies post.nodes[t] == #[trigger] pre.nodes[t] by {
        assert(mid.nodes[t] == pre.nodes[t]);
    }
    assert forall|t: int|
        0 <= t < pre.nodes.len() implies post.structure()[t] == #[trigger] pre.structure()[t] by {
        assert(post.structure()[t] == post.nodes[t].children);
        assert(pre.structure()[t] == pre.nodes[t].children);
    }
    assert(post.structure()[pre.nodes.len() as int] == post.nodes[pre.nodes.len() as int].children);
}

/// Extending the per-visit record by one more copied node: payloads stay
/// clones of the visited source payloads, child counts stay equal.
pub proof fn lemma_records_extend<T: Clone>(
    src: Seq<NodeModel<T>>,
    q: Seq<(usize, nat)>,
    base: int,
    k: int,
    pre_nodes: Seq<NodeModel<T>>,
    post_nodes: Seq<NodeModel<T>>,
)
    requires
        0 <= k < q.len(),
        base >= 0,
        pre_nodes.len() == base + k,
        post_nodes.len() == base + k + 1,
        forall|t: int| 0 <= t < base + k ==> post_nodes[t] == #[trigger] pre_nodes[t],
        cloned::<T>(src[q[k].0 as int].data, post_nodes[base + k].data),
        post_nodes[base + k].children.len() == src[q[k].0 as int].children.len(),
        forall|w: int|
            0 <= w < k ==> cloned::<T>(
                src[q[w].0 as int].data,
                (#[trigger] pre_nodes[base + w]).data,
            ),
        forall|w: int|
            0 <= w < k ==> (#[trigger] pre_nodes[base + w]).children.len()
                == src[q[w].0 as int].children.len(),
    ensures
        forall|w: int|
            0 <= w < k + 1 ==> cloned::<T>(
                src[q[w].0 as int].data,
                (#[trigger] post_nodes[base + w]).data,
            ),
        forall|w: int|
            0 <= w < k + 1 ==> (#[trigger] post_nodes[base + w]).children.len()
                == src[q[w].0 as int].children.len(),
{
    assert forall|w: int|
        0 <= w < k + 1 implies cloned::<T>(
        src[q[w].0 as int].data,
        (#[trigger] post_nodes[base + w]).data,
    ) by {
        if w < k {
            assert(post_nodes[base + w] == pre_nodes[base + w]);
        }
    }
    assert forall|w: int|
        0 <= w < k + 1 implies (#[trigger] post_nodes[base + w]).children.len()
        == src[q[w].0 as int].children.len() by {
        if w < k {
            assert(post_nodes[base + w] == pre_nodes[base + w]);
        }
    }
}

impl<T: Clone> VecTree<T> {
    /// Adds a copy of the subtree of `tree` under `start` to this tree,
    /// recording one `(to, from, payload)` triple per copied item in
    /// `trace`, and returns the index of the copied subtree's root.
    ///
    /// The copy consumes a post-order traversal of the source and replays
    /// it with an assembly stack of destination indices: each visited
    /// node pops one entry per child — post-order hands a node's child
    /// subtrees over immediately before the node itself — and pushes the
    /// node rebuilt from them. After the last visit the stack provably
    /// holds exactly one entry, the copied root.
    ///
    /// If `parent_index` is provided (not `None`), it must name an
    /// existing item of this tree, and the copied root is attached as its
    /// last child.
    #[verifier::rlimit(100)]
    #[verifier::spinoff_prover]
    pub fn add_from_tree_iter_callback(
        &mut self,
        parent_index: Option<usize>,
        tree: &VecTree<T>,
        start: usize,
        trace: &mut Vec<(usize, usize, T)>,
    ) -> (r: usize)
        requires
            traversable(tree@.structure(), start),
            match parent_index {
                Some(p) => p < old(self)@.len(),
                None => true,
            },
        ensures
            copy_post(old(self)@, tree@, start, parent_index, final(self)@, r),
            trace_post(
                old(trace)@,
                tree@,
                start,
                old(self)@.nodes.len() as int,
                final(trace)@,
            ),
    {
        let ghost ss = tree@.structure();
        let ghost q = postorder(ss, start);
        let ghost base = self@.nodes.len() as int;
        let ghost tr0 = trace@;
        let ghost fin = Seq::<RepEntry>::empty().push(
            RepEntry { idx: start, depth: 0, size: q.len() },
        );
        proof {
            lemma_replay_po_node(ss, start, 0, po_fuel(ss), Seq::<RepEntry>::empty());
            lemma_po_node_bounds(ss, start, 0, po_fuel(ss));
        }
        let mut it = VecTreePoDfsIter::begin(tree, Some(start));
        let mut stack: Vec<usize> = Vec::new();
        let ghost mut gs = Seq::<RepEntry>::empty();
        proof {
            assert(q.take(0) =~= Seq::<(usize, nat)>::empty());
            assert(replay(ss, q.take(0), Seq::<RepEntry>::empty()) == Some(gs));
        }
        loop
            invariant
                it.valid_for(ss),
                it.plan() == q,
                it.pos() <= q.len(),
                ss == tree@.structure(),
                ss.len() == tree@.nodes.len(),
                q == postorder(ss, start),
                base == old(self)@.nodes.len(),
                tr0 == old(trace)@,
                replay(ss, q, Seq::<RepEntry>::empty()) == Some(fin),
                fin == Seq::<RepEntry>::empty().push(
                    RepEntry { idx: start, depth: 0, size: q.len() },
                ),
                replay(ss, q.take(it.pos() as int), Seq::<RepEntry>::empty()) == Some(gs),
                sizes_sum(gs) == it.pos(),
                self@.nodes.len() == base + it.pos(),
                stack_mirrors(self@.structure(), q, base, gs, stack@),
                forall|t: int| 0 <= t < base ==> self@.nodes[t] == #[trigger] old(self)@.nodes[t],
                self@.root == old(self)@.root,
                self@.borrows == old(self)@.borrows,
                forall|k: int|
                    0 <= k < it.pos() ==> cloned::<T>(
                        tree@.nodes[q[k].0 as int].data,
                        (#[trigger] self@.nodes[base + k]).data,
                    ),
                forall|k: int|
                    0 <= k < it.pos() ==> (#[trigger] self@.nodes[base + k]).children.len()
                        == tree@.nodes[q[k].0 as int].children.len(),
                trace@.len() == tr0.len() + it.pos(),
                forall|t: int| 0 <= t < tr0.len() ==> trace@[t] == #[trigger] tr0[t],
                forall|k: int|
                    0 <= k < it.pos() ==> {
                        let rec = #[trigger] trace@[tr0.len() + k];
                        &&& rec.0 == base + k
                        &&& rec.1 == q[k].0
                        &&& cloned::<T>(tree@.nodes[q[k].0 as int].data, rec.2)
                    },
            ensures
                it.pos() == q.len(),
                gs == fin,
                self@.nodes.len() == base + q.len(),
                stack_mirrors(self@.structure(), q, base, gs, stack@),
                forall|t: int| 0 <= t < base ==> self@.nodes[t] == #[trigger] old(self)@.nodes[t],
                self@.root == old(self)@.root,
                self@.borrows == old(self)@.borrows,
                forall|k: int|
                    0 <= k < q.len() ==> cloned::<T>(
                        tree@.nodes[q[k].0 as int].data,
                        (#[trigger] self@.nodes[base + k]).data,
                    ),
                forall|k: int|
                    0 <= k < q.len() ==> (#[trigger] self@.nodes[base + k]).children.len()
                        == tree@.nodes[q[k].0 as int].children.len(),
                trace@.len() == tr0.len() + q.len(),
                forall|t: int| 0 <= t < tr0.len() ==> trace@[t] == #[trigger] tr0[t],
                forall|k: int|
                    0 <= k < q.len() ==> {
                        let rec = #[trigger] trace@[tr0.len() + k];
                        &&& rec.0 == base + k
                        &&& rec.1 == q[k].0
                        &&& cloned::<T>(tree@.nodes[q[k].0 as int].data, rec.2)
                    },
            decreases q.len() - it.pos(),
        {
            let ghost k = it.pos() as int;
            let step = it.advance(tree);
            if step.is_none() {
                proof {
                    assert(q.take(q.len() as int) =~= q);
                }
                break;
            }
            let em = step.unwrap();
            let x = em.0;
            proof {
                assert(x == q[k].0);
                lemma_replay_prefix_step(ss, q, k, gs, fin);
                assert(x < ss.len());
                assert(ss[x as int] == tree.nodes@[x as int]@.children);
            }
            let ghost gs2 = rep_step(ss, gs, q[k])->Some_0;
            let payload = tree.get(x).clone();
            let nc = tree.nodes[x].children.len();
            let ghost m = gs.len() - nc as int;
            let ghost st_pre = stack@;
            let ghost ds_old = self@.structure();
            let ghost pre_here = self@;
            proof {
                assert(gs.len() >= nc);
                assert(cloned::<T>(tree@.nodes[x as int].data, payload));
                assert forall|j: int| 0 <= j < gs.len() implies #[trigger] stack@[j] < base
                    + k by {
                    lemma_mirror_slots_bounded(ds_old, q, base, gs, stack@, j);
                }
            }
            let to_ix = self.nodes.len();
            trace.push((to_ix, x, tree.get(x).clone()));
            let index: usize;
            let ghost mut popped_ix = Seq::<usize>::empty();
            if nc > 0 {
                let at = stack.len() - nc;
                let popped = stack.split_off(at);
                proof {
                    popped_ix = popped@;
                    assert(popped_ix =~= st_pre.skip(m));
                    assert(stack@ =~= st_pre.take(m));
                }
                index = self.addci_iter(None, payload, popped.as_slice());
                proof {
                    lemma_attach_all_effect(
                        pre_here.grown(None, payload),
                        index as int,
                        popped_ix,
                    );
                    assert(Seq::<usize>::empty() + popped_ix =~= popped_ix);
                }
            } else {
                index = self.add(None, payload);
                proof {
                    popped_ix = st_pre.skip(st_pre.len() as int);
                    assert(popped_ix =~= Seq::<usize>::empty());
                    assert(stack@ =~= st_pre.take(m));
                }
            }
            let ghost ds_new = self@.structure();
            stack.push(index);
            proof {
                assert(index == base + k);
                lemma_insert_effects(pre_here, self@, payload, popped_ix);
                lemma_copy_step(
                    ss,
                    q,
                    base,
                    k,
                    gs,
                    st_pre,
                    ds_old,
                    ds_new,
                    popped_ix,
                    index,
                );
                assert(stack@ =~= st_pre.take(m).push(index));
                gs = gs2;
                // the per-visit records extend by exactly the new node
                assert(popped_ix.len() == nc);
                lemma_records_extend(tree@.nodes, q, base, k, pre_here.nodes, self@.nodes);
            }
        }
        // the assembly stack has collapsed to exactly one entry: the
        // destination root of the whole copied subtree
        proof {
            assert(gs.len() == 1);
            assert(stack@.len() == 1);
            assert(gs.take(0) =~= Seq::<RepEntry>::empty());
            assert(sizes_sum(Seq::<RepEntry>::empty()) == 0);
            assert(gs[0] == RepEntry { idx: start, depth: 0, size: q.len() });
            assert(q.len() >= 1);
            assert(stack@[0] == base + q.len() - 1);
        }
        let index = stack[0];
        let ghost ds_fin = self@.structure();
        if let Some(p) = parent_index {
            proof {
                assert(p < base);
            }
            self.attach_child(p, index);
            proof {
                let fuel = po_fuel(self@.structure());
                let piece = shifted(q, base, 0, q.len());
                assert(self@.structure().len() == ds_fin.len());
                assert(po_fuel(ds_fin) == fuel);
                assert(po_node(ds_fin, index, 0, fuel) == Some(piece));
                assert forall|w: int| 0 <= w < piece.len() implies {
                    let v = (#[trigger] piece[w]).0;
                    self@.structure()[v as int] == ds_fin[v as int]
                } by {
                    assert(piece[w].0 == (base + w) as usize);
                    assert(base + w < base + q.len());
                    assert(base + w != p);
                }
                lemma_po_node_frame(ds_fin, self@.structure(), index, 0, fuel);
            }
        }
        index
    }

    /// Adds a copy of the subtree of `tree` under `start` to this tree
    /// and returns the index of the copied subtree's root; see
    /// [`VecTree::add_from_tree_iter_callback`].
    pub fn add_from_tree_iter(
        &mut self,
        parent_index: Option<usize>,
        tree: &VecTree<T>,
        start: usize,
    ) -> (r: usize)
        requires
            traversable(tree@.structure(), start),
            match parent_index {
                Some(p) => p < old(self)@.len(),
                None => true,
            },
        ensures
            copy_post(old(self)@, tree@, start, parent_index, final(self)@, r),
    {
        let mut trace: Vec<(usize, usize, T)> = Vec::new();
        self.add_from_tree_iter_callback(parent_index, tree, start, &mut trace)
    }

    /// Adds a copy of a subtree of another tree — the whole tree when
    /// `top` is `None` — recording one `(to, from, payload)` triple per
    /// copied item in `trace`; see
    /// [`VecTree::add_from_tree_iter_callback`].
    pub fn add_from_tree_callback(
        &mut self,
        parent_index: Option<usize>,
        tree: &VecTree<T>,
        top: Option<usize>,
        trace: &mut Vec<(usize, usize, T)>,
    ) -> (r: usize)
        requires
            match top {
                Some(i) => traversable(tree@.structure(), i),
                None => tree@.root is Some && traversable(tree@.structure(), tree@.root->Some_0),
            },
            match parent_index {
                Some(p) => p < old(self)@.len(),
                None => true,
            },
        ensures
            ({
                let start = match top {
                    Some(i) => i,
                    None => tree@.root->Some_0,
                };
                &&& copy_post(old(self)@, tree@, start, parent_index, final(self)@, r)
                &&& trace_post(
                    old(trace)@,
                    tree@,
                    start,
                    old(self)@.nodes.len() as int,
                    final(trace)@,
                )
            }),
    {
        let start = match top {
            Some(i) => i,
            None => tree.get_root().unwrap(),
        };
        self.add_from_tree_iter_callback(parent_index, tree, start, trace)
    }

    /// Adds a copy of a subtree of another tree — the whole tree when
    /// `top` is `None` — and returns the index of the copied subtree's
    /// root; see [`VecTree::add_from_tree_iter_callback`].
    pub fn add_from_tree(
        &mut self,
        parent_index: Option<usize>,
        tree: &VecTree<T>,
        top: Option<usize>,
    ) -> (r: usize)
        requires
            match top {
                Some(i) => traversable(tree@.structure(), i),
                None => tree@.root is Some && traversable(tree@.structure(), tree@.root->Some_0),
            },
            match parent_index {
                Some(p) => p < old(self)@.len(),
                None => true,
            },
        ensures
            ({
                let start = match top {
                    Some(i) => i,
                    None => tree@.root->Some_0,
                };
                copy_post(old(self)@, tree@, start, parent_index, final(self)@, r)
            }),
    {
        let mut trace: Vec<(usize, usize, T)> = Vec::new();
        self.add_from_tree_callback(parent_index, tree, top, &mut trace)
    }
}


} // verus!
