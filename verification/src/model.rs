//! Mathematical model of the arena and of post-order, depth-first
//! traversal.
//!
//! An arena's structure is abstracted as a `Seq<Seq<usize>>`: for each
//! slot, the ordered child indices. The post-order visit sequence of the
//! subtree under a start index is defined by the recursive functions
//! below. Because child lists are arbitrary index lists, the recursion
//! is bounded by an explicit fuel; on an acyclic region every chain of
//! nested subtrees visits distinct slots, so a fuel of one more than the
//! arena length always suffices, and `traversable` (definedness at that
//! fuel) is exactly the condition under which a traversal makes sense.

use vstd::prelude::*;

verus! {

/// Post-order visit sequence of the subtree under `i`, each visit paired
/// with its nesting depth (`i` itself at depth `d`), or `None` when the
/// fuel does not cover the nesting or `i` is out of range.
pub open spec fn po_node(s: Seq<Seq<usize>>, i: usize, d: nat, fuel: nat) -> Option<
    Seq<(usize, nat)>,
>
    decreases fuel, 0int, 0int,
{
    if fuel == 0 {
        None
    } else if i >= s.len() {
        None
    } else if s[i as int].len() == 0 {
        Some(seq![(i, d)])
    } else {
        match po_list(s, s[i as int], d + 1, (fuel - 1) as nat) {
            Some(q) => Some(q.push((i, d))),
            None => None,
        }
    }
}

/// Concatenated post-order visit sequences of the subtrees under the
/// indices of `cs`, all rooted at depth `d`.
pub open spec fn po_list(s: Seq<Seq<usize>>, cs: Seq<usize>, d: nat, fuel: nat) -> Option<
    Seq<(usize, nat)>,
>
    decreases fuel, cs.len(), 1int,
{
    if cs.len() == 0 {
        Some(Seq::empty())
    } else {
        match po_node(s, cs[0], d, fuel) {
            Some(q0) => match po_list(s, cs.drop_first(), d, fuel) {
                Some(q1) => Some(q0 + q1),
                None => None,
            },
            None => None,
        }
    }
}

/// Fuel that suffices for every acyclic region of an arena with `s.len()`
/// slots.
pub open spec fn po_fuel(s: Seq<Seq<usize>>) -> nat {
    s.len() + 1
}

/// The region reachable from `i` is acyclic and within bounds, so the
/// post-order sequence under `i` is defined.
pub open spec fn traversable(s: Seq<Seq<usize>>, i: usize) -> bool {
    po_node(s, i, 0, po_fuel(s)) is Some
}

/// Post-order visit sequence of the subtree under `i`, with `i` at depth
/// zero.
pub open spec fn postorder(s: Seq<Seq<usize>>, i: usize) -> Seq<(usize, nat)> {
    po_node(s, i, 0, po_fuel(s))->Some_0
}

/// `traversable` lifted to an optional start index: an absent start is
/// trivially traversable (the traversal is empty).
pub open spec fn traversable_of(s: Seq<Seq<usize>>, start: Option<usize>) -> bool {
    match start {
        Some(i) => traversable(s, i),
        None => true,
    }
}

/// Post-order visit sequence from an optional start index; an absent
/// start yields the empty sequence.
pub open spec fn postorder_of(s: Seq<Seq<usize>>, start: Option<usize>) -> Seq<(usize, nat)> {
    match start {
        Some(i) => postorder(s, i),
        None => Seq::empty(),
    }
}

/// Post-order sequence under `i` rooted at depth `d`, at the standard
/// fuel; meaningful when `po_ok_at` holds.
pub open spec fn po_at(s: Seq<Seq<usize>>, i: usize, d: nat) -> Seq<(usize, nat)> {
    po_node(s, i, d, po_fuel(s))->Some_0
}

/// Definedness of `po_at`.
pub open spec fn po_ok_at(s: Seq<Seq<usize>>, i: usize, d: nat) -> bool {
    po_node(s, i, d, po_fuel(s)) is Some
}

/// Whether the post-order sequence is defined does not depend on the
/// depth parameter: the recursion never branches on it.
pub proof fn lemma_po_node_depth(s: Seq<Seq<usize>>, i: usize, d1: nat, d2: nat, fuel: nat)
    ensures
        po_node(s, i, d1, fuel) is Some <==> po_node(s, i, d2, fuel) is Some,
        po_node(s, i, d1, fuel) is Some ==> po_node(s, i, d1, fuel)->Some_0.len() == po_node(
            s,
            i,
            d2,
            fuel,
        )->Some_0.len(),
    decreases fuel, 0int, 0int,
{
    if fuel > 0 && i < s.len() && s[i as int].len() > 0 {
        lemma_po_list_depth(s, s[i as int], d1 + 1, d2 + 1, (fuel - 1) as nat);
    }
}

/// Depth-independence of definedness, for child lists.
pub proof fn lemma_po_list_depth(s: Seq<Seq<usize>>, cs: Seq<usize>, d1: nat, d2: nat, fuel: nat)
    ensures
        po_list(s, cs, d1, fuel) is Some <==> po_list(s, cs, d2, fuel) is Some,
        po_list(s, cs, d1, fuel) is Some ==> po_list(s, cs, d1, fuel)->Some_0.len() == po_list(
            s,
            cs,
            d2,
            fuel,
        )->Some_0.len(),
    decreases fuel, cs.len(), 1int,
{
    if cs.len() > 0 {
        lemma_po_node_depth(s, cs[0], d1, d2, fuel);
        lemma_po_list_depth(s, cs.drop_first(), d1, d2, fuel);
    }
}

/// Once the fuel covers the subtree under `i`, adding more fuel does not
/// change the post-order sequence.
pub proof fn lemma_po_node_fuel(s: Seq<Seq<usize>>, i: usize, d: nat, f1: nat, f2: nat)
    requires
        f1 <= f2,
        po_node(s, i, d, f1) is Some,
    ensures
        po_node(s, i, d, f2) == po_node(s, i, d, f1),
    decreases f1, 0int, 0int,
{
    if i < s.len() && s[i as int].len() > 0 {
        lemma_po_list_fuel(s, s[i as int], d + 1, (f1 - 1) as nat, (f2 - 1) as nat);
    }
}

/// Fuel monotonicity, for child lists.
pub proof fn lemma_po_list_fuel(s: Seq<Seq<usize>>, cs: Seq<usize>, d: nat, f1: nat, f2: nat)
    requires
        f1 <= f2,
        po_list(s, cs, d, f1) is Some,
    ensures
        po_list(s, cs, d, f2) == po_list(s, cs, d, f1),
    decreases f1, cs.len(), 1int,
{
    if cs.len() > 0 {
        lemma_po_node_fuel(s, cs[0], d, f1, f2);
        lemma_po_list_fuel(s, cs.drop_first(), d, f1, f2);
    }
}

/// Bounds on a defined post-order sequence: it is non-empty, ends with
/// the start index at the starting depth, and every visit names a valid
/// slot at a depth at least `d` and below `d + fuel`.
pub proof fn lemma_po_node_bounds(s: Seq<Seq<usize>>, i: usize, d: nat, fuel: nat)
    requires
        po_node(s, i, d, fuel) is Some,
    ensures
        po_node(s, i, d, fuel)->Some_0.len() >= 1,
        po_node(s, i, d, fuel)->Some_0.last() == (i, d),
        forall|k: int|
            0 <= k < po_node(s, i, d, fuel)->Some_0.len() ==> {
                let e = #[trigger] po_node(s, i, d, fuel)->Some_0[k];
                e.0 < s.len() && d <= e.1 < d + fuel
            },
    decreases fuel, 0int, 0int,
{
    if s[i as int].len() > 0 {
        lemma_po_list_bounds(s, s[i as int], d + 1, (fuel - 1) as nat);
    }
}

/// Bounds on a defined post-order sequence of a child list: every visit
/// names a valid slot at a depth at least `d` and below `d + fuel`.
pub proof fn lemma_po_list_bounds(s: Seq<Seq<usize>>, cs: Seq<usize>, d: nat, fuel: nat)
    requires
        po_list(s, cs, d, fuel) is Some,
    ensures
        po_list(s, cs, d, fuel)->Some_0.len() >= cs.len(),
        forall|k: int|
            0 <= k < po_list(s, cs, d, fuel)->Some_0.len() ==> {
                let e = #[trigger] po_list(s, cs, d, fuel)->Some_0[k];
                e.0 < s.len() && d <= e.1 < d + fuel
            },
    decreases fuel, cs.len(), 1int,
{
    if cs.len() > 0 {
        lemma_po_node_bounds(s, cs[0], d, fuel);
        lemma_po_list_bounds(s, cs.drop_first(), d, fuel);
    }
}

/// Suffix decomposition of a child list's post-order sequence: the
/// subtree of each child is defined, and peeling the first `j` children
/// off the list splits the sequence accordingly.
pub proof fn lemma_po_list_split(s: Seq<Seq<usize>>, cs: Seq<usize>, d: nat, fuel: nat, j: int)
    requires
        po_list(s, cs, d, fuel) is Some,
        0 <= j < cs.len(),
    ensures
        po_node(s, cs[j], d, fuel) is Some,
        po_list(s, cs.subrange(j, cs.len() as int), d, fuel) is Some,
        po_list(s, cs.subrange(j + 1, cs.len() as int), d, fuel) is Some,
        po_list(s, cs.subrange(j, cs.len() as int), d, fuel)->Some_0 == po_node(
            s,
            cs[j],
            d,
            fuel,
        )->Some_0 + po_list(s, cs.subrange(j + 1, cs.len() as int), d, fuel)->Some_0,
    decreases j,
{
    if j == 0 {
        assert(cs.subrange(0, cs.len() as int) =~= cs);
        assert(cs.subrange(1, cs.len() as int) =~= cs.drop_first());
    } else {
        let cs1 = cs.drop_first();
        lemma_po_list_split(s, cs1, d, fuel, j - 1);
        assert(cs1.subrange(j - 1, cs1.len() as int) =~= cs.subrange(j, cs.len() as int));
        assert(cs1.subrange(j, cs1.len() as int) =~= cs.subrange(j + 1, cs.len() as int));
    }
}

} // verus!
