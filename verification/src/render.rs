//! Structural string rendering of a tree of strings: each node as its
//! payload (optionally prefixed by its index and a colon), followed by
//! its children in parentheses, comma-separated.

use crate::model::lemma_po_list_split;
use crate::model::lemma_po_node_depth;
use crate::model::lemma_po_node_fuel;
use crate::model::po_at;
use crate::model::po_fuel;
use crate::model::po_list;
use crate::model::po_node;
use crate::model::traversable;
use crate::tree::NodeModel;
use crate::tree::VecTree;
use vstd::prelude::*;
use vstd::string::StringExecFns;

verus! {

/// The character for one decimal digit.
pub open spec fn digit_char(d: nat) -> char {
    if d == 0 {
        '0'
    } else if d == 1 {
        '1'
    } else if d == 2 {
        '2'
    } else if d == 3 {
        '3'
    } else if d == 4 {
        '4'
    } else if d == 5 {
        '5'
    } else if d == 6 {
        '6'
    } else if d == 7 {
        '7'
    } else if d == 8 {
        '8'
    } else {
        '9'
    }
}

/// Decimal rendering of a number, most significant digit first.
pub open spec fn dec_str(n: nat) -> Seq<char>
    decreases n,
{
    if n < 10 {
        seq![digit_char(n)]
    } else {
        dec_str(n / 10).push(digit_char(n % 10))
    }
}

/// The children-structure underlying a node sequence.
pub open spec fn kids_of<T>(ns: Seq<NodeModel<T>>) -> Seq<Seq<usize>> {
    ns.map_values(|n: NodeModel<T>| n.children)
}

/// Structural rendering of the subtree under `i`: the payload, prefixed
/// by `index:` when `show` is set, then the children in parentheses.
/// `None` when the fuel does not cover the nesting or `i` is out of
/// range.
pub open spec fn node_str(ns: Seq<NodeModel<String>>, i: usize, show: bool, fuel: nat) -> Option<
    Seq<char>,
>
    decreases fuel, 0int, 0int,
{
    if fuel == 0 {
        None
    } else if i >= ns.len() {
        None
    } else {
        let head = if show {
            dec_str(i as nat) + seq![':'] + ns[i as int].data@
        } else {
            ns[i as int].data@
        };
        if ns[i as int].children.len() == 0 {
            Some(head)
        } else {
            match list_str(ns, ns[i as int].children, show, (fuel - 1) as nat) {
                Some(body) => Some(head + seq!['('] + body + seq![')']),
                None => None,
            }
        }
    }
}

/// Comma-separated renderings of the subtrees under the indices of `cs`.
pub open spec fn list_str(ns: Seq<NodeModel<String>>, cs: Seq<usize>, show: bool, fuel: nat) -> Option<
    Seq<char>,
>
    decreases fuel, cs.len(), 1int,
{
    if cs.len() == 0 {
        Some(Seq::empty())
    } else {
        match node_str(ns, cs[0], show, fuel) {
            Some(h) => {
                if cs.len() == 1 {
                    Some(h)
                } else {
                    match list_str(ns, cs.drop_first(), show, fuel) {
                        Some(rest) => Some(h + seq![','] + rest),
                        None => None,
                    }
                }
            },
            None => None,
        }
    }
}

/// The rendering is defined wherever the post-order sequence is: both
/// recursions walk the same child lists with the same fuel.
pub proof fn lemma_node_str_total(ns: Seq<NodeModel<String>>, i: usize, show: bool, fuel: nat)
    requires
        po_node(kids_of(ns), i, 0, fuel) is Some,
    ensures
        node_str(ns, i, show, fuel) is Some,
    decreases fuel, 0int, 0int,
{
    let s = kids_of(ns);
    assert(s[i as int] == ns[i as int].children);
    if ns[i as int].children.len() > 0 {
        crate::model::lemma_po_list_depth(s, s[i as int], 1, 0, (fuel - 1) as nat);
        lemma_list_str_total(ns, ns[i as int].children, show, (fuel - 1) as nat);
    }
}

/// Totality of the rendering, for child lists.
pub proof fn lemma_list_str_total(ns: Seq<NodeModel<String>>, cs: Seq<usize>, show: bool, fuel: nat)
    requires
        po_list(kids_of(ns), cs, 0, fuel) is Some,
    ensures
        list_str(ns, cs, show, fuel) is Some,
    decreases fuel, cs.len(), 1int,
{
    if cs.len() > 0 {
        lemma_node_str_total(ns, cs[0], show, fuel);
        lemma_list_str_total(ns, cs.drop_first(), show, fuel);
    }
}

/// Appending the rendering of one more child extends a comma-joined
/// prefix of a child list's rendering.
pub proof fn lemma_list_str_snoc(
    ns: Seq<NodeModel<String>>,
    cs: Seq<usize>,
    show: bool,
    fuel: nat,
    j: int,
)
    requires
        0 <= j < cs.len(),
        list_str(ns, cs.take(j), show, fuel) is Some,
        node_str(ns, cs[j], show, fuel) is Some,
    ensures
        list_str(ns, cs.take(j + 1), show, fuel) is Some,
        j == 0 ==> list_str(ns, cs.take(j + 1), show, fuel)->Some_0 == node_str(
            ns,
            cs[j],
            show,
            fuel,
        )->Some_0,
        j > 0 ==> list_str(ns, cs.take(j + 1), show, fuel)->Some_0 == list_str(
            ns,
            cs.take(j),
            show,
            fuel,
        )->Some_0 + seq![','] + node_str(ns, cs[j], show, fuel)->Some_0,
    decreases j,
{
    if j == 0 {
        assert(cs.take(1)[0] == cs[0]);
        assert(cs.take(1).len() == 1);
    } else {
        let cs1 = cs.drop_first();
        assert(cs1.take(j - 1) =~= cs.take(j).drop_first());
        assert(cs1.take(j) =~= cs.take(j + 1).drop_first());
        assert(cs1[j - 1] == cs[j]);
        assert(cs.take(j)[0] == cs[0]);
        assert(cs.take(j + 1)[0] == cs[0]);
        lemma_list_str_snoc(ns, cs1, show, fuel, j - 1);
        if j == 1 {
            assert(cs.take(1)[0] == cs[0]);
        }
    }
}

/// Renders `n` in decimal.
pub fn usize_to_dec(n: usize) -> (r: String)
    ensures
        r@ == dec_str(n as nat),
    decreases n,
{
    let d = n % 10;
    let digit: &str = if d == 0 {
        "0"
    } else if d == 1 {
        "1"
    } else if d == 2 {
        "2"
    } else if d == 3 {
        "3"
    } else if d == 4 {
        "4"
    } else if d == 5 {
        "5"
    } else if d == 6 {
        "6"
    } else if d == 7 {
        "7"
    } else if d == 8 {
        "8"
    } else {
        "9"
    };
    proof {
        reveal_strlit("0");
        reveal_strlit("1");
        reveal_strlit("2");
        reveal_strlit("3");
        reveal_strlit("4");
        reveal_strlit("5");
        reveal_strlit("6");
        reveal_strlit("7");
        reveal_strlit("8");
        reveal_strlit("9");
        assert(digit@ =~= seq![digit_char(d as nat)]);
    }
    if n < 10 {
        let r = digit.to_owned();
        r
    } else {
        let mut s = usize_to_dec(n / 10);
        s.append(digit);
        proof {
            assert(s@ =~= dec_str((n / 10) as nat).push(digit_char((n % 10) as nat)));
        }
        s
    }
}

/// Renders the subtree under `index`, which must be traversable:
/// `payload`, or `payload(child,child,...)`, each payload prefixed by
/// `index:` when `show_index` is set.
pub fn node_to_string(tree: &VecTree<String>, index: usize, show_index: bool) -> (r: String)
    requires
        traversable(tree@.structure(), index),
    ensures
        Some(r@) == node_str(tree@.nodes, index, show_index, po_fuel(tree@.structure())),
    decreases po_at(tree@.structure(), index, 0).len(),
{
    let ghost s = tree@.structure();
    let ghost ns = tree@.nodes;
    let ghost f = po_fuel(s);
    proof {
        assert(kids_of(ns) =~= s);
        lemma_node_str_total(ns, index, show_index, f);
        assert(s[index as int] == tree.nodes@[index as int]@.children);
    }
    let mut result: String = if show_index {
        let mut h = usize_to_dec(index);
        h.append(":");
        h.append(tree.get(index).as_str());
        proof {
            reveal_strlit(":");
            assert(h@ =~= dec_str(index as nat) + seq![':'] + ns[index as int].data@);
        }
        h
    } else {
        let h = tree.get(index).clone();
        h
    };
    let ghost head = if show_index {
        dec_str(index as nat) + seq![':'] + ns[index as int].data@
    } else {
        ns[index as int].data@
    };
    let n = tree.nodes[index].children.len();
    if n == 0 {
        proof {
            assert(result@ == head);
        }
        return result;
    }
    let ghost cs = ns[index as int].children;
    let ghost body = list_str(ns, cs, show_index, (f - 1) as nat)->Some_0;
    proof {
        // the subtree sequence splits into the children's sequences, so
        // each child is traversable and renders a strictly smaller piece
        assert(po_list(s, cs, 1, (f - 1) as nat) is Some);
        crate::model::lemma_po_list_fuel(s, cs, 1, (f - 1) as nat, f);
    }
    result.append("(");
    proof {
        reveal_strlit("(");
        assert(cs.take(0) =~= Seq::<usize>::empty());
        assert(result@ =~= head + seq!['(',]);
        assert(head + seq!['('] + list_str(ns, cs.take(0), show_index, (f - 1) as nat)->Some_0
            =~= result@);
    }
    let mut j: usize = 0;
    while j < n
        invariant
            n == cs.len(),
            0 <= j <= n,
            s == tree@.structure(),
            ns == tree@.nodes,
            f == po_fuel(s),
            kids_of(ns) == s,
            cs == ns[index as int].children,
            index < s.len(),
            traversable(s, index),
            s[index as int] == cs,
            s[index as int].len() > 0,
            po_list(s, cs, 1, f) is Some,
            head == (if show_index {
                dec_str(index as nat) + seq![':'] + ns[index as int].data@
            } else {
                ns[index as int].data@
            }),
            list_str(ns, cs.take(j as int), show_index, (f - 1) as nat) is Some,
            result@ == head + seq!['('] + list_str(
                ns,
                cs.take(j as int),
                show_index,
                (f - 1) as nat,
            )->Some_0,
        decreases n - j,
    {
        if j > 0 {
            result.append(",");
            proof {
                reveal_strlit(",");
            }
        }
        let c = tree.nodes[index].children[j];
        proof {
            assert(c == cs[j as int]);
            let f1 = (f - 1) as nat;
            lemma_po_list_split(s, cs, 1, f1, j as int);
            assert(po_node(s, c, 1, f1) is Some);
            lemma_po_node_depth(s, c, 1, 0, f1);
            lemma_po_node_fuel(s, c, 0, f1, f);
            assert(traversable(s, c));
            // the child's piece is strictly shorter than the whole
            lemma_po_list_prefix_len(s, cs, 1, f1, j as int);
            assert(po_at(s, c, 0).len() < po_at(s, index, 0).len()) by {
                assert(po_node(s, index, 0, f)->Some_0 == po_list(
                    s,
                    cs,
                    1,
                    f1,
                )->Some_0.push((index, 0)));
                assert(po_node(s, c, 0, f) == po_node(s, c, 0, f1));
                lemma_po_node_depth(s, c, 0, 1, f1);
            }
            lemma_node_str_total(ns, c, show_index, f1);
            lemma_po_node_fuel_str(ns, c, show_index, f1, f);
        }
        let piece = node_to_string(tree, c, show_index);
        result.append(piece.as_str());
        proof {
            lemma_list_str_snoc(ns, cs, show_index, (f - 1) as nat, j as int);
            assert(result@ =~= head + seq!['('] + list_str(
                ns,
                cs.take(j as int + 1),
                show_index,
                (f - 1) as nat,
            )->Some_0);
        }
        j = j + 1;
    }
    result.append(")");
    proof {
        reveal_strlit(")");
        assert(cs.take(n as int) =~= cs);
        assert(result@ =~= head + seq!['('] + body + seq![')']);
    }
    result
}

/// The rendering does not depend on any fuel that covers the nesting.
pub proof fn lemma_po_node_fuel_str(
    ns: Seq<NodeModel<String>>,
    i: usize,
    show: bool,
    f1: nat,
    f2: nat,
)
    requires
        f1 <= f2,
        node_str(ns, i, show, f1) is Some,
    ensures
        node_str(ns, i, show, f2) == node_str(ns, i, show, f1),
    decreases f1, 0int, 0int,
{
    if i < ns.len() && ns[i as int].children.len() > 0 {
        lemma_list_str_fuel(ns, ns[i as int].children, show, (f1 - 1) as nat, (f2 - 1) as nat);
    }
}

/// Fuel irrelevance of the rendering, for child lists.
pub proof fn lemma_list_str_fuel(
    ns: Seq<NodeModel<String>>,
    cs: Seq<usize>,
    show: bool,
    f1: nat,
    f2: nat,
)
    requires
        f1 <= f2,
        list_str(ns, cs, show, f1) is Some,
    ensures
        list_str(ns, cs, show, f2) == list_str(ns, cs, show, f1),
    decreases f1, cs.len(), 1int,
{
    if cs.len() > 0 {
        lemma_po_node_fuel_str(ns, cs[0], show, f1, f2);
        if cs.len() > 1 {
            lemma_list_str_fuel(ns, cs.drop_first(), show, f1, f2);
        }
    }
}

/// The post-order piece of a later child starts no earlier than the
/// pieces of the children before it, so each child's piece is strictly
/// shorter than the whole list's sequence plus one.
pub proof fn lemma_po_list_prefix_len(
    s: Seq<Seq<usize>>,
    cs: Seq<usize>,
    d: nat,
    fuel: nat,
    j: int,
)
    requires
        po_list(s, cs, d, fuel) is Some,
        0 <= j < cs.len(),
    ensures
        po_node(s, cs[j], d, fuel) is Some,
        po_node(s, cs[j], d, fuel)->Some_0.len() <= po_list(s, cs, d, fuel)->Some_0.len(),
    decreases j,
{
    lemma_po_list_split(s, cs, d, fuel, j);
    crate::model::lemma_po_list_bounds(s, cs.subrange(j + 1, cs.len() as int), d, fuel);
    if j == 0 {
        assert(cs.subrange(0, cs.len() as int) =~= cs);
    } else {
        let cs1 = cs.drop_first();
        assert(cs1.subrange(j - 1, cs1.len() as int) =~= cs.subrange(j, cs.len() as int));
        lemma_po_list_prefix_len(s, cs1, d, fuel, j - 1);
        assert(po_list(s, cs, d, fuel)->Some_0 == po_node(s, cs[0], d, fuel)->Some_0 + po_list(
            s,
            cs1,
            d,
            fuel,
        )->Some_0);
    }
}

/// Renders the whole tree from its root, or `None` when no root is set.
pub fn tree_to_string(tree: &VecTree<String>) -> (r: String)
    requires
        tree@.rooted_traversable(),
    ensures
        tree@.root is None ==> r@ == "None"@,
        tree@.root is Some ==> Some(r@) == node_str(
            tree@.nodes,
            tree@.root->Some_0,
            false,
            po_fuel(tree@.structure()),
        ),
{
    match tree.get_root() {
        Some(id) => node_to_string(tree, id, false),
        None => "None".to_owned(),
    }
}

/// Renders the whole tree from its root with each payload prefixed by its
/// index and a colon, or `None` when no root is set.
pub fn tree_to_string_index(tree: &VecTree<String>) -> (r: String)
    requires
        tree@.rooted_traversable(),
    ensures
        tree@.root is None ==> r@ == "None"@,
        tree@.root is Some ==> Some(r@) == node_str(
            tree@.nodes,
            tree@.root->Some_0,
            true,
            po_fuel(tree@.structure()),
        ),
{
    match tree.get_root() {
        Some(id) => node_to_string(tree, id, true),
        None => "None".to_owned(),
    }
}

} // verus!
