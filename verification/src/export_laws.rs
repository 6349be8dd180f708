//! What an exported order lists, einsum by einsum.

use crate::export::{exported, open_labels, out_labels};
use crate::labels::{
    lemma_contains_add, lemma_numbered_list, lemma_position, number, position,
};
use crate::nested::{label_lists, lemma_preorder, Contraction, NestedEinsum};
use crate::network::{open_at_subtree, Net};
use crate::order_laws::{describes, lemma_label_occurs, lemma_open_labels};
use crate::shape::Shape;
use vstd::multiset::Multiset;
use vstd::prelude::*;

verus! {

proof fn lemma_open_labels_once<L>(list: Seq<L>, s: Shape, net: Net, labels: Seq<L>)
    ensures
        open_labels(list, s, net, labels).no_duplicates(),
        forall|i: int, j: int, p: int|
            0 <= i < j < open_labels(list, s, net, labels).len() && 0 <= p < list.len()
                && #[trigger] list[p] == #[trigger] open_labels(list, s, net, labels)[j]
                ==> list.take(p).contains(#[trigger] open_labels(list, s, net, labels)[i]),
    decreases list.len(),
{
    if list.len() > 0 {
        let t = list.drop_last();
        let x = list.last();
        let r = open_labels(t, s, net, labels);
        let w = open_labels(list, s, net, labels);
        lemma_open_labels_once(t, s, net, labels);
        assert forall|i: int, j: int, p: int|
            0 <= i < j < w.len() && 0 <= p < list.len() && #[trigger] list[p] == #[trigger] w[j]
                implies list.take(p).contains(#[trigger] w[i]) by {
            assert(i < r.len());
            assert(w[i] == r[i]);
            assert(r.contains(r[i]));
            lemma_open_labels(t, s, net, labels, r[i]);
            if p < t.len() {
                assert(t[p] == list[p]);
                assert(t.take(p) =~= list.take(p));
                assert(t.contains(w[j]));
                if j < r.len() {
                    assert(w[j] == r[j]);
                } else {
                    lemma_open_labels(t, s, net, labels, x);
                    assert(false);
                }
            } else {
                assert(list.take(p) =~= t);
            }
        }
        assert(w.no_duplicates()) by {
            if w.len() > r.len() {
                assert forall|i: int, j: int| 0 <= i < j < w.len() implies w[i] != w[j] by {
                    if j == r.len() {
                        assert(r.contains(r[i]));
                    }
                }
            }
        }
    }
}

/// What an inner node passes up holds no label twice, and holds the labels in the
/// order in which they first occur in what its children pass up, left before
/// right: whatever stands before a label in it has occurred before every
/// occurrence of that label.
pub proof fn law_labels_are_passed_up_once_in_order<L>(
    s: Shape,
    net: Net,
    ixs: Seq<Seq<L>>,
    labels: Seq<L>,
)
    requires
        s is Node,
    ensures
        out_labels(s, net, ixs, labels).no_duplicates(),
        ({
            let list = out_labels(*s->Node_left, net, ixs, labels) + out_labels(
                *s->Node_right,
                net,
                ixs,
                labels,
            );
            let out = out_labels(s, net, ixs, labels);
            &&& forall|i: int| 0 <= i < out.len() ==> list.contains(#[trigger] out[i])
            &&& forall|i: int, j: int, p: int|
                0 <= i < j < out.len() && 0 <= p < list.len() && #[trigger] list[p]
                    == #[trigger] out[j] ==> list.take(p).contains(#[trigger] out[i])
        }),
{
    let list = out_labels(*s->Node_left, net, ixs, labels) + out_labels(
        *s->Node_right,
        net,
        ixs,
        labels,
    );
    let out = out_labels(s, net, ixs, labels);
    lemma_open_labels_once(list, s, net, labels);
    assert forall|i: int| 0 <= i < out.len() implies list.contains(#[trigger] out[i]) by {
        assert(out.contains(out[i]));
        lemma_open_labels(list, s, net, labels, out[i]);
    }
}

proof fn lemma_open_is_passed_up<L>(
    s: Shape,
    net: Net,
    ixs: Seq<Seq<L>>,
    labels: Seq<L>,
    k: int,
)
    requires
        describes(net, ixs, labels),
        s.leaves_below(ixs.len() as int),
        0 <= k < labels.len(),
        open_at_subtree(s.count(net, k) as int, net.total(k) as int, net.outputs[k]),
    ensures
        out_labels(s, net, ixs, labels).contains(labels[k]),
    decreases s,
{
    match s {
        Shape::Leaf { tensor, .. } => {
            assert forall|j: int| 0 <= j < ixs[tensor].len() implies labels.contains(
                #[trigger] ixs[tensor][j],
            ) by {}
            lemma_numbered_list(ixs[tensor], labels, k);
            lemma_label_occurs(ixs[tensor], labels[k]);
            assert(net.ixs[tensor] =~= Seq::new(
                ixs[tensor].len(),
                |j: int| number(labels, ixs[tensor][j]),
            ));
        },
        Shape::Node { left, right, .. } => {
            let a = out_labels(*left, net, ixs, labels);
            let b = out_labels(*right, net, ixs, labels);
            if left.count(net, k) > 0 {
                lemma_open_is_passed_up(*left, net, ixs, labels, k);
            } else {
                lemma_open_is_passed_up(*right, net, ixs, labels, k);
            }
            lemma_contains_add(a, b, labels[k]);
            lemma_open_labels(a + b, s, net, labels, labels[k]);
            lemma_position(labels, labels[k]);
            assert(position(labels, labels[k]) == Some(k));
        },
    }
}

/// An inner node passes up exactly the labels that are open at it; a leaf passes
/// up all the labels of its tensor.
pub proof fn law_inner_nodes_pass_up_what_is_open<L>(
    s: Shape,
    net: Net,
    ixs: Seq<Seq<L>>,
    labels: Seq<L>,
    k: int,
)
    requires
        describes(net, ixs, labels),
        s.leaves_below(ixs.len() as int),
        0 <= k < labels.len(),
    ensures
        s matches Shape::Leaf { tensor, .. } ==> out_labels(s, net, ixs, labels) == ixs[tensor],
        s is Node ==> (out_labels(s, net, ixs, labels).contains(labels[k]) <==> open_at_subtree(
            s.count(net, k) as int,
            net.total(k) as int,
            net.outputs[k],
        )),
{
    if let Shape::Node { left, right, .. } = s {
        if open_at_subtree(s.count(net, k) as int, net.total(k) as int, net.outputs[k]) {
            lemma_open_is_passed_up(s, net, ixs, labels, k);
        }
        let a = out_labels(*left, net, ixs, labels);
        let b = out_labels(*right, net, ixs, labels);
        lemma_open_labels(a + b, s, net, labels, labels[k]);
        lemma_position(labels, labels[k]);
        assert(position(labels, labels[k]) == Some(k));
    }
}

/// Whether no einsum below the root gives a label twice.
pub open spec fn gives_once_below<L>(x: Contraction<L>) -> bool
    decreases x,
{
    match x {
        Contraction::Leaf { .. } => true,
        Contraction::Node { left, right, .. } => {
            &&& *left is Node ==> left->Node_iy.no_duplicates()
            &&& *right is Node ==> right->Node_iy.no_duplicates()
            &&& gives_once_below(*left)
            &&& gives_once_below(*right)
        },
    }
}

/// Whether an order has the structure of a tree: the same tensors at the leaves,
/// left and right alike.
pub open spec fn mirrors<L>(x: Contraction<L>, s: Shape) -> bool
    decreases x,
{
    match x {
        Contraction::Leaf { tensor } => s is Leaf && s->tensor == tensor,
        Contraction::Node { left, right, .. } => s is Node && mirrors(*left, *s->Node_left)
            && mirrors(*right, *s->Node_right),
    }
}

/// An exported order has the structure of the tree, and none of its einsums below
/// the root gives a label twice.
pub proof fn law_export_mirrors_the_tree<L>(
    s: Shape,
    net: Net,
    ixs: Seq<Seq<L>>,
    labels: Seq<L>,
    iy: Option<Seq<L>>,
)
    ensures
        mirrors(exported(s, net, ixs, labels, iy), s),
        gives_once_below(exported(s, net, ixs, labels, iy)),
    decreases s,
{
    if let Shape::Node { left, right, .. } = s {
        law_export_mirrors_the_tree(*left, net, ixs, labels, None);
        law_export_mirrors_the_tree(*right, net, ixs, labels, None);
        if *left is Node {
            law_labels_are_passed_up_once_in_order(*left, net, ixs, labels);
        }
        if *right is Node {
            law_labels_are_passed_up_once_in_order(*right, net, ixs, labels);
        }
    }
}

/// A label is found at its last place.
pub proof fn law_labels_are_found_at_their_last_place<L>(labels: Seq<L>, l: L, k: int)
    ensures
        position(labels, l) == Some(k) <==> 0 <= k < labels.len() && labels[k] == l && forall|
            j: int,
        |
            k < j < labels.len() ==> #[trigger] labels[j] != l,
        position(labels, l) is None <==> !labels.contains(l),
{
    lemma_position(labels, l);
    if 0 <= k < labels.len() && labels[k] == l && forall|j: int|
        k < j < labels.len() ==> #[trigger] labels[j] != l {
        assert(labels.contains(l));
        let p = position(labels, l)->0;
        if k < p {
            assert(labels[p] != l);
        }
        if p < k {
            assert(labels[k] != l);
        }
    }
}

/// The model of a binary order has its arguments left and right and its einsums
/// as they are.
pub proof fn law_models_are_literal<L>(x: NestedEinsum<L>)
    requires
        x.binary(),
    ensures
        match x {
            NestedEinsum::Leaf { tensor_index } => x.model() == (Contraction::<L>::Leaf {
                tensor: tensor_index as int,
            }),
            NestedEinsum::Node { args, eins } => {
                &&& args@.len() == 2
                &&& args@[0].binary()
                &&& args@[1].binary()
                &&& x.model() == (Contraction::Node {
                    left: Box::new(args@[0].model()),
                    right: Box::new(args@[1].model()),
                    ixs: Seq::new(eins.ixs@.len(), |i: int| eins.ixs@[i]@),
                    iy: eins.iy@,
                })
            },
        },
{
    if let NestedEinsum::Node { eins, .. } = x {
        assert(label_lists(eins.ixs@) =~= Seq::new(eins.ixs@.len(), |i: int| eins.ixs@[i]@));
    }
}

/// The tree of an order has the structure of the order, and its nodes are
/// numbered from the base on without a gap: a node before its left subtree, and
/// that before its right subtree.
pub proof fn law_import_mirrors_the_order<L>(x: NestedEinsum<L>, base: int)
    requires
        x.binary(),
    ensures
        mirrors(x.model(), x.preorder(base)),
        x.preorder(base).id() == base,
        forall|i: int| #[trigger]
            x.preorder(base).has(i) <==> base <= i < base + x.preorder(base).size(),
        x.preorder(base) matches Shape::Node { left, right, .. } ==> {
            &&& left.id() == base + 1
            &&& right.id() == base + 1 + left.size()
            &&& forall|i: int, j: int| #[trigger] left.has(i) && #[trigger] right.has(j) ==> i < j
        },
    decreases x,
{
    lemma_preorder(x, base);
    if let NestedEinsum::Node { args, .. } = x {
        law_import_mirrors_the_order(args@[0], base + 1);
        law_import_mirrors_the_order(args@[1], base + 1 + args@[0].size());
        lemma_preorder(args@[0], base + 1);
        lemma_preorder(args@[1], base + 1 + args@[0].size());
    }
}

/// An order has as many leaves as tensors that it contracts, and names tensors
/// below a bound where all of these are.
pub proof fn law_leaves_are_the_tensors<L>(x: NestedEinsum<L>, n: int)
    requires
        x.binary(),
    ensures
        x.leaves() == x.model().tensors().len(),
        x.tensors_below(n) <==> forall|t: int| #[trigger]
            x.model().tensors().contains(t) ==> 0 <= t < n,
    decreases x,
{
    match x {
        NestedEinsum::Leaf { tensor_index } => {
            assert(x.model().tensors().contains(tensor_index as int));
        },
        NestedEinsum::Node { args, .. } => {
            let (a, b) = (args@[0], args@[1]);
            law_leaves_are_the_tensors(a, n);
            law_leaves_are_the_tensors(b, n);
            let m = x.model().tensors();
            assert forall|t: int| #[trigger] m.contains(t) <==> a.model().tensors().contains(t)
                || b.model().tensors().contains(t) by {}
            if forall|t: int| #[trigger] m.contains(t) ==> 0 <= t < n {
                assert forall|t: int| #[trigger] a.model().tensors().contains(t) implies 0 <= t
                    < n by {
                    assert(m.contains(t));
                }
                assert forall|t: int| #[trigger] b.model().tensors().contains(t) implies 0 <= t
                    < n by {
                    assert(m.contains(t));
                }
            }
        },
    }
}

/// The tensors of a tree are those of its leaves, each as often.
pub proof fn law_tensors_are_at_the_leaves(s: Shape)
    ensures
        match s {
            Shape::Leaf { tensor, .. } => s.tensors() == Multiset::singleton(tensor),
            Shape::Node { left, right, .. } => s.tensors() == left.tensors().add(right.tensors()),
        },
{
}

} // verus!
