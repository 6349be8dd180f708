//! What holds of exported contraction orders.

use crate::anneal::{multi_annealed, Schedule, Uphill};
use crate::annealer::{GreenAnnealer, GreenReport};
use crate::export::{
    all_known, exported, known, label_open, leaves_known, lemma_out_labels_known, open_labels, out_labels,
};
use crate::labels::{
    label_degree, label_occurrences, labels_of, lemma_contains_add, lemma_contains_split,
    lemma_labels_of,
    lemma_numbered_degree, lemma_numbered_list, lemma_position, lemma_without_repeats, number,
    numbered, position, without_repeats,
};
use crate::laws::{
    law_all_complex_order, law_blind_cost_is_volume, law_breakdown_is_complete,
    law_multi_annealing_improves, law_seeds_determine_the_runs, law_step_opens_what_children_pass,
    law_volume_ignores_complexity, leaf_occurrences, lemma_count_by_leaves, steady,
};
use crate::nested::{
    label_lists, lemma_preorder, lemma_preorder_leaves, Contraction, EinCode, NestedEinsum,
};
use crate::network::{occurrences, open_at_subtree, open_in_step, Net};
use crate::pipeline::GreenPipeOutcome;
use crate::problem::{code_exported, code_net, lemma_count_by_ixs, lemma_exportable};
use crate::random::repeatable;
use crate::ratio::Ratio;
use crate::shape::Shape;
use vstd::multiset::Multiset;
use vstd::prelude::*;

verus! {

impl<L> Contraction<L> {
    /// The labels that an order gives, over tensors with the labels `ixs`.
    pub open spec fn result(self, ixs: Seq<Seq<L>>) -> Seq<L> {
        match self {
            Contraction::Leaf { tensor } => ixs[tensor],
            Contraction::Node { iy, .. } => iy,
        }
    }

    /// Whether every einsum takes, label by label, what its arguments give.
    pub open spec fn consistent(self, tensors: Seq<Seq<L>>) -> bool
        decreases self,
    {
        match self {
            Contraction::Leaf { .. } => true,
            Contraction::Node { left, right, ixs, .. } => {
                &&& ixs.len() == 2
                &&& ixs[0] == left.result(tensors)
                &&& ixs[1] == right.result(tensors)
                &&& left.consistent(tensors)
                &&& right.consistent(tensors)
            },
        }
    }

    /// The tensors that an order contracts.
    pub open spec fn tensors(self) -> Multiset<int>
        decreases self,
    {
        match self {
            Contraction::Leaf { tensor } => Multiset::singleton(tensor),
            Contraction::Node { left, right, .. } => left.tensors().add(right.tensors()),
        }
    }

    /// Whether two orders differ in their einsums at most.
    pub open spec fn same_structure(self, other: Contraction<L>) -> bool
        decreases self,
    {
        match self {
            Contraction::Leaf { .. } => self == other,
            Contraction::Node { left, right, .. } => other is Node && left.same_structure(
                *other->Node_left,
            ) && right.same_structure(*other->Node_right),
        }
    }

    /// The number of scalar multiplications of an order: for each einsum the
    /// product of the dimensions of its labels.
    pub open spec fn volume(self, dims: Map<L, usize>) -> nat
        decreases self,
    {
        match self {
            Contraction::Leaf { .. } => 0,
            Contraction::Node { left, right, ixs, iy } => label_volume(
                without_repeats(ixs[0] + ixs[1] + iy),
                dims,
            ) + (left.volume(dims) + right.volume(dims)),
        }
    }
}

/// The product of the dimensions of the labels.
pub open spec fn label_volume<L>(w: Seq<L>, dims: Map<L, usize>) -> nat
    decreases w.len(),
{
    if w.len() == 0 {
        1
    } else {
        label_volume(w.drop_last(), dims) * dims[w.last()] as nat
    }
}

/// In an exported order every einsum takes verbatim what its arguments give,
/// and the root gives the output labels verbatim.
pub proof fn law_export_is_consistent<L>(
    s: Shape,
    net: Net,
    ixs: Seq<Seq<L>>,
    labels: Seq<L>,
    iy: Option<Seq<L>>,
)
    ensures
        exported(s, net, ixs, labels, iy).consistent(ixs),
        iy is None ==> exported(s, net, ixs, labels, iy).result(ixs) == out_labels(
            s,
            net,
            ixs,
            labels,
        ),
        iy is Some && s is Node ==> exported(s, net, ixs, labels, iy).result(ixs) == iy->0,
    decreases s,
{
    match s {
        Shape::Leaf { .. } => {},
        Shape::Node { left, right, .. } => {
            law_export_is_consistent(*left, net, ixs, labels, None);
            law_export_is_consistent(*right, net, ixs, labels, None);
        },
    }
}

/// An exported order contracts the tensors of the tree.
pub proof fn law_export_keeps_tensors<L>(
    s: Shape,
    net: Net,
    ixs: Seq<Seq<L>>,
    labels: Seq<L>,
    iy: Option<Seq<L>>,
)
    ensures
        exported(s, net, ixs, labels, iy).tensors() == s.tensors(),
    decreases s,
{
    match s {
        Shape::Leaf { .. } => {},
        Shape::Node { left, right, .. } => {
            law_export_keeps_tensors(*left, net, ixs, labels, None);
            law_export_keeps_tensors(*right, net, ixs, labels, None);
        },
    }
}

/// An order that is made a tree and exported again keeps its structure.
pub proof fn law_round_trip_keeps_structure<L>(
    x: NestedEinsum<L>,
    base: int,
    net: Net,
    ixs: Seq<Seq<L>>,
    labels: Seq<L>,
    iy: Option<Seq<L>>,
)
    requires
        x.binary(),
    ensures
        x.model().same_structure(exported(x.preorder(base), net, ixs, labels, iy)),
    decreases x,
{
    match x {
        NestedEinsum::Leaf { .. } => {},
        NestedEinsum::Node { args, .. } => {
            law_round_trip_keeps_structure(args@[0], base + 1, net, ixs, labels, None);
            law_round_trip_keeps_structure(
                args@[1],
                base + 1 + args@[0].size(),
                net,
                ixs,
                labels,
                None,
            );
        },
    }
}

/// The open labels of a list are those of its labels that are open.
pub proof fn lemma_open_labels<L>(list: Seq<L>, s: Shape, net: Net, labels: Seq<L>, l: L)
    ensures
        open_labels(list, s, net, labels).contains(l) <==> list.contains(l) && label_open(
            s,
            net,
            labels,
            l,
        ),
    decreases list.len(),
{
    if list.len() > 0 {
        let t = list.drop_last();
        let r = open_labels(t, s, net, labels);
        lemma_open_labels(t, s, net, labels, l);
        lemma_open_labels(t, s, net, labels, list.last());
        lemma_contains_split(list, l);
        assert(r.push(list.last()).drop_last() =~= r);
        lemma_contains_split(r.push(list.last()), l);
    }
}

/// A label occurs in a list that holds it.
pub proof fn lemma_label_occurs<L>(ix: Seq<L>, l: L)
    ensures
        label_occurrences(ix, l) > 0 <==> ix.contains(l),
    decreases ix.len(),
{
    if ix.len() > 0 {
        lemma_label_occurs(ix.drop_last(), l);
        lemma_contains_split(ix, l);
    }
}

/// Whether `net` is the network over tensors with the labels `ixs`, the labels
/// numbered by their places in `labels`.
pub open spec fn describes<L>(net: Net, ixs: Seq<Seq<L>>, labels: Seq<L>) -> bool {
    &&& labels.no_duplicates()
    &&& labels.len() <= usize::MAX
    &&& net.sizes.len() == labels.len()
    &&& net.ixs == numbered(ixs, labels)
    &&& forall|t: int, j: int|
        0 <= t < ixs.len() && 0 <= j < ixs[t].len() ==> labels.contains(#[trigger] ixs[t][j])
}

/// Whether every label of a tensor occurs in another tensor too, or in the
/// output.
pub open spec fn shared(net: Net) -> bool {
    forall|t: int, k: int|
        0 <= t < net.ixs.len() && 0 <= k < net.nlabels() && #[trigger] occurrences(net.ixs[t], k)
            > 0 ==> open_at_subtree(
            occurrences(net.ixs[t], k) as int,
            net.total(k) as int,
            net.outputs[k],
        )
}

/// Where every label is shared, a subtree passes up exactly the labels that are
/// open at it.
pub proof fn law_passed_labels_are_open<L>(
    s: Shape,
    net: Net,
    ixs: Seq<Seq<L>>,
    labels: Seq<L>,
    k: int,
)
    requires
        describes(net, ixs, labels),
        shared(net),
        s.leaves_below(ixs.len() as int),
        0 <= k < labels.len(),
    ensures
        out_labels(s, net, ixs, labels).contains(labels[k]) <==> open_at_subtree(
            s.count(net, k) as int,
            net.total(k) as int,
            net.outputs[k],
        ),
    decreases s,
{
    match s {
        Shape::Leaf { tensor, .. } => {
            assert forall|j: int| 0 <= j < ixs[tensor].len() implies labels.contains(
                #[trigger] ixs[tensor][j],
            ) by {}
            lemma_numbered_list(ixs[tensor], labels, k);
            lemma_label_occurs(ixs[tensor], labels[k]);
            assert(net.ixs[tensor] =~= Seq::new(
                ixs[tensor].len(),
                |j: int| number(labels, ixs[tensor][j]),
            ));
        },
        Shape::Node { left, right, .. } => {
            law_passed_labels_are_open(*left, net, ixs, labels, k);
            law_passed_labels_are_open(*right, net, ixs, labels, k);
            let a = out_labels(*left, net, ixs, labels);
            let b = out_labels(*right, net, ixs, labels);
            lemma_contains_add(a, b, labels[k]);
            lemma_open_labels(a + b, s, net, labels, labels[k]);
            lemma_position(labels, labels[k]);
            assert(position(labels, labels[k]) == Some(k));
        },
    }
}

/// The product of the dimensions of those of the first `n` labels that belong
/// to the list `w`.
spec fn member_volume<L>(w: Seq<L>, labels: Seq<L>, dims: Map<L, usize>, n: int) -> nat
    decreases n,
{
    if n <= 0 {
        1
    } else {
        member_volume(w, labels, dims, n - 1) * if w.contains(labels[n - 1]) {
            dims[labels[n - 1]] as nat
        } else {
            1
        }
    }
}

proof fn lemma_member_volume_empty<L>(w: Seq<L>, labels: Seq<L>, dims: Map<L, usize>, n: int)
    requires
        w.len() == 0,
    ensures
        member_volume(w, labels, dims, n) == 1,
    decreases n,
{
    if n > 0 {
        lemma_member_volume_empty(w, labels, dims, n - 1);
    }
}

proof fn lemma_member_volume_push<L>(
    w: Seq<L>,
    p: int,
    labels: Seq<L>,
    dims: Map<L, usize>,
    n: int,
)
    requires
        labels.no_duplicates(),
        0 <= p < labels.len(),
        0 <= n <= labels.len(),
        !w.contains(labels[p]),
    ensures
        member_volume(w.push(labels[p]), labels, dims, n) == member_volume(w, labels, dims, n)
            * if p < n {
            dims[labels[p]] as nat
        } else {
            1
        },
    decreases n,
{
    if n > 0 {
        let l = labels[p];
        lemma_member_volume_push(w, p, labels, dims, n - 1);
        assert(w.push(l).drop_last() =~= w);
        lemma_contains_split(w.push(l), labels[n - 1]);
        let v = member_volume(w, labels, dims, n - 1);
        let d = dims[l] as nat;
        let f: nat = if w.contains(labels[n - 1]) {
            dims[labels[n - 1]] as nat
        } else {
            1
        };
        assert(v * d * f == v * f * d) by (nonlinear_arith);
    }
}

proof fn lemma_member_volume<L>(w: Seq<L>, labels: Seq<L>, dims: Map<L, usize>)
    requires
        labels.no_duplicates(),
        w.no_duplicates(),
        forall|j: int| 0 <= j < w.len() ==> labels.contains(#[trigger] w[j]),
    ensures
        member_volume(w, labels, dims, labels.len() as int) == label_volume(w, dims),
    decreases w.len(),
{
    if w.len() == 0 {
        lemma_member_volume_empty(w, labels, dims, labels.len() as int);
    } else {
        let t = w.drop_last();
        let l = w.last();
        assert(labels.contains(w[w.len() - 1]));
        let p = choose|p: int| 0 <= p < labels.len() && labels[p] == l;
        assert(!t.contains(l)) by {
            if t.contains(l) {
                let j = choose|j: int| 0 <= j < t.len() && t[j] == l;
                assert(w[j] == w[w.len() - 1]);
            }
        }
        assert forall|j: int| 0 <= j < t.len() implies labels.contains(#[trigger] t[j]) by {
            assert(t[j] == w[j]);
        }
        assert(t.no_duplicates());
        assert(w =~= t.push(l));
        lemma_member_volume(t, labels, dims);
        lemma_member_volume_push(t, p, labels, dims, labels.len() as int);
    }
}

proof fn lemma_open_volume_is_member<L>(
    net: Net,
    ca: Seq<int>,
    cb: Seq<int>,
    w: Seq<L>,
    labels: Seq<L>,
    dims: Map<L, usize>,
    n: int,
)
    requires
        0 <= n <= labels.len(),
        forall|k: int|
            0 <= k < n ==> (open_in_step(
                #[trigger] ca[k],
                cb[k],
                net.total(k) as int,
                net.outputs[k],
            ) <==> w.contains(labels[k])),
        forall|k: int| 0 <= k < n ==> #[trigger] net.sizes[k] == dims[labels[k]],
    ensures
        net.open_volume(ca, cb, n) == member_volume(w, labels, dims, n),
    decreases n,
{
    if n > 0 {
        lemma_open_volume_is_member(net, ca, cb, w, labels, dims, n - 1);
        assert(open_in_step(ca[n - 1], cb[n - 1], net.total(n - 1) as int, net.outputs[n - 1])
            <==> w.contains(labels[n - 1]));
        assert(net.sizes[n - 1] == dims[labels[n - 1]]);
    }
}

/// A list that holds exactly the labels that are open in a step has, without
/// repeats, the volume of the step.
proof fn lemma_step_volume<L>(
    s: Shape,
    net: Net,
    labels: Seq<L>,
    dims: Map<L, usize>,
    all: Seq<L>,
)
    requires
        s is Node,
        labels.no_duplicates(),
        net.sizes.len() == labels.len(),
        forall|k: int| 0 <= k < labels.len() ==> #[trigger] net.sizes[k] == dims[labels[k]],
        all_known(labels, labels.len() as int, all),
        forall|k: int|
            0 <= k < labels.len() ==> (all.contains(#[trigger] labels[k]) <==> open_in_step(
                s->Node_left.count(net, k) as int,
                s->Node_right.count(net, k) as int,
                net.total(k) as int,
                net.outputs[k],
            )),
    ensures
        label_volume(without_repeats(all), dims) == s.volume(net),
{
    let w = without_repeats(all);
    let n = labels.len() as int;
    lemma_without_repeats(all);
    assert forall|j: int| 0 <= j < w.len() implies labels.contains(#[trigger] w[j]) by {
        assert(w.contains(w[j]));
        let i = choose|i: int| 0 <= i < all.len() && all[i] == w[j];
        assert(known(labels, n, all[i]));
        lemma_position(labels, w[j]);
    }
    let (ca, cb) = (s->Node_left.counts(net), s->Node_right.counts(net));
    assert forall|k: int| 0 <= k < n implies (open_in_step(
        #[trigger] ca[k],
        cb[k],
        net.total(k) as int,
        net.outputs[k],
    ) <==> w.contains(labels[k])) by {
        assert(ca[k] == s->Node_left.count(net, k));
        assert(cb[k] == s->Node_right.count(net, k));
        assert(w.contains(labels[k]) <==> all.contains(labels[k]));
    }
    lemma_open_volume_is_member(net, ca, cb, w, labels, dims, n);
    lemma_member_volume(w, labels, dims);
}

/// Whether a list holds, possibly repeated, exactly the labels that are open at
/// the subtree `s`.
pub open spec fn lists_open<L>(y: Seq<L>, s: Shape, net: Net, labels: Seq<L>) -> bool {
    &&& all_known(labels, labels.len() as int, y)
    &&& forall|k: int|
        0 <= k < labels.len() ==> (y.contains(#[trigger] labels[k]) <==> open_at_subtree(
            s.count(net, k) as int,
            net.total(k) as int,
            net.outputs[k],
        ))
}

/// The labels of an einsum at an inner node that takes what is open at the
/// children, and gives nothing that is not open in the step, make up the volume
/// of the step.
proof fn lemma_einsum_volume<L>(
    s: Shape,
    net: Net,
    labels: Seq<L>,
    dims: Map<L, usize>,
    a: Seq<L>,
    b: Seq<L>,
    y: Seq<L>,
)
    requires
        s is Node,
        labels.no_duplicates(),
        net.sizes.len() == labels.len(),
        forall|k: int| 0 <= k < labels.len() ==> #[trigger] net.sizes[k] == dims[labels[k]],
        lists_open(a, *s->Node_left, net, labels),
        lists_open(b, *s->Node_right, net, labels),
        all_known(labels, labels.len() as int, y),
        forall|k: int|
            0 <= k < labels.len() && y.contains(#[trigger] labels[k]) ==> open_in_step(
                s->Node_left.count(net, k) as int,
                s->Node_right.count(net, k) as int,
                net.total(k) as int,
                net.outputs[k],
            ),
    ensures
        label_volume(without_repeats(a + b + y), dims) == s.volume(net),
{
    let n = labels.len() as int;
    let all = a + b + y;
    assert forall|j: int| 0 <= j < all.len() implies known(labels, n, #[trigger] all[j]) by {
        if j < a.len() {
            assert(all[j] == a[j]);
        } else if j < a.len() + b.len() {
            assert(all[j] == b[j - a.len()]);
        } else {
            assert(all[j] == y[j - a.len() - b.len()]);
        }
    }
    assert forall|k: int| 0 <= k < n implies (all.contains(#[trigger] labels[k]) <==> open_in_step(
        s->Node_left.count(net, k) as int,
        s->Node_right.count(net, k) as int,
        net.total(k) as int,
        net.outputs[k],
    )) by {
        lemma_contains_add(a + b, y, labels[k]);
        lemma_contains_add(a, b, labels[k]);
        law_step_opens_what_children_pass(s, net, k);
    }
    lemma_step_volume(s, net, labels, dims, all);
}

proof fn lemma_out_labels_open<L>(s: Shape, net: Net, ixs: Seq<Seq<L>>, labels: Seq<L>)
    requires
        describes(net, ixs, labels),
        shared(net),
        s.leaves_below(ixs.len() as int),
        leaves_known(s, ixs, labels, labels.len() as int),
    ensures
        lists_open(out_labels(s, net, ixs, labels), s, net, labels),
{
    lemma_out_labels_known(s, net, ixs, labels, labels.len() as int);
    assert forall|k: int| 0 <= k < labels.len() implies (out_labels(
        s,
        net,
        ixs,
        labels,
    ).contains(#[trigger] labels[k]) <==> open_at_subtree(
        s.count(net, k) as int,
        net.total(k) as int,
        net.outputs[k],
    )) by {
        law_passed_labels_are_open(s, net, ixs, labels, k);
    }
}

/// Where every label is shared and the output labels occur in the tree, the
/// volume of a tree is the number of scalar multiplications of the order that
/// it is exported as.
pub proof fn law_volume_of_export<L>(
    s: Shape,
    net: Net,
    ixs: Seq<Seq<L>>,
    labels: Seq<L>,
    iy: Option<Seq<L>>,
    dims: Map<L, usize>,
)
    requires
        describes(net, ixs, labels),
        shared(net),
        s.leaves_below(ixs.len() as int),
        leaves_known(s, ixs, labels, labels.len() as int),
        forall|k: int| 0 <= k < labels.len() ==> #[trigger] net.sizes[k] == dims[labels[k]],
        iy matches Some(y) ==> forall|j: int|
            0 <= j < y.len() ==> known(labels, labels.len() as int, #[trigger] y[j]) && ({
                let k = position(labels, y[j])->0;
                net.outputs[k] && s.count(net, k) > 0
            }),
    ensures
        exported(s, net, ixs, labels, iy).volume(dims) == s.real_cost(net),
    decreases s,
{
    match s {
        Shape::Leaf { .. } => {},
        Shape::Node { left, right, .. } => {
            law_volume_of_export(*left, net, ixs, labels, None, dims);
            law_volume_of_export(*right, net, ixs, labels, None, dims);
            let x = exported(s, net, ixs, labels, iy);
            let y = x->Node_iy;
            let n = labels.len() as int;
            lemma_out_labels_open(*left, net, ixs, labels);
            lemma_out_labels_open(*right, net, ixs, labels);
            lemma_out_labels_open(s, net, ixs, labels);
            assert forall|j: int| 0 <= j < y.len() implies known(labels, n, #[trigger] y[j]) by {}
            assert forall|k: int| 0 <= k < n && y.contains(#[trigger] labels[k]) implies open_in_step(
                left.count(net, k) as int,
                right.count(net, k) as int,
                net.total(k) as int,
                net.outputs[k],
            ) by {
                if iy is Some {
                    let j = choose|j: int| 0 <= j < y.len() && y[j] == labels[k];
                    assert(known(labels, n, y[j]));
                    lemma_position(labels, labels[k]);
                    assert(position(labels, y[j])->0 == k);
                }
            }
            lemma_einsum_volume(
                s,
                net,
                labels,
                dims,
                out_labels(*left, net, ixs, labels),
                out_labels(*right, net, ixs, labels),
                y,
            );
            assert(x->Node_ixs[0] == out_labels(*left, net, ixs, labels));
            assert(x->Node_ixs[1] == out_labels(*right, net, ixs, labels));
        },
    }
}

/// Whether an order has the structure of the tree `s`, every einsum takes what
/// its arguments give, and gives what is open at its subtree, in any order.
pub open spec fn faithful<L>(
    x: Contraction<L>,
    s: Shape,
    net: Net,
    tensors: Seq<Seq<L>>,
    labels: Seq<L>,
) -> bool
    decreases x,
{
    match x {
        Contraction::Leaf { tensor } => s is Leaf && s->tensor == tensor,
        Contraction::Node { left, right, ixs, iy } => {
            &&& s is Node
            &&& ixs.len() == 2
            &&& ixs[0] == left.result(tensors)
            &&& ixs[1] == right.result(tensors)
            &&& lists_open(iy, s, net, labels)
            &&& faithful(*left, *s->Node_left, net, tensors, labels)
            &&& faithful(*right, *s->Node_right, net, tensors, labels)
        },
    }
}

/// Where every label is shared, the volume of a tree is the number of scalar
/// multiplications of every order with its structure whose einsums give what is
/// open.
pub proof fn law_volume_of_faithful_order<L>(
    x: Contraction<L>,
    s: Shape,
    net: Net,
    ixs: Seq<Seq<L>>,
    labels: Seq<L>,
    dims: Map<L, usize>,
)
    requires
        describes(net, ixs, labels),
        shared(net),
        s.leaves_below(ixs.len() as int),
        leaves_known(s, ixs, labels, labels.len() as int),
        forall|k: int| 0 <= k < labels.len() ==> #[trigger] net.sizes[k] == dims[labels[k]],
        faithful(x, s, net, ixs, labels),
    ensures
        lists_open(x.result(ixs), s, net, labels),
        x.volume(dims) == s.real_cost(net),
    decreases x,
{
    match x {
        Contraction::Leaf { .. } => {
            lemma_out_labels_open(s, net, ixs, labels);
        },
        Contraction::Node { left, right, iy, .. } => {
            law_volume_of_faithful_order(*left, *s->Node_left, net, ixs, labels, dims);
            law_volume_of_faithful_order(*right, *s->Node_right, net, ixs, labels, dims);
            assert forall|k: int| 0 <= k < labels.len() && iy.contains(
                #[trigger] labels[k],
            ) implies open_in_step(
                s->Node_left.count(net, k) as int,
                s->Node_right.count(net, k) as int,
                net.total(k) as int,
                net.outputs[k],
            ) by {}
            lemma_einsum_volume(
                s,
                net,
                labels,
                dims,
                left.result(ixs),
                right.result(ixs),
                iy,
            );
        },
    }
}

/// Whether every label of a tensor of the einsum occurs in another tensor too,
/// or in the output.
pub open spec fn labels_shared<L>(code: EinCode<L>) -> bool {
    let ixs = label_lists(code.ixs@);
    forall|t: int, l: L|
        0 <= t < ixs.len() && #[trigger] ixs[t].contains(l) ==> label_occurrences(ixs[t], l)
            < label_degree(ixs, l) || code.iy@.contains(l)
}

/// Whether every output label of the einsum occurs in a leaf of the tree.
pub open spec fn outputs_occur<L>(code: EinCode<L>, s: Shape, net: Net) -> bool {
    forall|j: int|
        0 <= j < code.iy@.len() ==> s.count(
            net,
            position(labels_of(code), #[trigger] code.iy@[j])->0,
        ) > 0
}

proof fn lemma_code_describes<L>(
    code: EinCode<L>,
    dict: Map<L, usize>,
    is_complex: Seq<bool>,
    merge_factor: Ratio,
    ride_factor: Ratio,
)
    requires
        labels_of(code).len() <= usize::MAX,
        labels_shared(code),
    ensures
        describes(
            code_net(code, dict, is_complex, merge_factor, ride_factor),
            label_lists(code.ixs@),
            labels_of(code),
        ),
        shared(code_net(code, dict, is_complex, merge_factor, ride_factor)),
{
    let net = code_net(code, dict, is_complex, merge_factor, ride_factor);
    let ixs = label_lists(code.ixs@);
    let labels = labels_of(code);
    lemma_labels_of(code);
    assert forall|t: int, j: int| 0 <= t < ixs.len() && 0 <= j < ixs[t].len() implies labels.contains(
        #[trigger] ixs[t][j],
    ) by {
        assert(ixs[t][j] == code.ixs@[t]@[j]);
    }
    assert forall|t: int, k: int|
        0 <= t < net.ixs.len() && 0 <= k < net.nlabels() && #[trigger] occurrences(net.ixs[t], k)
            > 0 implies open_at_subtree(
        occurrences(net.ixs[t], k) as int,
        net.total(k) as int,
        net.outputs[k],
    ) by {
        let l = labels[k];
        assert forall|j: int| 0 <= j < ixs[t].len() implies labels.contains(
            #[trigger] ixs[t][j],
        ) by {}
        assert(net.ixs[t] =~= Seq::new(ixs[t].len(), |j: int| number(labels, ixs[t][j])));
        lemma_numbered_list(ixs[t], labels, k);
        lemma_label_occurs(ixs[t], l);
        lemma_numbered_degree(ixs, labels, k);
        assert(ixs[t].contains(l));
    }
}

/// The volume that a report breaks down is the number of scalar multiplications
/// of the order that the tree is exported as. It takes that every label of a
/// tensor occurs elsewhere too, and every output label in the tree.
pub proof fn law_report_matches_order<L>(
    code: EinCode<L>,
    dict: Map<L, usize>,
    is_complex: Seq<bool>,
    merge_factor: Ratio,
    ride_factor: Ratio,
    report: GreenReport,
    start: Shape,
    end: Shape,
)
    requires
        labels_of(code).len() <= usize::MAX,
        labels_shared(code),
        end.leaves_below(code.ixs@.len() as int),
        outputs_occur(code, end, code_net(code, dict, is_complex, merge_factor, ride_factor)),
        report.reports(
            code_net(code, dict, is_complex, merge_factor, ride_factor),
            start,
            end,
        ),
    ensures
        report.pass_volume@ + report.ride_volume@ + report.merge_volume@ == code_exported(
            end,
            code_net(code, dict, is_complex, merge_factor, ride_factor),
            code,
        ).volume(dict),
{
    let net = code_net(code, dict, is_complex, merge_factor, ride_factor);
    law_breakdown_is_complete(end, net);
    law_volume_of_code_export(code, dict, is_complex, merge_factor, ride_factor, end);
}

/// The volume of a tree over the tensors of an einsum is the number of scalar
/// multiplications of the order that it is exported as. It takes that every
/// label of a tensor occurs elsewhere too, and every output label in the tree.
pub proof fn law_volume_of_code_export<L>(
    code: EinCode<L>,
    dict: Map<L, usize>,
    is_complex: Seq<bool>,
    merge_factor: Ratio,
    ride_factor: Ratio,
    s: Shape,
)
    requires
        labels_of(code).len() <= usize::MAX,
        labels_shared(code),
        s.leaves_below(code.ixs@.len() as int),
        outputs_occur(code, s, code_net(code, dict, is_complex, merge_factor, ride_factor)),
    ensures
        code_exported(
            s,
            code_net(code, dict, is_complex, merge_factor, ride_factor),
            code,
        ).volume(dict) == s.real_cost(
            code_net(code, dict, is_complex, merge_factor, ride_factor),
        ),
{
    let net = code_net(code, dict, is_complex, merge_factor, ride_factor);
    let ixs = label_lists(code.ixs@);
    let labels = labels_of(code);
    let y = code.iy@;
    lemma_code_describes(code, dict, is_complex, merge_factor, ride_factor);
    lemma_exportable(s, code);
    lemma_labels_of(code);
    assert forall|j: int| 0 <= j < y.len() implies known(
        labels,
        labels.len() as int,
        #[trigger] y[j],
    ) && ({
        let k = position(labels, y[j])->0;
        net.outputs[k] && s.count(net, k) > 0
    }) by {
        assert(labels.contains(y[j]));
        lemma_position(labels, y[j]);
        assert(labels[position(labels, y[j])->0] == y[j]);
    }
    law_volume_of_export(s, net, ixs, labels, Some(y), dict);
}

/// Orders that agree have the same model.
pub proof fn law_agreeing_orders_have_one_model<L>(x: NestedEinsum<L>, y: NestedEinsum<L>)
    requires
        x.same_order(y),
    ensures
        x.binary() == y.binary(),
        x.model() == y.model(),
    decreases x,
{
    match x {
        NestedEinsum::Leaf { .. } => {},
        NestedEinsum::Node { args, .. } => {
            if args@.len() == 2 {
                law_agreeing_orders_have_one_model(args@[0], y->args@[0]);
                law_agreeing_orders_have_one_model(args@[1], y->args@[1]);
            }
        },
    }
}

proof fn lemma_preorder_tensors<L>(x: NestedEinsum<L>, base: int)
    requires
        x.binary(),
    ensures
        x.preorder(base).tensors() == x.model().tensors(),
    decreases x,
{
    match x {
        NestedEinsum::Leaf { .. } => {},
        NestedEinsum::Node { args, .. } => {
            lemma_preorder_tensors(args@[0], base + 1);
            lemma_preorder_tensors(args@[1], base + 1 + args@[0].size());
        },
    }
}

proof fn lemma_leaves_below_by_tensors(s: Shape, n: int)
    ensures
        s.leaves_below(n) <==> forall|t: int| #[trigger] s.tensors().contains(t) ==> 0 <= t < n,
    decreases s,
{
    match s {
        Shape::Leaf { tensor, .. } => {
            assert(s.tensors().contains(tensor));
        },
        Shape::Node { left, right, .. } => {
            lemma_leaves_below_by_tensors(*left, n);
            lemma_leaves_below_by_tensors(*right, n);
            assert forall|t: int| #[trigger] s.tensors().contains(t) <==> left.tensors().contains(t)
                || right.tensors().contains(t) by {}
            if forall|t: int| #[trigger] s.tensors().contains(t) ==> 0 <= t < n {
                assert forall|t: int| #[trigger] left.tensors().contains(t) implies 0 <= t < n by {
                    assert(s.tensors().contains(t));
                }
                assert forall|t: int| #[trigger] right.tensors().contains(t) implies 0 <= t < n by {
                    assert(s.tensors().contains(t));
                }
            }
        },
    }
}

proof fn lemma_leaf_occurrences_by_tensors(a: Shape, b: Shape, net: Net, l: int, n: int)
    requires
        a.tensors() == b.tensors(),
    ensures
        leaf_occurrences(a, net, l, n) == leaf_occurrences(b, net, l, n),
    decreases n,
{
    if n > 0 {
        lemma_leaf_occurrences_by_tensors(a, b, net, l, n - 1);
    }
}

/// Whether an order contracts the given tensors, each as often; every einsum
/// takes what its arguments give, and the root gives the output labels.
pub open spec fn sound_order<L>(
    x: Contraction<L>,
    tensors: Multiset<int>,
    code: EinCode<L>,
) -> bool {
    &&& x.tensors() == tensors
    &&& x.consistent(label_lists(code.ixs@))
    &&& x.result(label_lists(code.ixs@)) == code.iy@
}

/// What annealing makes of a tree with a step is exported as a sound order over
/// the same tensors.
pub proof fn law_annealed_export_is_sound<L, F: Fn(&Uphill) -> bool>(
    rule: F,
    sched: Schedule,
    net: Net,
    seeds: Seq<u64>,
    s: Shape,
    e: Shape,
    code: EinCode<L>,
)
    requires
        s is Node,
        s.distinct(),
        multi_annealed(rule, sched, net, seeds, s, e),
    ensures
        e is Node,
        e.distinct(),
        e.tensors() == s.tensors(),
        sound_order(code_exported(e, net, code), s.tensors(), code),
{
    law_multi_annealing_improves(rule, sched, net, seeds, s, e);
    let ixs = label_lists(code.ixs@);
    law_export_keeps_tensors(e, net, ixs, labels_of(code), Some(code.iy@));
    law_export_is_consistent(e, net, ixs, labels_of(code), Some(code.iy@));
}

/// An optimized order is sound, over the tensors that its start contracts.
pub proof fn law_optimized_order_is_sound<L, F: Fn(&Uphill) -> bool>(
    annealer: GreenAnnealer,
    rule: F,
    code: EinCode<L>,
    dict: Map<L, usize>,
    is_complex: Seq<bool>,
    x: NestedEinsum<L>,
    nested: NestedEinsum<L>,
    report: Option<GreenReport>,
)
    requires
        x is Node,
        x.binary(),
        annealer.optimizes(rule, code, dict, is_complex, x, nested, report),
    ensures
        nested.binary(),
        sound_order(nested.model(), x.model().tensors(), code),
{
    let net = annealer.net(code, dict, is_complex);
    let seeds = annealer.seeds@;
    let s = x.preorder(0);
    let e = choose|e: Shape|
        {
            &&& #[trigger] multi_annealed(rule, annealer.schedule(), net, seeds, s, e)
            &&& nested.model() == code_exported(e, net, code)
            &&& report matches Some(p) ==> p.reports(net, s, e)
        };
    lemma_preorder(x, 0);
    lemma_preorder_tensors(x, 0);
    law_annealed_export_is_sound(rule, annealer.schedule(), net, seeds, s, e, code);
}

/// The orders that the pipeline gives are sound, over the tensors that the
/// shared start contracts.
pub proof fn law_pipeline_orders_are_sound<L, F: Fn(&Uphill) -> bool>(
    config: GreenAnnealer,
    rule: F,
    code: EinCode<L>,
    dict: Map<L, usize>,
    is_complex: Seq<bool>,
    x: NestedEinsum<L>,
    outcome: GreenPipeOutcome<L>,
)
    requires
        x is Node,
        x.binary(),
        config.pipes(rule, code, dict, is_complex, x, outcome),
    ensures
        sound_order(outcome.best_blind.model(), x.model().tensors(), code),
        sound_order(outcome.full_anneal.model(), x.model().tensors(), code),
        sound_order(outcome.polished.model(), x.model().tensors(), code),
{
    let blind = config.blind_net(code, dict, is_complex);
    let aware = config.net(code, dict, is_complex);
    let seeds = config.seeds@;
    let s = x.preorder(0);
    let (b, a, p) = choose|b: Shape, a: Shape, p: Shape| #[trigger]
        config.passes(rule, blind, aware, s, b, a, p) && outcome.tells(
            code,
            blind,
            aware,
            s,
            b,
            a,
            p,
        );
    lemma_preorder(x, 0);
    lemma_preorder_tensors(x, 0);
    law_annealed_export_is_sound(rule, config.schedule(), blind, seeds, s, b, code);
    law_annealed_export_is_sound(rule, config.schedule(), aware, seeds, s, a, code);
    law_annealed_export_is_sound(rule, config.polish_schedule(), aware, seeds, b, p, code);
}

proof fn lemma_outputs_occur_by_tensors<L>(
    code: EinCode<L>,
    s: Shape,
    e: Shape,
    ns: Net,
    ne: Net,
)
    requires
        s.tensors() == e.tensors(),
        s.leaves_below(code.ixs@.len() as int),
        ns.ixs == ne.ixs,
        outputs_occur(code, s, ns),
    ensures
        e.leaves_below(code.ixs@.len() as int),
        outputs_occur(code, e, ne),
{
    let n = code.ixs@.len() as int;
    lemma_leaves_below_by_tensors(s, n);
    lemma_leaves_below_by_tensors(e, n);
    assert forall|j: int| 0 <= j < code.iy@.len() implies e.count(
        ne,
        position(labels_of(code), #[trigger] code.iy@[j])->0,
    ) > 0 by {
        let k = position(labels_of(code), code.iy@[j])->0;
        lemma_count_by_ixs(e, ns, ne, k);
        lemma_count_by_leaves(s, ns, k, n);
        lemma_count_by_leaves(e, ns, k, n);
        lemma_leaf_occurrences_by_tensors(s, e, ns, k, n);
    }
}

/// The volume that the report of an optimization breaks down is the number of
/// scalar multiplications of the optimized order. It takes that every label of
/// a tensor occurs elsewhere too, and every output label in the start.
pub proof fn law_optimized_order_has_reported_volume<L, F: Fn(&Uphill) -> bool>(
    annealer: GreenAnnealer,
    rule: F,
    code: EinCode<L>,
    dict: Map<L, usize>,
    is_complex: Seq<bool>,
    x: NestedEinsum<L>,
    nested: NestedEinsum<L>,
    report: GreenReport,
)
    requires
        x.binary(),
        x.tensors_below(code.ixs@.len() as int),
        labels_of(code).len() <= usize::MAX,
        labels_shared(code),
        outputs_occur(code, x.preorder(0), annealer.net(code, dict, is_complex)),
        annealer.optimizes(rule, code, dict, is_complex, x, nested, Some(report)),
    ensures
        report.pass_volume@ + report.ride_volume@ + report.merge_volume@ == nested.model().volume(
            dict,
        ),
{
    if x is Node {
        let net = annealer.net(code, dict, is_complex);
        let seeds = annealer.seeds@;
        let s = x.preorder(0);
        let e = choose|e: Shape|
            {
                &&& #[trigger] multi_annealed(rule, annealer.schedule(), net, seeds, s, e)
                &&& nested.model() == code_exported(e, net, code)
                &&& report.reports(net, s, e)
            };
        lemma_preorder(x, 0);
        lemma_preorder_leaves(x, 0, net);
        law_multi_annealing_improves(rule, annealer.schedule(), net, seeds, s, e);
        lemma_outputs_occur_by_tensors(code, s, e, net, net);
        law_report_matches_order(
            code,
            dict,
            is_complex,
            annealer.merge_factor,
            annealer.ride_factor,
            report,
            s,
            e,
        );
    }
}

/// The volumes that the pipeline gives are the numbers of scalar multiplications
/// of the orders: of the start as exported, and as it stands where its einsums
/// give what is open; of the blind result; and of the fully annealed result over
/// its kinds of steps. It takes that every label of a tensor occurs elsewhere
/// too, and every output label in the start.
pub proof fn law_pipeline_volumes_match_orders<L, F: Fn(&Uphill) -> bool>(
    config: GreenAnnealer,
    rule: F,
    code: EinCode<L>,
    dict: Map<L, usize>,
    is_complex: Seq<bool>,
    x: NestedEinsum<L>,
    outcome: GreenPipeOutcome<L>,
)
    requires
        x is Node,
        x.binary(),
        x.tensors_below(code.ixs@.len() as int),
        labels_of(code).len() <= usize::MAX,
        labels_shared(code),
        outputs_occur(code, x.preorder(0), config.net(code, dict, is_complex)),
        config.pipes(rule, code, dict, is_complex, x, outcome),
    ensures
        outcome.start_volume@ == code_exported(
            x.preorder(0),
            config.blind_net(code, dict, is_complex),
            code,
        ).volume(dict),
        faithful(
            outcome.start.model(),
            x.preorder(0),
            config.blind_net(code, dict, is_complex),
            label_lists(code.ixs@),
            labels_of(code),
        ) ==> outcome.start_volume@ == outcome.start.model().volume(dict),
        outcome.best_real_cost@ == outcome.best_blind.model().volume(dict),
        outcome.full_anneal_pass_volume@ + outcome.full_anneal_ride_volume@
            + outcome.full_anneal_merge_volume@ == outcome.full_anneal.model().volume(dict),
{
    let one = Ratio { num: 1, den: 1 };
    let blind = config.blind_net(code, dict, is_complex);
    let aware = config.net(code, dict, is_complex);
    let seeds = config.seeds@;
    let s = x.preorder(0);
    let (b, a, p) = choose|b: Shape, a: Shape, p: Shape| #[trigger]
        config.passes(rule, blind, aware, s, b, a, p) && outcome.tells(
            code,
            blind,
            aware,
            s,
            b,
            a,
            p,
        );
    lemma_preorder(x, 0);
    lemma_preorder_leaves(x, 0, aware);
    assert(s.leaves_below(code.ixs@.len() as int));
    law_multi_annealing_improves(rule, config.schedule(), blind, seeds, s, b);
    law_multi_annealing_improves(rule, config.schedule(), aware, seeds, s, a);
    lemma_outputs_occur_by_tensors(code, s, s, aware, blind);
    lemma_outputs_occur_by_tensors(code, s, b, aware, blind);
    lemma_outputs_occur_by_tensors(code, s, a, aware, aware);
    law_volume_of_code_export(code, dict, is_complex, one, one, s);
    law_volume_of_code_export(code, dict, is_complex, one, one, b);
    law_volume_of_code_export(
        code,
        dict,
        is_complex,
        config.merge_factor,
        config.ride_factor,
        a,
    );
    law_blind_cost_is_volume(b, blind);
    law_breakdown_is_complete(a, aware);
    let ixs = label_lists(code.ixs@);
    let labels = labels_of(code);
    if faithful(x.model(), s, blind, ixs, labels) {
        lemma_code_describes(code, dict, is_complex, one, one);
        lemma_exportable(s, code);
        law_volume_of_faithful_order(x.model(), s, blind, ixs, labels, dict);
    }
}

/// The volume of the start that the pipeline gives depends neither on which
/// tensors are complex nor on the configuration.
pub proof fn law_start_volume_ignores_complexity<L, F: Fn(&Uphill) -> bool>(
    config: GreenAnnealer,
    other: GreenAnnealer,
    rule: F,
    code: EinCode<L>,
    dict: Map<L, usize>,
    is_complex: Seq<bool>,
    other_complex: Seq<bool>,
    x: NestedEinsum<L>,
    outcome: GreenPipeOutcome<L>,
    other_outcome: GreenPipeOutcome<L>,
)
    requires
        x is Node,
        config.pipes(rule, code, dict, is_complex, x, outcome),
        other.pipes(rule, code, dict, other_complex, x, other_outcome),
    ensures
        outcome.start_volume@ == other_outcome.start_volume@,
{
    law_volume_ignores_complexity(
        x.preorder(0),
        config.blind_net(code, dict, is_complex),
        other.blind_net(code, dict, other_complex),
    );
}

/// A tree that is exported and imported again is priced as before.
pub proof fn law_reimport_prices_alike<L>(
    x: NestedEinsum<L>,
    base: int,
    s: Shape,
    net: Net,
    ixs: Seq<Seq<L>>,
    labels: Seq<L>,
    iy: Option<Seq<L>>,
)
    requires
        x.binary(),
        x.model() == exported(s, net, ixs, labels, iy),
    ensures
        forall|l: int| #[trigger] x.preorder(base).count(net, l) == s.count(net, l),
        x.preorder(base).green(net) == s.green(net),
        x.preorder(base).volume(net) == s.volume(net),
        x.preorder(base).real_cost(net) == s.real_cost(net),
        x.preorder(base).cost(net) == s.cost(net),
    decreases s,
{
    match s {
        Shape::Leaf { .. } => {},
        Shape::Node { left, right, .. } => {
            let (a, b) = (x->args@[0], x->args@[1]);
            let next = base + 1 + a.size();
            law_reimport_prices_alike(a, base + 1, *left, net, ixs, labels, None);
            law_reimport_prices_alike(b, next, *right, net, ixs, labels, None);
            let (p, q) = (a.preorder(base + 1), b.preorder(next));
            assert forall|l: int| #[trigger] x.preorder(base).count(net, l) == s.count(net, l) by {
                assert(p.count(net, l) == left.count(net, l));
                assert(q.count(net, l) == right.count(net, l));
            }
            assert forall|l: int| 0 <= l < net.nlabels() implies p.counts(net)[l] == left.counts(
                net,
            )[l] && q.counts(net)[l] == right.counts(net)[l] by {
                assert(p.count(net, l) == left.count(net, l));
                assert(q.count(net, l) == right.count(net, l));
            }
            assert(p.counts(net) =~= left.counts(net));
            assert(q.counts(net) =~= right.counts(net));
        },
    }
}

/// With every tensor taken as complex and a positive merge weight, an optimized
/// order has no more volume than its start: as a tree, and where every label of
/// a tensor occurs elsewhere too and every output label in the start, as an
/// order.
pub proof fn law_all_complex_optimizing_lowers_volume<L, F: Fn(&Uphill) -> bool>(
    annealer: GreenAnnealer,
    rule: F,
    code: EinCode<L>,
    dict: Map<L, usize>,
    x: NestedEinsum<L>,
    nested: NestedEinsum<L>,
    report: Option<GreenReport>,
)
    requires
        x.binary(),
        x.tensors_below(code.ixs@.len() as int),
        annealer.net(code, dict, Seq::new(code.ixs@.len(), |t: int| true)).merge > 0,
        annealer.optimizes(
            rule,
            code,
            dict,
            Seq::new(code.ixs@.len(), |t: int| true),
            x,
            nested,
            report,
        ),
    ensures
        ({
            let net = annealer.net(code, dict, Seq::new(code.ixs@.len(), |t: int| true));
            let start = code_exported(x.preorder(0), net, code);
            &&& nested.preorder(0).real_cost(net) <= x.preorder(0).real_cost(net)
            &&& labels_of(code).len() <= usize::MAX && labels_shared(code) && outputs_occur(
                code,
                x.preorder(0),
                net,
            ) ==> nested.model().volume(dict) <= start.volume(dict)
        }),
{
    let complex = Seq::new(code.ixs@.len(), |t: int| true);
    let net = annealer.net(code, dict, complex);
    let n = code.ixs@.len() as int;
    let s = x.preorder(0);
    lemma_preorder(x, 0);
    lemma_preorder_leaves(x, 0, net);
    assert(s.leaves_below(n));
    if x is Node {
        let e = choose|e: Shape|
            {
                &&& #[trigger] multi_annealed(
                    rule,
                    annealer.schedule(),
                    net,
                    annealer.seeds@,
                    s,
                    e,
                )
                &&& nested.model() == code_exported(e, net, code)
                &&& report matches Some(p) ==> p.reports(net, s, e)
            };
        law_multi_annealing_improves(rule, annealer.schedule(), net, annealer.seeds@, s, e);
        lemma_leaves_below_by_tensors(s, n);
        lemma_leaves_below_by_tensors(e, n);
        law_all_complex_order(e, s, net);
        law_reimport_prices_alike(
            nested,
            0,
            e,
            net,
            label_lists(code.ixs@),
            labels_of(code),
            Some(code.iy@),
        );
        if labels_of(code).len() <= usize::MAX && labels_shared(code) && outputs_occur(
            code,
            s,
            net,
        ) {
            let (mf, rf) = (annealer.merge_factor, annealer.ride_factor);
            lemma_outputs_occur_by_tensors(code, s, e, net, net);
            law_volume_of_code_export(code, dict, complex, mf, rf, s);
            law_volume_of_code_export(code, dict, complex, mf, rf, e);
        }
    }
}

/// With a repeatable generator and a steady rule, optimizing the same start twice
/// gives the same order; so optimizing without flags is optimizing with every
/// tensor flagged as complex.
pub proof fn law_optimizing_is_repeatable<L, F: Fn(&Uphill) -> bool>(
    annealer: GreenAnnealer,
    rule: F,
    code: EinCode<L>,
    dict: Map<L, usize>,
    is_complex: Seq<bool>,
    x: NestedEinsum<L>,
    one: NestedEinsum<L>,
    other: NestedEinsum<L>,
    one_report: Option<GreenReport>,
    other_report: Option<GreenReport>,
)
    requires
        repeatable(),
        steady(rule),
        annealer.optimizes(rule, code, dict, is_complex, x, one, one_report),
        annealer.optimizes(rule, code, dict, is_complex, x, other, other_report),
    ensures
        one.model() == other.model(),
{
    if x is Node {
        let net = annealer.net(code, dict, is_complex);
        let (sched, seeds, s) = (annealer.schedule(), annealer.seeds@, x.preorder(0));
        let e = choose|e: Shape|
            {
                &&& #[trigger] multi_annealed(rule, sched, net, seeds, s, e)
                &&& one.model() == code_exported(e, net, code)
                &&& one_report matches Some(p) ==> p.reports(net, s, e)
            };
        let f = choose|f: Shape|
            {
                &&& #[trigger] multi_annealed(rule, sched, net, seeds, s, f)
                &&& other.model() == code_exported(f, net, code)
                &&& other_report matches Some(p) ==> p.reports(net, s, f)
            };
        law_seeds_determine_the_runs(rule, sched, net, seeds, s, e, f);
    }
}

} // verus!
