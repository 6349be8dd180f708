//! What the prices of a tree mean, in terms of its tensors and their labels.

use crate::labels::{
    label_degree, label_occurrences, label_uses, labels_of, lemma_flatten_take, lemma_labels_of,
    lemma_numbered_list, number,
};
use crate::laws::{each_once, law_green_by_leaves, leaf_occurrences, lemma_count_by_leaves};
use crate::natural::{lemma_pow_step, limb_base, value_of};
use crate::nested::{label_lists, EinCode, NestedEinsum};
use crate::network::{degree, occurrences, open_at_subtree, Net, Network, StepKind};
use crate::problem::code_net;
use crate::ratio::Ratio;
use crate::shape::{lemma_has_root, Shape};
use crate::state::{
    lemma_node, lemma_subtree_parented, lemma_subtree_recorded, parented, recorded, TreeState, NONE,
};
use vstd::arithmetic::mul::lemma_mul_basics;
use vstd::arithmetic::power::{lemma_pow0, pow};
use vstd::prelude::*;
use vstd::seq_lib::{lemma_multiset_commutative, to_multiset_build, to_multiset_contains};

verus! {

/// A label occurs in a list as often as the list holds it.
pub proof fn law_occurrences_count_places(ix: Seq<usize>, l: usize)
    ensures
        occurrences(ix, l as int) == ix.to_multiset().count(l),
        occurrences(ix, l as int) > 0 <==> ix.contains(l),
    decreases ix.len(),
{
    to_multiset_contains(ix, l);
    if ix.len() == 0 {
        assert(!ix.contains(l));
    } else {
        law_occurrences_count_places(ix.drop_last(), l);
        assert(ix.drop_last().push(ix.last()) =~= ix);
        to_multiset_build(ix.drop_last(), ix.last());
    }
}

/// The total of a label is how often it stands in the lists of all the tensors
/// together.
pub proof fn law_total_counts_all_places(net: Net, l: usize)
    ensures
        net.total(l as int) == net.ixs.flatten().to_multiset().count(l),
{
    lemma_degree_flatten(net.ixs, l);
}

proof fn lemma_degree_flatten(ixs: Seq<Seq<usize>>, l: usize)
    ensures
        degree(ixs, l as int) == ixs.flatten().to_multiset().count(l),
    decreases ixs.len(),
{
    let n = ixs.len() - 1;
    if n < 0 {
        assert(ixs.flatten() =~= Seq::<usize>::empty());
        to_multiset_contains(ixs.flatten(), l);
        assert(!ixs.flatten().contains(l));
    } else {
        lemma_degree_flatten(ixs.drop_last(), l);
        lemma_flatten_take(ixs, n);
        assert(ixs.take(n + 1) =~= ixs);
        assert(ixs.take(n) =~= ixs.drop_last());
        law_occurrences_count_places(ixs.last(), l);
        lemma_multiset_commutative(ixs.drop_last().flatten(), ixs.last());
    }
}

/// A leaf counts the labels of its tensor, an inner node those of its children.
pub proof fn law_counts_add_up(s: Shape, net: Net, l: usize)
    ensures
        match s {
            Shape::Leaf { tensor, .. } => s.count(net, l as int)
                == net.ixs[tensor].to_multiset().count(l),
            Shape::Node { left, right, .. } => s.count(net, l as int) == left.count(net, l as int)
                + right.count(net, l as int),
        },
{
    if let Shape::Leaf { tensor, .. } = s {
        law_occurrences_count_places(net.ixs[tensor], l);
    }
}

proof fn lemma_subtree_tensors(s: Shape, i: int, t: int)
    requires
        s.has(i),
    ensures
        s.at(i).tensors().count(t) <= s.tensors().count(t),
    decreases s,
{
    match s {
        Shape::Leaf { .. } => {},
        Shape::Node { id, left, right } => {
            if id == i {
            } else if left.has(i) {
                lemma_subtree_tensors(*left, i, t);
            } else {
                lemma_subtree_tensors(*right, i, t);
            }
        },
    }
}

/// How a subtree's occurrences in the first `n` tensors compare to all of them.
proof fn lemma_occurrences_outside(s: Shape, net: Net, l: int, n: int)
    requires
        0 <= n <= net.ixs.len(),
        forall|t: int| #[trigger] s.tensors().count(t) <= 1,
    ensures
        leaf_occurrences(s, net, l, n) <= degree(net.ixs.take(n), l),
        leaf_occurrences(s, net, l, n) > 0 <==> exists|t: int|
            0 <= t < n && #[trigger] s.tensors().contains(t) && occurrences(net.ixs[t], l) > 0,
        leaf_occurrences(s, net, l, n) < degree(net.ixs.take(n), l) <==> exists|t: int|
            0 <= t < n && !(#[trigger] s.tensors().contains(t)) && occurrences(net.ixs[t], l) > 0,
    decreases n,
{
    if n > 0 {
        lemma_occurrences_outside(s, net, l, n - 1);
        assert(net.ixs.take(n).drop_last() =~= net.ixs.take(n - 1));
        let o = occurrences(net.ixs[n - 1], l);
        let c = s.tensors().count(n - 1);
        lemma_mul_basics(o as int);
        assert(c == 0 || c == 1);
        assert(s.tensors().contains(n - 1) <==> c == 1);
        if exists|t: int|
            0 <= t < n - 1 && #[trigger] s.tensors().contains(t) && occurrences(net.ixs[t], l) > 0 {
            let t = choose|t: int|
                0 <= t < n - 1 && #[trigger] s.tensors().contains(t) && occurrences(net.ixs[t], l)
                    > 0;
            assert(0 <= t < n && s.tensors().contains(t));
        }
        if exists|t: int|
            0 <= t < n - 1 && !(#[trigger] s.tensors().contains(t)) && occurrences(net.ixs[t], l)
                > 0 {
            let t = choose|t: int|
                0 <= t < n - 1 && !(#[trigger] s.tensors().contains(t)) && occurrences(
                    net.ixs[t],
                    l,
                ) > 0;
            assert(0 <= t < n && !s.tensors().contains(t));
        }
    }
}

/// In a tree over all the tensors, each once, a label is open at a subtree
/// exactly where a tensor of the subtree has it, and either a tensor outside the
/// subtree has it too or it belongs to the output.
pub proof fn law_open_labels_leave_the_subtree(root: Shape, i: int, net: Net, l: usize)
    requires
        root.leaves_below(net.ixs.len() as int),
        each_once(root, net.ixs.len() as int),
        root.has(i),
    ensures
        open_at_subtree(
            root.at(i).count(net, l as int) as int,
            net.total(l as int) as int,
            net.outputs[l as int],
        ) <==> {
            &&& exists|t: int|
                0 <= t < net.ixs.len() && #[trigger] root.at(i).tensors().contains(t)
                    && net.ixs[t].contains(l)
            &&& net.outputs[l as int] || exists|t: int|
                0 <= t < net.ixs.len() && !(#[trigger] root.at(i).tensors().contains(t))
                    && net.ixs[t].contains(l)
        },
{
    let n = net.ixs.len() as int;
    let s = root.at(i);
    let k = l as int;
    crate::shape::lemma_at(root, i);
    assert forall|t: int| #[trigger] s.tensors().count(t) <= 1 by {
        lemma_subtree_tensors(root, i, t);
        assert(root.tensors().count(t) <= 1);
    }
    lemma_count_by_leaves(s, net, k, n);
    lemma_occurrences_outside(s, net, k, n);
    assert(net.ixs.take(n) =~= net.ixs);
    assert forall|t: int| 0 <= t < n implies (#[trigger] occurrences(net.ixs[t], k) > 0
        <==> net.ixs[t].contains(l)) by {
        law_occurrences_count_places(net.ixs[t], l);
    }
    if exists|t: int|
        0 <= t < n && #[trigger] s.tensors().contains(t) && occurrences(net.ixs[t], k) > 0 {
        let t = choose|t: int|
            0 <= t < n && #[trigger] s.tensors().contains(t) && occurrences(net.ixs[t], k) > 0;
        assert(net.ixs[t].contains(l));
    }
    if exists|t: int| 0 <= t < n && #[trigger] s.tensors().contains(t) && net.ixs[t].contains(l) {
        let t = choose|t: int|
            0 <= t < n && #[trigger] s.tensors().contains(t) && net.ixs[t].contains(l);
        assert(occurrences(net.ixs[t], k) > 0);
    }
    if exists|t: int|
        0 <= t < n && !(#[trigger] s.tensors().contains(t)) && occurrences(net.ixs[t], k) > 0 {
        let t = choose|t: int|
            0 <= t < n && !(#[trigger] s.tensors().contains(t)) && occurrences(net.ixs[t], k) > 0;
        assert(net.ixs[t].contains(l));
    }
    if exists|t: int|
        0 <= t < n && !(#[trigger] s.tensors().contains(t)) && net.ixs[t].contains(l) {
        let t = choose|t: int|
            0 <= t < n && !(#[trigger] s.tensors().contains(t)) && net.ixs[t].contains(l);
        assert(occurrences(net.ixs[t], k) > 0);
    }
}

/// Whether the label `l` is open at one of the children of `s`.
spec fn open_below(s: Shape, net: Net, l: int) -> bool {
    ||| open_at_subtree(s->Node_left.count(net, l) as int, net.total(l) as int, net.outputs[l])
    ||| open_at_subtree(s->Node_right.count(net, l) as int, net.total(l) as int, net.outputs[l])
}

proof fn lemma_volume_scales(s: Shape, m: Net, n: Net, l: int, k: int)
    requires
        s is Node,
        0 <= k <= m.nlabels(),
        0 <= l < m.nlabels(),
        m.ixs == n.ixs,
        m.outputs == n.outputs,
        n.sizes == m.sizes.update(l, n.sizes[l]),
    ensures
        ({
            let (ca, cb) = (s->Node_left.counts(m), s->Node_right.counts(m));
            let (v, w) = (m.open_volume(ca, cb, k), n.open_volume(ca, cb, k));
            if l < k && open_below(s, m, l) {
                v * n.sizes[l] == w * m.sizes[l]
            } else {
                v == w
            }
        }),
    decreases k,
{
    if k > 0 {
        lemma_volume_scales(s, m, n, l, k - 1);
        let (ca, cb) = (s->Node_left.counts(m), s->Node_right.counts(m));
        let (v, w) = (m.open_volume(ca, cb, k - 1), n.open_volume(ca, cb, k - 1));
        let c = m.contribution(ca[k - 1], cb[k - 1], k - 1);
        let d = n.contribution(ca[k - 1], cb[k - 1], k - 1);
        let (x, y) = (m.sizes[l] as nat, n.sizes[l] as nat);
        assert(ca[k - 1] == s->Node_left.count(m, k - 1));
        assert(cb[k - 1] == s->Node_right.count(m, k - 1));
        if k - 1 == l {
            if open_below(s, m, l) {
                assert(v * x * y == v * y * x) by (nonlinear_arith);
            }
        } else {
            assert(c == d);
            if l < k && open_below(s, m, l) {
                assert(v * c * y == w * c * x) by (nonlinear_arith)
                    requires
                        v * y == w * x,
                ;
            }
        }
    }
}

proof fn lemma_unit_volume(net: Net, ca: Seq<int>, cb: Seq<int>, k: int)
    requires
        k <= net.nlabels(),
        forall|l: int| 0 <= l < net.nlabels() ==> #[trigger] net.sizes[l] == 1,
    ensures
        net.open_volume(ca, cb, k) == 1,
    decreases k,
{
    if k > 0 {
        lemma_unit_volume(net, ca, cb, k - 1);
        assert(net.sizes[k - 1] == 1);
        assert(net.contribution(ca[k - 1], cb[k - 1], k - 1) == 1);
        lemma_mul_basics(net.open_volume(ca, cb, k - 1) as int);
    }
}

/// The volume of a step is one where all dimensions are one, and is proportional
/// to the dimension of every label that is open at one of the children; no other
/// dimension enters.
pub proof fn law_volume_is_made_of_open_dimensions(s: Shape, m: Net, n: Net, l: int)
    requires
        s is Node,
        0 <= l < m.nlabels(),
        m.ixs == n.ixs,
        m.outputs == n.outputs,
        n.sizes == m.sizes.update(l, n.sizes[l]),
    ensures
        (forall|j: int| 0 <= j < m.nlabels() ==> #[trigger] m.sizes[j] == 1) ==> s.volume(m) == 1,
        if open_at_subtree(
            s->Node_left.count(m, l) as int,
            m.total(l) as int,
            m.outputs[l],
        ) || open_at_subtree(s->Node_right.count(m, l) as int, m.total(l) as int, m.outputs[l]) {
            s.volume(m) * n.sizes[l] == s.volume(n) * m.sizes[l]
        } else {
            s.volume(m) == s.volume(n)
        },
{
    let (left, right) = (*s->Node_left, *s->Node_right);
    assert(left.counts(m) =~= left.counts(n)) by {
        lemma_counts_by_ixs(left, m, n);
    }
    assert(right.counts(m) =~= right.counts(n)) by {
        lemma_counts_by_ixs(right, m, n);
    }
    lemma_volume_scales(s, m, n, l, m.nlabels());
    if forall|j: int| 0 <= j < m.nlabels() ==> #[trigger] m.sizes[j] == 1 {
        lemma_unit_volume(m, left.counts(m), right.counts(m), m.nlabels());
    }
}

proof fn lemma_counts_by_ixs(s: Shape, m: Net, n: Net)
    requires
        m.ixs == n.ixs,
    ensures
        forall|l: int| #[trigger] s.count(m, l) == s.count(n, l),
    decreases s,
{
    match s {
        Shape::Leaf { .. } => {},
        Shape::Node { left, right, .. } => {
            lemma_counts_by_ixs(*left, m, n);
            lemma_counts_by_ixs(*right, m, n);
            assert forall|l: int| #[trigger] s.count(m, l) == s.count(n, l) by {
                assert(left.count(m, l) == left.count(n, l));
                assert(right.count(m, l) == right.count(n, l));
            }
        },
    }
}

/// A step is a merge where both children hold a complex tensor, a ride where one
/// of them does, and a pass where none does.
pub proof fn law_kind_by_complex_tensors(s: Shape, net: Net)
    requires
        s is Node,
    ensures
        ({
            let l = exists|t: int| #[trigger]
                s->Node_left.tensors().contains(t) && net.complex[t];
            let r = exists|t: int| #[trigger]
                s->Node_right.tensors().contains(t) && net.complex[t];
            &&& s.kind(net) == StepKind::Merge <==> l && r
            &&& s.kind(net) == StepKind::Ride <==> l != r
            &&& s.kind(net) == StepKind::Pass <==> !l && !r
        }),
{
    law_green_by_leaves(*s->Node_left, net);
    law_green_by_leaves(*s->Node_right, net);
}

/// The volume by kind of step: a leaf has none, and an inner node adds its own
/// volume to what its children have, under the kind that the complex tensors
/// below its children give.
pub proof fn law_breakdown_by_complex_tensors(s: Shape, net: Net, k: StepKind)
    ensures
        s is Leaf ==> s.volume_of_kind(net, k) == 0,
        s matches Shape::Node { left, right, .. } ==> {
            let l = exists|t: int| #[trigger] left.tensors().contains(t) && net.complex[t];
            let r = exists|t: int| #[trigger] right.tensors().contains(t) && net.complex[t];
            let mine = match k {
                StepKind::Merge => l && r,
                StepKind::Ride => l != r,
                StepKind::Pass => !l && !r,
            };
            s.volume_of_kind(net, k) == left.volume_of_kind(net, k) + right.volume_of_kind(net, k)
                + if mine {
                s.volume(net)
            } else {
                0
            }
        },
{
    if s is Node {
        law_kind_by_complex_tensors(s, net);
    }
}

/// The breakdown of the volume does not depend on the weights.
pub proof fn law_breakdown_ignores_weights(s: Shape, m: Net, n: Net, k: StepKind)
    requires
        m == (Net { pass: m.pass, ride: m.ride, merge: m.merge, ..n }),
    ensures
        s.volume_of_kind(m, k) == s.volume_of_kind(n, k),
        s.volume(m) == s.volume(n),
        s.real_cost(m) == s.real_cost(n),
    decreases s,
{
    crate::laws::law_volume_ignores_complexity(s, m, n);
    match s {
        Shape::Leaf { .. } => {},
        Shape::Node { left, right, .. } => {
            law_breakdown_ignores_weights(*left, m, n, k);
            law_breakdown_ignores_weights(*right, m, n, k);
            law_breakdown_by_complex_tensors(s, m, k);
            law_breakdown_by_complex_tensors(s, n, k);
        },
    }
}

/// A leaf costs nothing; an inner node costs what its children cost and its
/// volume, which counts with the merge weight where both children hold a complex
/// tensor, with the ride weight where one does, and with the pass weight else.
pub proof fn law_cost_by_complex_tensors(s: Shape, net: Net)
    ensures
        s is Leaf ==> s.cost(net) == 0 && s.real_cost(net) == 0,
        s matches Shape::Node { left, right, .. } ==> {
            let l = exists|t: int| #[trigger] left.tensors().contains(t) && net.complex[t];
            let r = exists|t: int| #[trigger] right.tensors().contains(t) && net.complex[t];
            let weight = if l && r {
                net.merge
            } else if l || r {
                net.ride
            } else {
                net.pass
            };
            &&& s.step_cost(net) == s.volume(net) * weight
            &&& s.cost(net) == left.cost(net) + right.cost(net) + s.volume(net) * weight
            &&& s.real_cost(net) == left.real_cost(net) + right.real_cost(net) + s.volume(net)
        },
{
    if s is Node {
        law_kind_by_complex_tensors(s, net);
    } else {
        lemma_mul_basics(net.weight(s.kind(net)) as int);
    }
}

/// The weights of the steps are in the proportion of the factors: a ride weighs
/// the ride factor times a pass, a merge the merge factor times a pass; with
/// whole factors a pass weighs one.
pub proof fn law_weights_are_the_factors(n: Network)
    requires
        n.wf(),
    ensures
        n@.pass > 0,
        n@.ride * n.ride_factor.den == n@.pass * n.ride_factor.num,
        n@.merge * n.merge_factor.den == n@.pass * n.merge_factor.num,
        n.ride_factor.den == 1 && n.merge_factor.den == 1 ==> n@.pass == 1 && n@.ride
            == n.ride_factor.num && n@.merge == n.merge_factor.num,
{
    lemma_proportion(n.merge_factor, n.ride_factor);
}

proof fn lemma_proportion(mf: Ratio, rf: Ratio)
    requires
        mf.den > 0,
        rf.den > 0,
    ensures
        mf.den * rf.den > 0,
        (rf.num * mf.den) * rf.den == (mf.den * rf.den) * rf.num,
        (mf.num * rf.den) * mf.den == (mf.den * rf.den) * mf.num,
        (rf.num * mf.den) >= 0,
        (mf.num * rf.den) >= 0,
        mf.den == 1 && rf.den == 1 ==> mf.den * rf.den == 1 && rf.num * mf.den == rf.num && mf.num
            * rf.den == mf.num,
{
    let (a, b, c, d) = (mf.num as int, mf.den as int, rf.num as int, rf.den as int);
    assert(b * d > 0) by (nonlinear_arith)
        requires
            b > 0,
            d > 0,
    ;
    lemma_mul_basics(a);
    lemma_mul_basics(c);
    lemma_mul_basics(d);
    assert((c * b) * d == (b * d) * c) by (nonlinear_arith);
    assert((a * d) * b == (b * d) * a) by (nonlinear_arith);
    assert(c * b >= 0) by (nonlinear_arith)
        requires
            b > 0,
            c >= 0,
    ;
    assert(a * d >= 0) by (nonlinear_arith)
        requires
            d > 0,
            a >= 0,
    ;
}

/// The network of an einsum: every tensor has its labels, as often; the outputs
/// are the output labels; every label has its dimension; the flags are those
/// given, and the weights are in the proportion of the factors.
pub proof fn law_network_of_an_einsum<L>(
    code: EinCode<L>,
    dict: Map<L, usize>,
    is_complex: Seq<bool>,
    merge_factor: Ratio,
    ride_factor: Ratio,
    t: int,
    k: int,
)
    requires
        labels_of(code).len() <= usize::MAX,
        merge_factor.den > 0,
        ride_factor.den > 0,
        0 <= t < code.ixs@.len(),
        0 <= k < labels_of(code).len(),
    ensures
        ({
            let net = code_net(code, dict, is_complex, merge_factor, ride_factor);
            let l = labels_of(code)[k];
            &&& net.ixs.len() == code.ixs@.len()
            &&& net.sizes.len() == labels_of(code).len()
            &&& net.outputs.len() == labels_of(code).len()
            &&& occurrences(net.ixs[t], k) == code.ixs@[t]@.to_multiset().count(l)
            &&& net.outputs[k] <==> code.iy@.contains(l)
            &&& net.sizes[k] == dict[l]
            &&& net.complex == is_complex
            &&& net.pass > 0
            &&& net.ride * ride_factor.den == net.pass * ride_factor.num
            &&& net.merge * merge_factor.den == net.pass * merge_factor.num
        }),
{
    let net = code_net(code, dict, is_complex, merge_factor, ride_factor);
    let ixs = label_lists(code.ixs@);
    let labels = labels_of(code);
    lemma_labels_of(code);
    assert forall|j: int| 0 <= j < ixs[t].len() implies labels.contains(#[trigger] ixs[t][j]) by {
        assert(ixs[t][j] == code.ixs@[t]@[j]);
    }
    lemma_numbered_list(ixs[t], labels, k);
    assert(net.ixs[t] =~= Seq::new(ixs[t].len(), |j: int| number(labels, ixs[t][j])));
    lemma_label_places(ixs[t], labels[k]);
    lemma_proportion(merge_factor, ride_factor);
}

proof fn lemma_label_places<L>(ix: Seq<L>, l: L)
    ensures
        label_occurrences(ix, l) == ix.to_multiset().count(l),
    decreases ix.len(),
{
    to_multiset_contains(ix, l);
    if ix.len() == 0 {
        assert(!ix.contains(l));
    } else {
        lemma_label_places(ix.drop_last(), l);
        assert(ix.drop_last().push(ix.last()) =~= ix);
        to_multiset_build(ix.drop_last(), ix.last());
    }
}

/// A label occurs in lists as often as they hold it together.
pub proof fn lemma_label_degree_flatten<L>(ixs: Seq<Seq<L>>, l: L)
    ensures
        label_degree(ixs, l) == ixs.flatten().to_multiset().count(l),
    decreases ixs.len(),
{
    let n = ixs.len() - 1;
    if n < 0 {
        assert(ixs.flatten() =~= Seq::<L>::empty());
        to_multiset_contains(ixs.flatten(), l);
        assert(!ixs.flatten().contains(l));
    } else {
        lemma_label_degree_flatten(ixs.drop_last(), l);
        lemma_flatten_take(ixs, n);
        assert(ixs.take(n + 1) =~= ixs);
        assert(ixs.take(n) =~= ixs.drop_last());
        lemma_label_places(ixs.last(), l);
        lemma_multiset_commutative(ixs.drop_last().flatten(), ixs.last());
    }
}

/// A label is used in an order as often as its leaves hold it.
pub proof fn law_uses_add_up<L>(x: NestedEinsum<L>, ixs: Seq<Seq<L>>, l: L)
    requires
        x.binary(),
    ensures
        match x {
            NestedEinsum::Leaf { tensor_index } => label_uses(x, ixs, l)
                == ixs[tensor_index as int].to_multiset().count(l),
            NestedEinsum::Node { args, .. } => label_uses(x, ixs, l) == label_uses(
                args@[0],
                ixs,
                l,
            ) + label_uses(args@[1], ixs, l),
        },
{
    if let NestedEinsum::Leaf { tensor_index } = x {
        lemma_label_places(ixs[tensor_index as int], l);
    }
}

/// The labels of an einsum are those of its inputs and its output, each once.
pub proof fn law_labels_of_an_einsum<L>(code: EinCode<L>, l: L)
    ensures
        labels_of(code).no_duplicates(),
        labels_of(code).contains(l) <==> code.iy@.contains(l) || exists|t: int|
            0 <= t < code.ixs@.len() && (#[trigger] code.ixs@[t])@.contains(l),
{
    let lists = label_lists(code.ixs@);
    let all = lists.flatten() + code.iy@;
    lemma_labels_of(code);
    crate::labels::lemma_without_repeats(all);
    lemma_flatten_member(lists, l);
    crate::labels::lemma_contains_add(lists.flatten(), code.iy@, l);
    if exists|t: int| 0 <= t < lists.len() && (#[trigger] lists[t]).contains(l) {
        let t = choose|t: int| 0 <= t < lists.len() && (#[trigger] lists[t]).contains(l);
        assert(code.ixs@[t]@.contains(l));
    }
    if exists|t: int| 0 <= t < code.ixs@.len() && (#[trigger] code.ixs@[t])@.contains(l) {
        let t = choose|t: int| 0 <= t < code.ixs@.len() && (#[trigger] code.ixs@[t])@.contains(l);
        assert(lists[t].contains(l));
    }
}

proof fn lemma_flatten_member<L>(lists: Seq<Seq<L>>, l: L)
    ensures
        lists.flatten().contains(l) <==> exists|t: int|
            0 <= t < lists.len() && (#[trigger] lists[t]).contains(l),
    decreases lists.len(),
{
    let n = lists.len() - 1;
    if n < 0 {
        assert(lists.flatten() =~= Seq::<L>::empty());
    } else {
        let front = lists.take(n);
        lemma_flatten_take(lists, n);
        assert(lists.take(n + 1) =~= lists);
        lemma_flatten_member(front, l);
        crate::labels::lemma_contains_add(front.flatten(), lists[n], l);
        if exists|t: int| 0 <= t < front.len() && (#[trigger] front[t]).contains(l) {
            let t = choose|t: int| 0 <= t < front.len() && (#[trigger] front[t]).contains(l);
            assert(lists[t].contains(l));
        }
        if exists|t: int| 0 <= t < lists.len() && (#[trigger] lists[t]).contains(l) {
            let t = choose|t: int| 0 <= t < lists.len() && (#[trigger] lists[t]).contains(l);
            if t < n {
                assert(front[t].contains(l));
            }
        }
    }
}

/// The arrays of a sound state describe its tree node by node, and the books
/// hold what the tree gives: a leaf has no children and names its tensor, an
/// inner node names its children and is their parent, and only the root has no
/// parent.
pub proof fn law_arrays_describe_the_tree(st: TreeState, net: Net, i: int)
    requires
        st.wf(net),
        0 <= i < st.nnodes(),
    ensures
        st.shape().has(i),
        st.shape().at(i).id() == i,
        match st.shape().at(i) {
            Shape::Leaf { tensor, .. } => {
                &&& st.links.left[i] == NONE
                &&& st.links.right[i] == NONE
                &&& st.tensoridx[i] == tensor
            },
            Shape::Node { left, right, .. } => {
                &&& st.links.left[i] == left.id()
                &&& st.links.right[i] == right.id()
                &&& st.links.parent[left.id()] == i
                &&& st.links.parent[right.id()] == i
                &&& left.id() != NONE
                &&& right.id() != NONE
                &&& st.shape().at(left.id()) == *left
                &&& st.shape().at(right.id()) == *right
            },
        },
        st.links.root == st.shape().id(),
        st.links.parent[st.shape().id()] == NONE,
        forall|l: int|
            0 <= l < net.nlabels() ==> #[trigger] st.counts[i][l] == st.shape().at(i).count(
                net,
                l,
            ),
        st.green[i] <==> exists|t: int| #[trigger]
            st.shape().at(i).tensors().contains(t) && net.complex[t],
        st.real[i] == st.shape().at(i).volume(net),
        st.step[i] == st.shape().at(i).step_cost(net),
{
    let s = st.shape();
    assert(s.has(i));
    lemma_node(s, i, st.links.left, st.links.right, st.tensoridx);
    lemma_subtree_parented(s, i, st.links.parent);
    lemma_subtree_recorded(s, i, net, st);
    law_green_by_leaves(s.at(i), net);
    lemma_has_root(s);
    assert(parented(s.at(i), st.links.parent));
    assert(recorded(s.at(i), net, st));
}

/// The limbs of a number are its digits to the base two to the sixty-fourth,
/// lowest first.
pub proof fn law_limbs_are_digits(s: Seq<u64>, x: u64)
    ensures
        value_of(Seq::<u64>::empty()) == 0,
        value_of(seq![x] + s) == x + 0x1_0000_0000_0000_0000 * value_of(s),
    decreases s.len(),
{
    let t = seq![x] + s;
    if s.len() == 0 {
        lemma_pow0(limb_base());
        assert(t.drop_last() =~= Seq::<u64>::empty());
        assert(x * pow(limb_base(), 0) == x) by (nonlinear_arith)
            requires
                pow(limb_base(), 0) == 1,
        ;
    } else {
        law_limbs_are_digits(s.drop_last(), x);
        assert(t.drop_last() =~= seq![x] + s.drop_last());
        let n = (s.len() - 1) as nat;
        lemma_pow_step(n);
        let (p, y, v, b) = (
            pow(limb_base(), n),
            s.last() as int,
            value_of(s.drop_last()) as int,
            limb_base(),
        );
        assert(b * (v + y * p) == b * v + y * (b * p)) by (nonlinear_arith);
        assert(y * p >= 0 && y * (b * p) >= 0) by (nonlinear_arith)
            requires
                y >= 0,
                p > 0,
                b > 0,
        ;
    }
}

} // verus!
