//! From an einsum and its dimensions to a flat tree.

use crate::export::{exportable, exported, known, leaves_known};
use crate::labels::{
    build_label_map, convert_to_int_indices, label_degree, label_uses, labels_of,
    lemma_labels_of, lemma_numbered_degree, lemma_numbered_uses, lemma_position, number, numbered,
    numbers_of, SizeDict,
};
use crate::nested::{label_lists, Contraction, EinCode, Label, NestedEinsum};
use crate::network::{deep, degree, Net};
use crate::ratio::Ratio;
use crate::shape::Shape;
use crate::state::{encodes, parented, Links};
use crate::tree::GreenTree;
use vstd::prelude::*;

verus! {

/// The network of an einsum, its labels numbered as in [`labels_of`].
pub open spec fn code_net<L>(
    code: EinCode<L>,
    dict: Map<L, usize>,
    is_complex: Seq<bool>,
    merge_factor: Ratio,
    ride_factor: Ratio,
) -> Net {
    let labels = labels_of(code);
    Net {
        ixs: numbered(label_lists(code.ixs@), labels),
        outputs: Seq::new(labels.len(), |k: int| code.iy@.contains(labels[k])),
        sizes: Seq::new(labels.len(), |k: int| dict[labels[k]]),
        complex: is_complex,
        pass: (merge_factor.den * ride_factor.den) as nat,
        ride: (ride_factor.num * merge_factor.den) as nat,
        merge: (merge_factor.num * ride_factor.den) as nat,
    }
}

/// Whether every label of the einsum has a dimension.
pub open spec fn sized_labels<L>(code: EinCode<L>, dict: Map<L, usize>) -> bool {
    forall|l: L| #[trigger] labels_of(code).contains(l) ==> dict.dom().contains(l)
}

/// Whether no label occurs more often in the einsum than the counters can hold.
pub open spec fn countable<L>(code: EinCode<L>) -> bool {
    forall|l: L| #[trigger] labels_of(code).contains(l) ==> label_degree(
        label_lists(code.ixs@),
        l,
    ) <= i16::MAX
}

/// Whether `x` is a binary contraction order over the tensors of the einsum in
/// whose leaves no label occurs more often than the counters can hold.
pub open spec fn orders<L>(x: NestedEinsum<L>, code: EinCode<L>) -> bool {
    &&& x.binary()
    &&& x.tensors_below(code.ixs@.len() as int)
    &&& forall|l: L| #[trigger] labels_of(code).contains(l) ==> label_uses(
        x,
        label_lists(code.ixs@),
        l,
    ) <= i16::MAX
}

/// The contraction order that a tree over the tensors of the einsum stands for.
pub open spec fn code_exported<L>(s: Shape, net: Net, code: EinCode<L>) -> Contraction<L> {
    exported(s, net, label_lists(code.ixs@), labels_of(code), Some(code.iy@))
}

/// The dimensions of the labels.
fn sizes_of<L: Label>(labels: &[L], dict: &SizeDict<L>) -> (r: Vec<usize>)
    requires
        forall|k: int| 0 <= k < labels@.len() ==> dict@.dom().contains(#[trigger] labels@[k]),
    ensures
        r@ == Seq::new(labels@.len(), |k: int| dict@[labels@[k]]),
{
    let mut r: Vec<usize> = Vec::with_capacity(labels.len());
    let mut k: usize = 0;
    while k < labels.len()
        invariant
            k <= labels@.len(),
            r@ == Seq::new(k as nat, |j: int| dict@[labels@[j]]),
            forall|k: int| 0 <= k < labels@.len() ==> dict@.dom().contains(#[trigger] labels@[k]),
        decreases labels@.len() - k,
    {
        assert(dict@.dom().contains(labels@[k as int]));
        let size: Option<usize> = dict.get(&labels[k]);
        r.push(size.unwrap());
        k += 1;
        assert(r@ =~= Seq::new(k as nat, |j: int| dict@[labels@[j]]));
    }
    r
}

/// A copy of a list of flags.
fn copy_flags(v: &[bool]) -> (r: Vec<bool>)
    ensures
        r@ == v@,
{
    let mut r: Vec<bool> = Vec::with_capacity(v.len());
    let mut k: usize = 0;
    while k < v.len()
        invariant
            k <= v@.len(),
            r@ == v@.take(k as int),
        decreases v@.len() - k,
    {
        r.push(v[k]);
        k += 1;
        assert(r@ =~= v@.take(k as int));
    }
    assert(v@.take(k as int) =~= v@);
    r
}

/// A label belongs to a list exactly where its number belongs to the numbers.
proof fn lemma_numbered_contains<L>(v: Seq<L>, nums: Seq<usize>, labels: Seq<L>, k: int)
    requires
        labels.no_duplicates(),
        labels.len() <= usize::MAX,
        0 <= k < labels.len(),
        forall|j: int| 0 <= j < v.len() ==> labels.contains(#[trigger] v[j]),
        nums == Seq::new(v.len(), |j: int| number(labels, v[j])),
    ensures
        nums.contains(k as usize) == v.contains(labels[k]),
{
    if nums.contains(k as usize) {
        let j = choose|j: int| 0 <= j < nums.len() && nums[j] == k as usize;
        assert(labels.contains(v[j]));
        lemma_position(labels, v[j]);
        assert(v[j] == labels[k]);
    }
    if v.contains(labels[k]) {
        let j = choose|j: int| 0 <= j < v.len() && v[j] == labels[k];
        assert(labels.contains(v[j]));
        lemma_position(labels, v[j]);
        assert(nums[j] == k as usize);
    }
}

/// The flat tree of a contraction order over the tensors of an einsum.
pub fn flat_tree<L: Label>(
    start: &NestedEinsum<L>,
    code: &EinCode<L>,
    dict: &SizeDict<L>,
    is_complex: &[bool],
    merge_factor: Ratio,
    ride_factor: Ratio,
) -> (r: GreenTree)
    requires
        is_complex@.len() == code.ixs@.len(),
        sized_labels(*code, dict@),
        countable(*code),
        orders(*start, *code),
        merge_factor.den > 0,
        ride_factor.den > 0,
    ensures
        r.wf(),
        r@.shape() == start.preorder(0),
        r.net@ == code_net(*code, dict@, is_complex@, merge_factor, ride_factor),
{
    let labels: Vec<L> = build_label_map(code);
    let ghost lists = label_lists(code.ixs@);
    let ghost n = labels@.len();
    proof {
        lemma_labels_of(*code);
        assert forall|k: int| 0 <= k < labels@.len() implies dict@.dom().contains(
            #[trigger] labels@[k],
        ) by {
            assert(labels_of(*code).contains(labels@[k]));
        }
        assert forall|t: int, j: int|
            0 <= t < lists.len() && 0 <= j < lists[t].len() implies labels@.contains(
            #[trigger] lists[t][j],
        ) by {
            assert(lists[t][j] == code.ixs@[t]@[j]);
        }
    }
    let int_ixs: Vec<Vec<usize>> = convert_to_int_indices(&code.ixs, labels.as_slice());
    let int_iy: Vec<usize> = numbers_of(code.iy.as_slice(), labels.as_slice());
    let sizes: Vec<usize> = sizes_of(labels.as_slice(), dict);
    let flags: Vec<bool> = copy_flags(is_complex);
    proof {
        assert forall|l: int| 0 <= l < sizes@.len() implies #[trigger] degree(deep(int_ixs@), l)
            <= i16::MAX by {
            lemma_numbered_degree(lists, labels@, l);
            assert(labels_of(*code).contains(labels@[l]));
        }
        assert forall|l: int| 0 <= l < sizes@.len() implies #[trigger] start.label_count(
            deep(int_ixs@),
            l,
        ) <= i16::MAX by {
            lemma_numbered_uses(*start, lists, labels@, l);
            assert(labels_of(*code).contains(labels@[l]));
        }
        assert(deep(int_ixs@).len() == lists.len());
    }
    let r = GreenTree::from_nested(
        start,
        int_ixs,
        int_iy,
        sizes,
        flags,
        merge_factor,
        ride_factor,
    );
    proof {
        let net = code_net(*code, dict@, is_complex@, merge_factor, ride_factor);
        assert forall|l: int| 0 <= l < n implies r.net.is_output@[l] == net.outputs[l] by {
            lemma_numbered_contains(code.iy@, int_iy@, labels@, l);
        }
        assert(r.net@.outputs =~= net.outputs);
    }
    r
}

/// The labels of all the tensors of an einsum are known where its own labels
/// are numbered.
pub proof fn lemma_exportable<L>(s: Shape, code: EinCode<L>)
    requires
        s.leaves_below(code.ixs@.len() as int),
    ensures
        leaves_known(s, label_lists(code.ixs@), labels_of(code), labels_of(code).len() as int),
        exportable(s, label_lists(code.ixs@), labels_of(code), labels_of(code).len() as int),
    decreases s,
{
    let lists = label_lists(code.ixs@);
    let labels = labels_of(code);
    match s {
        Shape::Leaf { tensor, .. } => {
            lemma_labels_of(code);
            assert forall|k: int| 0 <= k < lists[tensor].len() implies known(
                labels,
                labels.len() as int,
                #[trigger] lists[tensor][k],
            ) by {
                assert(lists[tensor][k] == code.ixs@[tensor]@[k]);
                lemma_position(labels, lists[tensor][k]);
            }
        },
        Shape::Node { left, right, .. } => {
            lemma_exportable(*left, code);
            lemma_exportable(*right, code);
        },
    }
}

impl GreenTree {
    /// Exports a tree over the tensors of the einsum; `labels` are those of
    /// [`labels_of`].
    pub fn to_order<L: Label>(&self, code: &EinCode<L>, labels: &Vec<L>) -> (r: NestedEinsum<L>)
        requires
            self.wf(),
            labels@ == labels_of(*code),
            self.net@.ixs.len() == code.ixs@.len(),
            self.net@.sizes.len() == labels@.len(),
        ensures
            r.binary(),
            r.model() == code_exported(self@.shape(), self.net@, *code),
    {
        proof {
            lemma_exportable(self@.shape(), *code);
        }
        self.to_nested(code.ixs.as_slice(), code.iy.as_slice(), labels.as_slice())
    }
}

proof fn lemma_arrays_at(
    s: Shape,
    l1: Seq<usize>,
    r1: Seq<usize>,
    t1: Seq<usize>,
    l2: Seq<usize>,
    r2: Seq<usize>,
    t2: Seq<usize>,
    i: int,
)
    requires
        encodes(s, l1, r1, t1),
        encodes(s, l2, r2, t2),
        s.has(i),
    ensures
        l1[i] == l2[i],
        r1[i] == r2[i],
        t1[i] == t2[i],
    decreases s,
{
    match s {
        Shape::Leaf { .. } => {},
        Shape::Node { id, left, right } => {
            if id == i {
            } else if left.has(i) {
                lemma_arrays_at(*left, l1, r1, t1, l2, r2, t2, i);
            } else {
                lemma_arrays_at(*right, l1, r1, t1, l2, r2, t2, i);
            }
        },
    }
}

proof fn lemma_parent_at(s: Shape, p1: Seq<usize>, p2: Seq<usize>, i: int)
    requires
        parented(s, p1),
        parented(s, p2),
        s.has(i),
        i != s.id(),
    ensures
        p1[i] == p2[i],
    decreases s,
{
    match s {
        Shape::Leaf { .. } => {},
        Shape::Node { left, right, .. } => {
            if i != left.id() && i != right.id() {
                if left.has(i) {
                    lemma_parent_at(*left, p1, p2, i);
                } else {
                    lemma_parent_at(*right, p1, p2, i);
                }
            }
        },
    }
}

/// The arrays of a tree are determined by its shape.
pub proof fn lemma_arrays_by_shape(
    a: Links,
    b: Links,
    ta: Seq<usize>,
    tb: Seq<usize>,
    na: Net,
    nb: Net,
)
    requires
        a.wf(ta, na),
        b.wf(tb, nb),
        a.shape == b.shape,
    ensures
        a == b,
        ta == tb,
{
    if ta.len() < tb.len() {
        assert(b.shape.has(ta.len() as int));
        assert(a.shape.has(ta.len() as int));
    }
    if tb.len() < ta.len() {
        assert(a.shape.has(tb.len() as int));
        assert(b.shape.has(tb.len() as int));
    }
    assert forall|i: int|
        #![trigger ta[i]]
        #![trigger a.left[i]]
        #![trigger a.right[i]]
        #![trigger a.parent[i]]
        0 <= i < ta.len() implies ta[i] == tb[i] && a.left[i] == b.left[i] && a.right[i]
        == b.right[i] && a.parent[i] == b.parent[i] by {
        assert(a.shape.has(i));
        lemma_arrays_at(a.shape, a.left, a.right, ta, b.left, b.right, tb, i);
        if i != a.shape.id() {
            lemma_parent_at(a.shape, a.parent, b.parent, i);
        }
    }
    assert(ta =~= tb);
    assert(a.left =~= b.left);
    assert(a.right =~= b.right);
    assert(a.parent =~= b.parent);
}

/// A tree counts the labels of its tensors; nothing else of the network matters.
pub proof fn lemma_count_by_ixs(s: Shape, na: Net, nb: Net, l: int)
    requires
        na.ixs == nb.ixs,
    ensures
        s.count(na, l) == s.count(nb, l),
    decreases s,
{
    match s {
        Shape::Leaf { .. } => {},
        Shape::Node { left, right, .. } => {
            lemma_count_by_ixs(*left, na, nb, l);
            lemma_count_by_ixs(*right, na, nb, l);
        },
    }
}

/// A structure that fits a tree fits every tree over the same leaves and the
/// same labelled tensors.
pub proof fn lemma_links_carry(x: Links, tens: Seq<usize>, na: Net, nb: Net)
    requires
        x.wf(tens, na),
        na.ixs == nb.ixs,
        na.sizes.len() == nb.sizes.len(),
    ensures
        x.wf(tens, nb),
{
    assert forall|l: int| 0 <= l < nb.nlabels() implies #[trigger] x.shape.count(nb, l)
        <= i16::MAX by {
        lemma_count_by_ixs(x.shape, na, nb, l);
        assert(x.shape.count(na, l) <= i16::MAX);
    }
}

} // verus!
