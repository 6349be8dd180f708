//! Einsum codes and nested contraction orders.

use crate::labels::copy_labels;
use crate::network::{occurrences, Net};
use crate::shape::Shape;
use vstd::prelude::*;

verus! {

/// What labels a tensor index: a value that can be compared and copied.
pub trait Label: Sized {
    /// Whether the two labels are the same.
    fn same(&self, other: &Self) -> (r: bool)
        ensures
            r == (*self == *other),
    ;

    /// A copy of the label.
    fn duplicate(&self) -> (r: Self)
        ensures
            r == *self,
    ;
}

impl Label for usize {
    fn same(&self, other: &Self) -> (r: bool) {
        *self == *other
    }

    fn duplicate(&self) -> (r: Self) {
        *self
    }
}

impl Label for u32 {
    fn same(&self, other: &Self) -> (r: bool) {
        *self == *other
    }

    fn duplicate(&self) -> (r: Self) {
        *self
    }
}

impl Label for char {
    fn same(&self, other: &Self) -> (r: bool) {
        *self == *other
    }

    fn duplicate(&self) -> (r: Self) {
        *self
    }
}

/// The labels of each list.
pub open spec fn label_lists<L>(v: Seq<Vec<L>>) -> Seq<Seq<L>> {
    Seq::new(v.len(), |i: int| v[i]@)
}

/// An einsum: the labels of each input and of the output.
#[derive(Debug, PartialEq, Eq)]
pub struct EinCode<L> {
    /// The labels of each input tensor.
    pub ixs: Vec<Vec<L>>,
    /// The labels of the output.
    pub iy: Vec<L>,
}

/// A copy of lists of labels.
fn copy_label_lists<L: Label>(v: &Vec<Vec<L>>) -> (r: Vec<Vec<L>>)
    ensures
        label_lists(r@) == label_lists(v@),
{
    let mut r: Vec<Vec<L>> = Vec::with_capacity(v.len());
    let mut i: usize = 0;
    while i < v.len()
        invariant
            i <= v@.len(),
            r@.len() == i,
            forall|j: int| 0 <= j < i ==> (#[trigger] r@[j])@ == v@[j]@,
        decreases v@.len() - i,
    {
        r.push(copy_labels(v[i].as_slice()));
        i += 1;
    }
    assert(label_lists(r@) =~= label_lists(v@));
    r
}

impl<L: Label> Clone for EinCode<L> {
    fn clone(&self) -> (r: EinCode<L>)
        ensures
            label_lists(r.ixs@) == label_lists(self.ixs@),
            r.iy@ == self.iy@,
    {
        EinCode { ixs: copy_label_lists(&self.ixs), iy: copy_labels(self.iy.as_slice()) }
    }
}

impl<L> EinCode<L> {
    /// The einsum with the inputs `ixs` and the output `iy`.
    pub fn new(ixs: Vec<Vec<L>>, iy: Vec<L>) -> (r: EinCode<L>)
        ensures
            r.ixs == ixs,
            r.iy == iy,
    {
        EinCode { ixs, iy }
    }

    /// The number of input tensors.
    pub fn num_tensors(&self) -> (r: usize)
        ensures
            r == self.ixs@.len(),
    {
        self.ixs.len()
    }
}

/// A contraction order: a tree of einsums over the input tensors.
#[derive(Debug, PartialEq, Eq)]
pub enum NestedEinsum<L> {
    /// An input tensor.
    Leaf { tensor_index: usize },
    /// An einsum over the results of its arguments.
    Node { args: Vec<NestedEinsum<L>>, eins: EinCode<L> },
}

/// A binary contraction order as a mathematical value.
pub enum Contraction<L> {
    /// An input tensor.
    Leaf { tensor: int },
    /// An einsum over two subtrees.
    Node { left: Box<Contraction<L>>, right: Box<Contraction<L>>, ixs: Seq<Seq<L>>, iy: Seq<L> },
}

impl<L> NestedEinsum<L> {
    /// Whether every inner node has two arguments.
    pub open spec fn binary(self) -> bool
        decreases self,
    {
        match self {
            NestedEinsum::Leaf { .. } => true,
            NestedEinsum::Node { args, .. } => args@.len() == 2 && args@[0].binary()
                && args@[1].binary(),
        }
    }

    /// The number of nodes of a binary order.
    pub open spec fn size(self) -> nat
        decreases self,
    {
        match self {
            NestedEinsum::Leaf { .. } => 1,
            NestedEinsum::Node { args, .. } => if args@.len() == 2 {
                1 + args@[0].size() + args@[1].size()
            } else {
                1
            },
        }
    }

    /// Whether every leaf of a binary order names one of `n` tensors.
    pub open spec fn tensors_below(self, n: int) -> bool
        decreases self,
    {
        match self {
            NestedEinsum::Leaf { tensor_index } => tensor_index < n,
            NestedEinsum::Node { args, .. } => args@.len() == 2 ==> args@[0].tensors_below(n)
                && args@[1].tensors_below(n),
        }
    }

    /// The occurrences of the label `l` in the leaves of a binary order over
    /// tensors with the labels `ixs`.
    pub open spec fn label_count(self, ixs: Seq<Seq<usize>>, l: int) -> nat
        decreases self,
    {
        match self {
            NestedEinsum::Leaf { tensor_index } => occurrences(ixs[tensor_index as int], l),
            NestedEinsum::Node { args, .. } => if args@.len() == 2 {
                args@[0].label_count(ixs, l) + args@[1].label_count(ixs, l)
            } else {
                0
            },
        }
    }

    /// The shape of a binary order with its nodes numbered in pre-order from
    /// `base` on.
    pub open spec fn preorder(self, base: int) -> Shape
        decreases self,
    {
        match self {
            NestedEinsum::Leaf { tensor_index } => Shape::Leaf {
                id: base,
                tensor: tensor_index as int,
            },
            NestedEinsum::Node { args, .. } => if args@.len() == 2 {
                Shape::Node {
                    id: base,
                    left: Box::new(args@[0].preorder(base + 1)),
                    right: Box::new(args@[1].preorder(base + 1 + args@[0].size())),
                }
            } else {
                Shape::Leaf { id: base, tensor: 0 }
            },
        }
    }

    /// A binary order with its einsums.
    pub open spec fn model(self) -> Contraction<L>
        decreases self,
    {
        match self {
            NestedEinsum::Leaf { tensor_index } => Contraction::Leaf {
                tensor: tensor_index as int,
            },
            NestedEinsum::Node { args, eins } => if args@.len() == 2 {
                Contraction::Node {
                    left: Box::new(args@[0].model()),
                    right: Box::new(args@[1].model()),
                    ixs: label_lists(eins.ixs@),
                    iy: eins.iy@,
                }
            } else {
                Contraction::Leaf { tensor: 0 }
            },
        }
    }

    /// The order that is the input tensor `tensor_index`.
    pub fn leaf(tensor_index: usize) -> (r: NestedEinsum<L>)
        ensures
            r == (NestedEinsum::<L>::Leaf { tensor_index }),
    {
        NestedEinsum::Leaf { tensor_index }
    }

    /// The order that contracts `args` by `eins`.
    pub fn node(args: Vec<NestedEinsum<L>>, eins: EinCode<L>) -> (r: NestedEinsum<L>)
        ensures
            r == (NestedEinsum::Node { args, eins }),
    {
        NestedEinsum::Node { args, eins }
    }

    /// Whether the order is a single input tensor.
    pub fn is_leaf(&self) -> (r: bool)
        ensures
            r == (*self is Leaf),
    {
        match self {
            NestedEinsum::Leaf { .. } => true,
            NestedEinsum::Node { .. } => false,
        }
    }

    /// Whether every inner node has two arguments.
    pub fn is_binary(&self) -> (r: bool)
        ensures
            r == self.binary(),
        decreases self,
    {
        match self {
            NestedEinsum::Leaf { .. } => true,
            NestedEinsum::Node { args, .. } => args.len() == 2 && args[0].is_binary()
                && args[1].is_binary(),
        }
    }

    /// The number of leaves of a binary order.
    pub open spec fn leaves(self) -> nat
        decreases self,
    {
        match self {
            NestedEinsum::Leaf { .. } => 1,
            NestedEinsum::Node { args, .. } => if args@.len() == 2 {
                args@[0].leaves() + args@[1].leaves()
            } else {
                0
            },
        }
    }

    /// The number of leaves of a binary order.
    pub fn leaf_count(&self) -> (r: usize)
        requires
            self.binary(),
            self.leaves() <= usize::MAX,
        ensures
            r == self.leaves(),
        decreases self,
    {
        match self {
            NestedEinsum::Leaf { .. } => 1,
            NestedEinsum::Node { args, .. } => args[0].leaf_count() + args[1].leaf_count(),
        }
    }
}

impl<L> NestedEinsum<L> {
    /// Whether two orders agree in structure and einsums.
    pub open spec fn same_order(self, other: NestedEinsum<L>) -> bool
        decreases self,
    {
        match self {
            NestedEinsum::Leaf { tensor_index } => other == (NestedEinsum::<L>::Leaf {
                tensor_index,
            }),
            NestedEinsum::Node { args, eins } => {
                &&& other is Node
                &&& other->args@.len() == args@.len()
                &&& label_lists(other->eins.ixs@) == label_lists(eins.ixs@)
                &&& other->eins.iy@ == eins.iy@
                &&& forall|i: int|
                    0 <= i < args@.len() ==> (#[trigger] args@[i]).same_order(other->args@[i])
            },
        }
    }
}

impl<L: Label> Clone for NestedEinsum<L> {
    fn clone(&self) -> (r: NestedEinsum<L>)
        ensures
            self.same_order(r),
        decreases self,
    {
        match self {
            NestedEinsum::Leaf { tensor_index } => NestedEinsum::Leaf {
                tensor_index: *tensor_index,
            },
            NestedEinsum::Node { args, eins } => {
                let mut copies: Vec<NestedEinsum<L>> = Vec::with_capacity(args.len());
                let mut i: usize = 0;
                while i < args.len()
                    invariant
                        i <= args@.len(),
                        *self is Node,
                        *args == self->args,
                        copies@.len() == i,
                        forall|j: int|
                            0 <= j < i ==> (#[trigger] args@[j]).same_order(copies@[j]),
                    decreases args@.len() - i,
                {
                    let copy: NestedEinsum<L> = args[i].clone();
                    copies.push(copy);
                    i += 1;
                }
                NestedEinsum::Node { args: copies, eins: eins.clone() }
            },
        }
    }
}

/// The nodes of a pre-order numbering are the numbers from its base on.
pub proof fn lemma_preorder<L>(x: NestedEinsum<L>, base: int)
    requires
        x.binary(),
    ensures
        x.preorder(base).id() == base,
        x.preorder(base).size() == x.size(),
        x.preorder(base).distinct(),
        forall|i: int| #[trigger] x.preorder(base).has(i) <==> base <= i < base + x.size(),
    decreases x,
{
    match x {
        NestedEinsum::Leaf { .. } => {},
        NestedEinsum::Node { args, .. } => {
            lemma_preorder(args@[0], base + 1);
            lemma_preorder(args@[1], base + 1 + args@[0].size());
            let s = x.preorder(base);
            assert forall|i: int| #[trigger] s.has(i) <==> base <= i < base + x.size() by {
                assert(s->Node_left.has(i) <==> base + 1 <= i < base + 1 + args@[0].size());
                assert(s->Node_right.has(i) <==> base + 1 + args@[0].size() <= i < base
                    + x.size());
            }
        },
    }
}

/// A pre-order numbering has the leaves of the order.
pub proof fn lemma_preorder_leaves<L>(x: NestedEinsum<L>, base: int, net: Net)
    requires
        x.binary(),
    ensures
        forall|n: int| x.tensors_below(n) ==> #[trigger] x.preorder(base).leaves_below(n),
        forall|l: int| #[trigger] x.preorder(base).count(net, l) == x.label_count(net.ixs, l),
    decreases x,
{
    match x {
        NestedEinsum::Leaf { .. } => {},
        NestedEinsum::Node { args, .. } => {
            lemma_preorder_leaves(args@[0], base + 1, net);
            lemma_preorder_leaves(args@[1], base + 1 + args@[0].size(), net);
            let s = x.preorder(base);
            assert forall|n: int| x.tensors_below(n) implies #[trigger] s.leaves_below(n) by {
                assert(s->Node_left.leaves_below(n));
                assert(s->Node_right.leaves_below(n));
            }
            assert forall|l: int| #[trigger] s.count(net, l) == x.label_count(net.ixs, l) by {
                assert(s->Node_left.count(net, l) == args@[0].label_count(net.ixs, l));
                assert(s->Node_right.count(net, l) == args@[1].label_count(net.ixs, l));
            }
        },
    }
}

} // verus!
