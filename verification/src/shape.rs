//! Contraction trees as mathematical values.
//!
//! A [`Shape`] is a binary tree whose every node carries the index of its slot
//! in the flat arrays. What a tree costs is defined here, by recursion over the
//! shape; the flat arrays are held to these definitions.

use crate::network::{occurrences, step_kind, Net, StepKind};
use vstd::multiset::Multiset;
use vstd::prelude::*;

verus! {

/// A binary contraction tree with numbered nodes.
pub enum Shape {
    /// An input tensor.
    Leaf { id: int, tensor: int },
    /// The contraction of two subtrees.
    Node { id: int, left: Box<Shape>, right: Box<Shape> },
}

impl Shape {
    /// The number of the root.
    pub open spec fn id(self) -> int {
        match self {
            Shape::Leaf { id, .. } => id,
            Shape::Node { id, .. } => id,
        }
    }

    /// Whether the node `i` occurs.
    pub open spec fn has(self, i: int) -> bool
        decreases self,
    {
        match self {
            Shape::Leaf { id, .. } => id == i,
            Shape::Node { id, left, right } => id == i || left.has(i) || right.has(i),
        }
    }

    /// Whether no number occurs twice.
    pub open spec fn distinct(self) -> bool
        decreases self,
    {
        match self {
            Shape::Leaf { .. } => true,
            Shape::Node { id, left, right } => {
                &&& left.distinct()
                &&& right.distinct()
                &&& !left.has(id)
                &&& !right.has(id)
                &&& disjoint(*left, *right)
            },
        }
    }

    /// The subtree at the node `i`.
    pub open spec fn at(self, i: int) -> Shape
        decreases self,
    {
        match self {
            Shape::Leaf { .. } => self,
            Shape::Node { id, left, right } => if id == i {
                self
            } else if left.has(i) {
                left.at(i)
            } else {
                right.at(i)
            },
        }
    }

    /// The tree with the subtree at the node `i` replaced by `t`.
    pub open spec fn with(self, i: int, t: Shape) -> Shape
        decreases self,
    {
        if self.id() == i {
            t
        } else {
            match self {
                Shape::Leaf { .. } => self,
                Shape::Node { id, left, right } => if left.has(i) {
                    Shape::Node { id, left: Box::new(left.with(i, t)), right }
                } else if right.has(i) {
                    Shape::Node { id, left, right: Box::new(right.with(i, t)) }
                } else {
                    self
                },
            }
        }
    }

    /// The number of nodes.
    pub open spec fn size(self) -> nat
        decreases self,
    {
        match self {
            Shape::Leaf { .. } => 1,
            Shape::Node { left, right, .. } => 1 + left.size() + right.size(),
        }
    }

    /// Whether every leaf names one of `n` tensors.
    pub open spec fn leaves_below(self, n: int) -> bool
        decreases self,
    {
        match self {
            Shape::Leaf { tensor, .. } => 0 <= tensor < n,
            Shape::Node { left, right, .. } => left.leaves_below(n) && right.leaves_below(n),
        }
    }

    /// How often each tensor occurs as a leaf.
    pub open spec fn tensors(self) -> Multiset<int>
        decreases self,
    {
        match self {
            Shape::Leaf { tensor, .. } => Multiset::singleton(tensor),
            Shape::Node { left, right, .. } => left.tensors().add(right.tensors()),
        }
    }

    /// The occurrences of the label `l` in the tensors of the tree.
    pub open spec fn count(self, net: Net, l: int) -> nat
        decreases self,
    {
        match self {
            Shape::Leaf { tensor, .. } => occurrences(net.ixs[tensor], l),
            Shape::Node { left, right, .. } => left.count(net, l) + right.count(net, l),
        }
    }

    /// The occurrences of every label.
    pub open spec fn counts(self, net: Net) -> Seq<int> {
        Seq::new(net.sizes.len(), |l: int| self.count(net, l) as int)
    }

    /// Whether some tensor of the tree is structurally complex.
    pub open spec fn green(self, net: Net) -> bool
        decreases self,
    {
        match self {
            Shape::Leaf { tensor, .. } => net.complex[tensor],
            Shape::Node { left, right, .. } => left.green(net) || right.green(net),
        }
    }

    /// The kind of the step at the root (of an inner node).
    pub open spec fn kind(self, net: Net) -> StepKind {
        match self {
            Shape::Leaf { .. } => StepKind::Pass,
            Shape::Node { left, right, .. } => step_kind(left.green(net), right.green(net)),
        }
    }

    /// The volume of the step at the root: the product of the dimensions of
    /// its open labels; zero at a leaf, where nothing is contracted.
    pub open spec fn volume(self, net: Net) -> nat {
        match self {
            Shape::Leaf { .. } => 0,
            Shape::Node { left, right, .. } => net.open_volume(
                left.counts(net),
                right.counts(net),
                net.nlabels(),
            ),
        }
    }

    /// What the step at the root costs.
    pub open spec fn step_cost(self, net: Net) -> nat {
        self.volume(net) * net.weight(self.kind(net))
    }

    /// What all the steps of the tree cost together.
    pub open spec fn cost(self, net: Net) -> nat
        decreases self,
    {
        self.step_cost(net) + match self {
            Shape::Leaf { .. } => 0,
            Shape::Node { left, right, .. } => left.cost(net) + right.cost(net),
        }
    }

    /// The volume of all the steps of the tree together.
    pub open spec fn real_cost(self, net: Net) -> nat
        decreases self,
    {
        self.volume(net) + match self {
            Shape::Leaf { .. } => 0,
            Shape::Node { left, right, .. } => left.real_cost(net) + right.real_cost(net),
        }
    }

    /// The volume of the steps of one kind.
    pub open spec fn volume_of_kind(self, net: Net, k: StepKind) -> nat
        decreases self,
    {
        match self {
            Shape::Leaf { .. } => 0,
            Shape::Node { left, right, .. } => left.volume_of_kind(net, k) + right.volume_of_kind(
                net,
                k,
            ) + if self.kind(net) == k {
                self.volume(net)
            } else {
                0
            },
        }
    }

    /// Whether the node `c` is an inner child of the root.
    pub open spec fn rotatable(self, c: int) -> bool {
        match self {
            Shape::Leaf { .. } => false,
            Shape::Node { left, right, .. } => {
                ||| *left is Node && left.id() == c
                ||| *right is Node && right.id() == c
            },
        }
    }

    /// The associativity rotation at the root `n` of a tree `n = (c, x)` with
    /// `c = (keep, mov)`, in either order of the children: it gives
    /// `n = (c, mov)` with `c = (x, keep)`. The kept grandchild is the left
    /// child of `c` where `keep_left`, else the right one.
    pub open spec fn rotated(self, c: int, keep_left: bool) -> Shape {
        match self {
            Shape::Leaf { .. } => self,
            Shape::Node { id, left, right } => {
                let (p, x) = if *left is Node && left.id() == c {
                    (*left, right)
                } else {
                    (*right, left)
                };
                match p {
                    Shape::Leaf { .. } => self,
                    Shape::Node { id: cid, left: cl, right: cr } => {
                        let (keep, mov) = if keep_left {
                            (cl, cr)
                        } else {
                            (cr, cl)
                        };
                        Shape::Node {
                            id,
                            left: Box::new(Shape::Node { id: cid, left: x, right: keep }),
                            right: mov,
                        }
                    },
                }
            },
        }
    }

    /// The rotation at the node `n` of the tree.
    pub open spec fn rotated_at(self, n: int, c: int, keep_left: bool) -> Shape {
        self.with(n, self.at(n).rotated(c, keep_left))
    }
}

/// Whether two trees share no node.
pub open spec fn disjoint(a: Shape, b: Shape) -> bool {
    forall|i: int| #![trigger a.has(i)] #![trigger b.has(i)] !(a.has(i) && b.has(i))
}

/// Whether two trees have the same nodes.
pub open spec fn same_nodes(a: Shape, b: Shape) -> bool {
    forall|i: int| #![trigger a.has(i)] #![trigger b.has(i)] a.has(i) == b.has(i)
}

/// Whether two trees look alike from above: the same root number, the same
/// label counts, the same greenness.
pub open spec fn alike(a: Shape, b: Shape, net: Net) -> bool {
    &&& a.id() == b.id()
    &&& a.counts(net) == b.counts(net)
    &&& a.green(net) == b.green(net)
}

/// What holds of the subtree at a node that occurs.
pub proof fn lemma_at(s: Shape, i: int)
    requires
        s.has(i),
    ensures
        s.at(i).id() == i,
        s.at(i).has(i),
        forall|j: int| #[trigger] s.at(i).has(j) ==> s.has(j),
        s.distinct() ==> s.at(i).distinct(),
        s.at(i).size() <= s.size(),
        forall|n: int| s.leaves_below(n) ==> #[trigger] s.at(i).leaves_below(n),
        forall|net: Net, l: int| #[trigger] s.at(i).count(net, l) <= s.count(net, l),
    decreases s,
{
    match s {
        Shape::Leaf { .. } => {},
        Shape::Node { id, left, right } => {
            if id == i {
            } else if left.has(i) {
                lemma_at(*left, i);
                assert forall|net: Net, l: int| #[trigger] s.at(i).count(net, l) <= s.count(
                    net,
                    l,
                ) by {
                    assert(left.at(i).count(net, l) <= left.count(net, l));
                }
            } else {
                lemma_at(*right, i);
                assert forall|net: Net, l: int| #[trigger] s.at(i).count(net, l) <= s.count(
                    net,
                    l,
                ) by {
                    assert(right.at(i).count(net, l) <= right.count(net, l));
                }
            }
        },
    }
}

/// A tree has its root.
pub proof fn lemma_has_root(s: Shape)
    ensures
        s.has(s.id()),
        s.at(s.id()) == s,
{
}

/// The subtree at a node of a subtree is the subtree at that node.
pub proof fn lemma_at_at(s: Shape, i: int, j: int)
    requires
        s.distinct(),
        s.has(i),
        s.at(i).has(j),
    ensures
        s.at(i).at(j) == s.at(j),
        s.has(j),
    decreases s,
{
    lemma_at(s, i);
    match s {
        Shape::Leaf { .. } => {},
        Shape::Node { id, left, right } => {
            if id == i {
            } else if left.has(i) {
                lemma_at(*left, i);
                lemma_at_at(*left, i, j);
                assert(left.has(j));
            } else {
                lemma_at(*right, i);
                lemma_at_at(*right, i, j);
                assert(right.has(j));
            }
        },
    }
}

/// Replacing a subtree by one on the same nodes keeps the nodes and their
/// distinctness.
pub proof fn lemma_with(s: Shape, i: int, t: Shape)
    requires
        s.distinct(),
        s.has(i),
        t.id() == i,
        t.distinct(),
        same_nodes(s.at(i), t),
    ensures
        s.with(i, t).distinct(),
        same_nodes(s, s.with(i, t)),
        s.with(i, t).id() == s.id(),
        s.with(i, t).at(i) == t,
        s.with(i, t).has(i),
    decreases s,
{
    match s {
        Shape::Leaf { .. } => {
            lemma_has_root(t);
        },
        Shape::Node { id, left, right } => {
            if id == i {
                lemma_has_root(t);
            } else if left.has(i) {
                lemma_with(*left, i, t);
                let s2 = s.with(i, t);
                assert forall|j: int| s.has(j) == #[trigger] s2.has(j) by {
                    assert(left.has(j) == left.with(i, t).has(j));
                }
            } else {
                lemma_with(*right, i, t);
                let s2 = s.with(i, t);
                assert forall|j: int| s.has(j) == #[trigger] s2.has(j) by {
                    assert(right.has(j) == right.with(i, t).has(j));
                }
            }
        },
    }
}

/// Replacing a subtree by one that looks alike moves the cost of the tree by
/// the difference of the two, and the tree itself looks as before.
pub proof fn lemma_with_cost(s: Shape, i: int, t: Shape, net: Net)
    requires
        s.has(i),
        alike(s.at(i), t, net),
    ensures
        alike(s, s.with(i, t), net),
        s.with(i, t).cost(net) - s.cost(net) == t.cost(net) - s.at(i).cost(net),
        s.with(i, t).real_cost(net) - s.real_cost(net) == t.real_cost(net) - s.at(i).real_cost(net),
    decreases s,
{
    match s {
        Shape::Leaf { .. } => {},
        Shape::Node { id, left, right } => {
            if id == i {
            } else if left.has(i) {
                lemma_with_cost(*left, i, t, net);
                let l2 = left.with(i, t);
                let s2 = s.with(i, t);
                lemma_counts_node(s, net);
                lemma_counts_node(s2, net);
                assert(s2.counts(net) =~= s.counts(net));
            } else {
                lemma_with_cost(*right, i, t, net);
                let r2 = right.with(i, t);
                let s2 = s.with(i, t);
                lemma_counts_node(s, net);
                lemma_counts_node(s2, net);
                assert(s2.counts(net) =~= s.counts(net));
            }
        },
    }
}

/// The counts of an inner node are the sums of its children's.
pub proof fn lemma_counts_node(s: Shape, net: Net)
    ensures
        s matches Shape::Node { left, right, .. } ==> forall|l: int|
            0 <= l < net.sizes.len() ==> #[trigger] s.counts(net)[l] == left.counts(net)[l]
                + right.counts(net)[l],
{
}

/// Replacing a subtree keeps what the leaves are where the new subtree has the
/// same ones.
pub proof fn lemma_with_leaves(s: Shape, i: int, t: Shape)
    requires
        s.has(i),
        s.at(i).tensors() == t.tensors(),
    ensures
        s.with(i, t).tensors() == s.tensors(),
    decreases s,
{
    match s {
        Shape::Leaf { .. } => {},
        Shape::Node { id, left, right } => {
            if id == i {
            } else if left.has(i) {
                lemma_with_leaves(*left, i, t);
            } else {
                lemma_with_leaves(*right, i, t);
            }
        },
    }
}

pub proof fn lemma_with_leaves_below(s: Shape, i: int, t: Shape, n: int)
    requires
        s.leaves_below(n),
        t.leaves_below(n),
    ensures
        s.with(i, t).leaves_below(n),
    decreases s,
{
    match s {
        Shape::Leaf { .. } => {},
        Shape::Node { id, left, right } => {
            if id == i {
            } else if left.has(i) {
                lemma_with_leaves_below(*left, i, t, n);
            } else if right.has(i) {
                lemma_with_leaves_below(*right, i, t, n);
            }
        },
    }
}

/// A rotation keeps the nodes, the leaves and the look of the subtree at which
/// it is made.
pub proof fn lemma_rotated(t: Shape, c: int, keep_left: bool)
    requires
        t.distinct(),
        t.rotatable(c),
    ensures
        t.rotated(c, keep_left).id() == t.id(),
        t.rotated(c, keep_left).distinct(),
        same_nodes(t, t.rotated(c, keep_left)),
        t.rotated(c, keep_left).tensors() == t.tensors(),
        forall|net: Net| #[trigger] alike(t, t.rotated(c, keep_left), net),
        forall|n: int| t.leaves_below(n) ==> #[trigger] t.rotated(c, keep_left).leaves_below(n),
{
    reveal_with_fuel(Shape::has, 3);
    reveal_with_fuel(Shape::distinct, 3);
    reveal_with_fuel(Shape::count, 3);
    reveal_with_fuel(Shape::green, 3);
    reveal_with_fuel(Shape::tensors, 3);
    reveal_with_fuel(Shape::leaves_below, 3);
    let r = t.rotated(c, keep_left);
    match t {
        Shape::Leaf { .. } => {},
        Shape::Node { id, left, right } => {
            lemma_has_root(*left);
            lemma_has_root(*right);
            let (p, x) = if *left is Node && left.id() == c {
                (*left, *right)
            } else {
                (*right, *left)
            };
            assert(disjoint(p, x));
            let (cl, cr) = (p->Node_left, p->Node_right);
            let (keep, mov) = if keep_left {
                (*cl, *cr)
            } else {
                (*cr, *cl)
            };
            assert(disjoint(keep, mov));
            let q = Shape::Node { id: p.id(), left: Box::new(x), right: Box::new(keep) };
            assert(disjoint(x, keep)) by {
                assert forall|i: int| !(#[trigger] x.has(i) && keep.has(i)) by {
                    assert(!(p.has(i) && x.has(i)));
                }
            }
            assert(!x.has(p.id())) by {
                assert(p.has(p.id()));
            }
            assert(q.distinct());
            assert(disjoint(q, mov)) by {
                assert forall|i: int| !(#[trigger] q.has(i) && mov.has(i)) by {
                    assert(!(p.has(i) && x.has(i)));
                    assert(!(keep.has(i) && mov.has(i)));
                }
            }
            assert(r.tensors() =~= t.tensors());
            assert forall|net: Net| #[trigger] alike(t, r, net) by {
                assert(t.counts(net) =~= r.counts(net));
            }
        },
    }
}

/// A rotation in a tree keeps its nodes, its leaves and its look.
pub proof fn lemma_rotated_at(s: Shape, n: int, c: int, keep_left: bool)
    requires
        s.distinct(),
        s.has(n),
        s.at(n).rotatable(c),
    ensures
        s.rotated_at(n, c, keep_left).id() == s.id(),
        s.rotated_at(n, c, keep_left).distinct(),
        same_nodes(s, s.rotated_at(n, c, keep_left)),
        s.rotated_at(n, c, keep_left).at(n) == s.at(n).rotated(c, keep_left),
        s.rotated_at(n, c, keep_left).tensors() == s.tensors(),
        forall|net: Net| #[trigger] alike(s, s.rotated_at(n, c, keep_left), net),
        forall|k: int|
            s.leaves_below(k) ==> #[trigger] s.rotated_at(n, c, keep_left).leaves_below(k),
{
    lemma_at(s, n);
    let t = s.at(n).rotated(c, keep_left);
    lemma_rotated(s.at(n), c, keep_left);
    lemma_with(s, n, t);
    lemma_with_leaves(s, n, t);
    assert forall|net: Net| #[trigger] alike(s, s.rotated_at(n, c, keep_left), net) by {
        assert(alike(s.at(n), t, net));
        lemma_with_cost(s, n, t, net);
    }
    assert forall|k: int| s.leaves_below(k) implies #[trigger] s.rotated_at(
        n,
        c,
        keep_left,
    ).leaves_below(k) by {
        assert(s.at(n).leaves_below(k));
        assert(t.leaves_below(k));
        lemma_with_leaves_below(s, n, t, k);
    }
}

} // verus!
