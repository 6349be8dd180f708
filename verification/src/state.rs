//! The flat arrays of a tree as mathematical values, and what it means that
//! they describe a shape.

use crate::network::{Net, StepKind};
use crate::shape::{alike, lemma_at, lemma_has_root, Shape};
use vstd::prelude::*;

verus! {

/// Stands for "no node" and "no tensor" in the flat arrays.
pub const NONE: usize = usize::MAX;

/// The structure of a tree: child and parent indices by node, and the shape
/// they describe.
pub struct Links {
    /// The left child of each inner node.
    pub left: Seq<usize>,
    /// The right child of each inner node.
    pub right: Seq<usize>,
    /// The parent of each node but the root.
    pub parent: Seq<usize>,
    /// The root.
    pub root: usize,
    /// The tree that the arrays describe.
    pub shape: Shape,
}

/// Everything about a tree that rotations change.
pub struct TreeState {
    /// The structure.
    pub links: Links,
    /// The tensor of each leaf.
    pub tensoridx: Seq<usize>,
    /// The label occurrences below each node.
    pub counts: Seq<Seq<i16>>,
    /// The greenness of each node.
    pub green: Seq<bool>,
    /// The cost of the step at each node.
    pub step: Seq<nat>,
    /// The volume of the step at each node.
    pub real: Seq<nat>,
}

/// Whether the arrays hold the subtree `s`: its inner nodes point to their
/// children, its leaves to their tensors.
pub open spec fn encodes(s: Shape, left: Seq<usize>, right: Seq<usize>, tens: Seq<usize>) -> bool
    decreases s,
{
    match s {
        Shape::Leaf { id, tensor } => {
            &&& 0 <= id < left.len()
            &&& left[id] == NONE
            &&& right[id] == NONE
            &&& tens[id] == tensor
        },
        Shape::Node { id, left: a, right: b } => {
            &&& 0 <= id < left.len()
            &&& left[id] == a.id()
            &&& right[id] == b.id()
            &&& tens[id] == NONE
            &&& encodes(*a, left, right, tens)
            &&& encodes(*b, left, right, tens)
        },
    }
}

/// Whether every node of `s` but its root points back to its parent.
pub open spec fn parented(s: Shape, parent: Seq<usize>) -> bool
    decreases s,
{
    match s {
        Shape::Leaf { .. } => true,
        Shape::Node { id, left, right } => {
            &&& parent[left.id()] == id
            &&& parent[right.id()] == id
            &&& parented(*left, parent)
            &&& parented(*right, parent)
        },
    }
}

/// Whether the nodes of `s` are the numbers below `n`.
pub open spec fn spans(s: Shape, n: int) -> bool {
    forall|i: int| #[trigger] s.has(i) <==> 0 <= i < n
}

impl Links {
    /// Whether the arrays describe the shape as a tree over the tensors of
    /// `net`, with every slot in use and no counter out of range.
    pub open spec fn wf(self, tens: Seq<usize>, net: Net) -> bool {
        &&& self.left.len() <= usize::MAX
        &&& self.right.len() == self.left.len()
        &&& self.parent.len() == self.left.len()
        &&& tens.len() == self.left.len()
        &&& self.shape.id() == self.root
        &&& self.shape.distinct()
        &&& spans(self.shape, self.left.len() as int)
        &&& encodes(self.shape, self.left, self.right, tens)
        &&& parented(self.shape, self.parent)
        &&& self.parent[self.root as int] == NONE
        &&& self.shape.leaves_below(net.ixs.len() as int)
        &&& forall|l: int|
            0 <= l < net.nlabels() ==> #[trigger] self.shape.count(net, l) <= i16::MAX
    }
}

/// Whether the books of the node at the root of `s` are right.
pub open spec fn recorded_node(s: Shape, net: Net, st: TreeState) -> bool {
    let i = s.id();
    &&& st.counts[i].len() == net.nlabels()
    &&& forall|l: int| 0 <= l < net.nlabels() ==> #[trigger] st.counts[i][l] == s.count(net, l)
    &&& st.green[i] == s.green(net)
    &&& st.real[i] == s.volume(net)
    &&& st.step[i] == s.step_cost(net)
}

/// Whether the books of every node of `s` are right.
pub open spec fn recorded(s: Shape, net: Net, st: TreeState) -> bool
    decreases s,
{
    &&& recorded_node(s, net, st)
    &&& match s {
        Shape::Leaf { .. } => true,
        Shape::Node { left, right, .. } => recorded(*left, net, st) && recorded(*right, net, st),
    }
}

impl TreeState {
    /// The tree that the arrays describe.
    pub open spec fn shape(self) -> Shape {
        self.links.shape
    }

    /// The number of nodes.
    pub open spec fn nnodes(self) -> int {
        self.links.left.len() as int
    }

    /// Whether the books have one entry per node.
    pub open spec fn sized(self) -> bool {
        &&& self.counts.len() == self.links.left.len()
        &&& self.green.len() == self.links.left.len()
        &&& self.step.len() == self.links.left.len()
        &&& self.real.len() == self.links.left.len()
    }

    /// Whether the arrays describe the shape and every entry of the books is
    /// what the shape gives.
    pub open spec fn wf(self, net: Net) -> bool {
        &&& self.links.wf(self.tensoridx, net)
        &&& self.sized()
        &&& recorded(self.links.shape, net, self)
    }
}

/// Whether the books agree on the node `i`.
pub open spec fn same_books(a: TreeState, b: TreeState, i: int) -> bool {
    &&& a.counts[i] == b.counts[i]
    &&& a.green[i] == b.green[i]
    &&& a.real[i] == b.real[i]
    &&& a.step[i] == b.step[i]
}

pub proof fn lemma_encodes_frame(
    s: Shape,
    l1: Seq<usize>,
    r1: Seq<usize>,
    t1: Seq<usize>,
    l2: Seq<usize>,
    r2: Seq<usize>,
    t2: Seq<usize>,
)
    requires
        encodes(s, l1, r1, t1),
        l1.len() <= l2.len(),
        forall|i: int| #[trigger] s.has(i) ==> l1[i] == l2[i] && r1[i] == r2[i] && t1[i] == t2[i],
    ensures
        encodes(s, l2, r2, t2),
    decreases s,
{
    lemma_has_root(s);
    match s {
        Shape::Leaf { .. } => {},
        Shape::Node { id, left, right } => {
            assert forall|i: int| #[trigger] left.has(i) implies l1[i] == l2[i] && r1[i] == r2[i]
                && t1[i] == t2[i] by {
                assert(s.has(i));
            }
            assert forall|i: int| #[trigger] right.has(i) implies l1[i] == l2[i] && r1[i] == r2[i]
                && t1[i] == t2[i] by {
                assert(s.has(i));
            }
            lemma_encodes_frame(*left, l1, r1, t1, l2, r2, t2);
            lemma_encodes_frame(*right, l1, r1, t1, l2, r2, t2);
        },
    }
}

pub proof fn lemma_parented_frame(s: Shape, p1: Seq<usize>, p2: Seq<usize>)
    requires
        s.distinct(),
        parented(s, p1),
        forall|i: int| #[trigger] s.has(i) && i != s.id() ==> p1[i] == p2[i],
    ensures
        parented(s, p2),
    decreases s,
{
    match s {
        Shape::Leaf { .. } => {},
        Shape::Node { id, left, right } => {
            lemma_has_root(*left);
            lemma_has_root(*right);
            assert(s.has(left.id()));
            assert(s.has(right.id()));
            assert forall|i: int| #[trigger] left.has(i) && i != left.id() implies p1[i] == p2[i] by {
                assert(s.has(i));
            }
            assert forall|i: int| #[trigger] right.has(i) && i != right.id() implies p1[i]
                == p2[i] by {
                assert(s.has(i));
            }
            lemma_parented_frame(*left, p1, p2);
            lemma_parented_frame(*right, p1, p2);
        },
    }
}

pub proof fn lemma_recorded_frame(s: Shape, net: Net, a: TreeState, b: TreeState)
    requires
        recorded(s, net, a),
        forall|i: int| #[trigger] s.has(i) ==> same_books(a, b, i),
    ensures
        recorded(s, net, b),
    decreases s,
{
    lemma_has_root(s);
    assert(same_books(a, b, s.id()));
    match s {
        Shape::Leaf { .. } => {},
        Shape::Node { id, left, right } => {
            assert forall|i: int| #[trigger] left.has(i) implies same_books(a, b, i) by {
                assert(s.has(i));
            }
            assert forall|i: int| #[trigger] right.has(i) implies same_books(a, b, i) by {
                assert(s.has(i));
            }
            lemma_recorded_frame(*left, net, a, b);
            lemma_recorded_frame(*right, net, a, b);
        },
    }
}

/// What the arrays say of a tree they say of its subtrees.
pub proof fn lemma_subtree(s: Shape, i: int, left: Seq<usize>, right: Seq<usize>, tens: Seq<usize>)
    requires
        encodes(s, left, right, tens),
        s.has(i),
    ensures
        encodes(s.at(i), left, right, tens),
        0 <= i < left.len(),
    decreases s,
{
    match s {
        Shape::Leaf { .. } => {},
        Shape::Node { id, left: a, right: b } => {
            if id == i {
            } else if a.has(i) {
                lemma_subtree(*a, i, left, right, tens);
            } else {
                lemma_subtree(*b, i, left, right, tens);
            }
        },
    }
}

/// What the arrays say of one node.
pub proof fn lemma_node(s: Shape, i: int, left: Seq<usize>, right: Seq<usize>, tens: Seq<usize>)
    requires
        s.distinct(),
        encodes(s, left, right, tens),
        left.len() <= usize::MAX,
        s.has(i),
    ensures
        0 <= i < left.len(),
        s.at(i).id() == i,
        s.at(i).distinct(),
        encodes(s.at(i), left, right, tens),
        (s.at(i) is Leaf) == (left[i] == NONE),
        s.at(i) matches Shape::Node { left: a, right: b, .. } ==> {
            &&& left[i] == a.id()
            &&& right[i] == b.id()
            &&& 0 <= a.id() < left.len()
            &&& 0 <= b.id() < left.len()
            &&& s.has(a.id())
            &&& s.has(b.id())
            &&& s.at(a.id()) == *a
            &&& s.at(b.id()) == *b
            &&& a.id() != b.id()
            &&& a.id() != i
            &&& b.id() != i
        },
{
    lemma_subtree(s, i, left, right, tens);
    lemma_at(s, i);
    match s.at(i) {
        Shape::Leaf { .. } => {},
        Shape::Node { left: a, right: b, .. } => {
            lemma_has_root(*a);
            lemma_has_root(*b);
            lemma_subtree(*a, a.id(), left, right, tens);
            lemma_subtree(*b, b.id(), left, right, tens);
            crate::shape::lemma_at_at(s, i, a.id());
            crate::shape::lemma_at_at(s, i, b.id());
        },
    }
}

pub proof fn lemma_subtree_parented(s: Shape, i: int, parent: Seq<usize>)
    requires
        parented(s, parent),
        s.has(i),
    ensures
        parented(s.at(i), parent),
    decreases s,
{
    match s {
        Shape::Leaf { .. } => {},
        Shape::Node { id, left, right } => {
            if id == i {
            } else if left.has(i) {
                lemma_subtree_parented(*left, i, parent);
            } else {
                lemma_subtree_parented(*right, i, parent);
            }
        },
    }
}

pub proof fn lemma_subtree_recorded(s: Shape, i: int, net: Net, st: TreeState)
    requires
        recorded(s, net, st),
        s.has(i),
    ensures
        recorded(s.at(i), net, st),
    decreases s,
{
    match s {
        Shape::Leaf { .. } => {},
        Shape::Node { id, left, right } => {
            if id == i {
            } else if left.has(i) {
                lemma_subtree_recorded(*left, i, net, st);
            } else {
                lemma_subtree_recorded(*right, i, net, st);
            }
        },
    }
}

/// Right books at every node make right books of the tree.
pub proof fn lemma_recorded_by_node(s: Shape, net: Net, st: TreeState)
    requires
        s.distinct(),
        forall|j: int| #[trigger] s.has(j) ==> recorded_node(s.at(j), net, st),
    ensures
        recorded(s, net, st),
    decreases s,
{
    lemma_has_root(s);
    assert(recorded_node(s.at(s.id()), net, st));
    match s {
        Shape::Leaf { .. } => {},
        Shape::Node { id, left, right } => {
            assert forall|j: int| #[trigger] left.has(j) implies recorded_node(
                left.at(j),
                net,
                st,
            ) by {
                assert(s.has(j));
                assert(s.at(j) == left.at(j));
            }
            assert forall|j: int| #[trigger] right.has(j) implies recorded_node(
                right.at(j),
                net,
                st,
            ) by {
                assert(s.has(j));
                assert(s.at(j) == right.at(j));
            }
            lemma_recorded_by_node(*left, net, st);
            lemma_recorded_by_node(*right, net, st);
        },
    }
}

/// Replacing a subtree in the arrays replaces it in the shape.
pub proof fn lemma_encodes_with(
    s: Shape,
    i: int,
    t: Shape,
    l1: Seq<usize>,
    r1: Seq<usize>,
    l2: Seq<usize>,
    r2: Seq<usize>,
    tens: Seq<usize>,
)
    requires
        s.distinct(),
        s.has(i),
        t.id() == i,
        encodes(s, l1, r1, tens),
        encodes(t, l2, r2, tens),
        l1.len() <= l2.len(),
        forall|j: int|
            #[trigger] s.has(j) && !s.at(i).has(j) ==> l1[j] == l2[j] && r1[j] == r2[j],
    ensures
        encodes(s.with(i, t), l2, r2, tens),
        s.with(i, t).id() == s.id(),
    decreases s,
{
    match s {
        Shape::Leaf { .. } => {},
        Shape::Node { id, left, right } => {
            if id == i {
            } else {
                lemma_at(s, i);
                lemma_has_root(s);
                let (p, q) = if left.has(i) {
                    (*left, *right)
                } else {
                    (*right, *left)
                };
                lemma_at(p, i);
                assert(s.at(i) == p.at(i));
                assert(!s.at(i).has(id)) by {
                    if s.at(i).has(id) {
                        assert(p.has(id));
                    }
                }
                assert forall|j: int| #[trigger] p.has(j) && !p.at(i).has(j) implies l1[j] == l2[j]
                    && r1[j] == r2[j] by {
                    assert(s.has(j));
                }
                assert forall|j: int| #[trigger] q.has(j) implies l1[j] == l2[j] && r1[j]
                    == r2[j] by {
                    assert(s.has(j));
                    if p.at(i).has(j) {
                        assert(p.has(j));
                    }
                }
                lemma_encodes_with(p, i, t, l1, r1, l2, r2, tens);
                lemma_encodes_frame(q, l1, r1, tens, l2, r2, tens);
            }
        },
    }
}

pub proof fn lemma_parented_with(s: Shape, i: int, t: Shape, p1: Seq<usize>, p2: Seq<usize>)
    requires
        s.distinct(),
        s.has(i),
        t.id() == i,
        parented(s, p1),
        parented(t, p2),
        p1[i] == p2[i],
        forall|j: int| #[trigger] s.has(j) && !s.at(i).has(j) ==> p1[j] == p2[j],
    ensures
        parented(s.with(i, t), p2),
    decreases s,
{
    match s {
        Shape::Leaf { .. } => {},
        Shape::Node { id, left, right } => {
            if id == i {
            } else {
                let (p, q) = if left.has(i) {
                    (*left, *right)
                } else {
                    (*right, *left)
                };
                lemma_at(p, i);
                lemma_has_root(p);
                lemma_has_root(q);
                assert(s.at(i) == p.at(i));
                assert(s.has(p.id()));
                assert(s.has(q.id()));
                assert(p.with(i, t).id() == p.id());
                assert(p1[p.id()] == p2[p.id()]) by {
                    if p.id() != i && p.at(i).has(p.id()) {
                        lemma_root_not_below(p, i);
                    }
                }
                assert(p1[q.id()] == p2[q.id()]) by {
                    if p.at(i).has(q.id()) {
                        assert(p.has(q.id()));
                    }
                }
                assert forall|j: int| #[trigger] p.has(j) && !p.at(i).has(j) implies p1[j]
                    == p2[j] by {
                    assert(s.has(j));
                }
                assert forall|j: int| #[trigger] q.has(j) && j != q.id() implies p1[j] == p2[j] by {
                    assert(s.has(j));
                    if p.at(i).has(j) {
                        assert(p.has(j));
                    }
                }
                lemma_parented_with(p, i, t, p1, p2);
                lemma_parented_frame(q, p1, p2);
            }
        },
    }
}

/// The root does not occur in a proper subtree.
pub proof fn lemma_root_not_below(s: Shape, i: int)
    requires
        s.distinct(),
        s.has(i),
        i != s.id(),
    ensures
        !s.at(i).has(s.id()),
{
    match s {
        Shape::Leaf { .. } => {},
        Shape::Node { id, left, right } => {
            if left.has(i) {
                lemma_at(*left, i);
            } else {
                lemma_at(*right, i);
            }
        },
    }
}

/// The books stay right where a subtree is replaced by one that looks alike
/// and whose own books are right.
pub proof fn lemma_recorded_with(
    s: Shape,
    i: int,
    t: Shape,
    net: Net,
    a: TreeState,
    b: TreeState,
)
    requires
        s.distinct(),
        s.has(i),
        alike(s.at(i), t, net),
        recorded(s, net, a),
        recorded(t, net, b),
        forall|j: int| #[trigger] s.has(j) && !s.at(i).has(j) ==> same_books(a, b, j),
    ensures
        recorded(s.with(i, t), net, b),
    decreases s,
{
    match s {
        Shape::Leaf { .. } => {},
        Shape::Node { id, left, right } => {
            if id == i {
            } else {
                let (p, q) = if left.has(i) {
                    (*left, *right)
                } else {
                    (*right, *left)
                };
                lemma_at(p, i);
                lemma_has_root(s);
                assert(s.at(i) == p.at(i));
                lemma_root_not_below(s, i);
                assert(same_books(a, b, id));
                assert forall|j: int| #[trigger] p.has(j) && !p.at(i).has(j) implies same_books(
                    a,
                    b,
                    j,
                ) by {
                    assert(s.has(j));
                }
                assert forall|j: int| #[trigger] q.has(j) implies same_books(a, b, j) by {
                    assert(s.has(j));
                    if p.at(i).has(j) {
                        assert(p.has(j));
                    }
                }
                lemma_recorded_with(p, i, t, net, a, b);
                lemma_recorded_frame(q, net, a, b);
                crate::shape::lemma_with_cost(p, i, t, net);
                crate::shape::lemma_with_cost(s, i, t, net);
                let s2 = s.with(i, t);
                assert forall|l: int| 0 <= l < net.nlabels() implies #[trigger] b.counts[id][l]
                    == s2.count(net, l) by {
                    assert(a.counts[id][l] == s.count(net, l));
                    assert(s.counts(net)[l] == s2.counts(net)[l]);
                }
                assert(recorded_node(s2, net, b));
            }
        },
    }
}

/// Two states with right books for the same tree have the same books.
pub proof fn lemma_books_determined(s: Shape, net: Net, a: TreeState, b: TreeState)
    requires
        recorded(s, net, a),
        recorded(s, net, b),
    ensures
        forall|i: int| #[trigger] s.has(i) ==> same_books(a, b, i),
    decreases s,
{
    assert(a.counts[s.id()] =~= b.counts[s.id()]) by {
        assert forall|l: int| 0 <= l < net.nlabels() implies a.counts[s.id()][l]
            == b.counts[s.id()][l] by {
            assert(a.counts[s.id()][l] == s.count(net, l));
            assert(b.counts[s.id()][l] == s.count(net, l));
        }
    }
    assert(same_books(a, b, s.id()));
    match s {
        Shape::Leaf { .. } => {},
        Shape::Node { id, left, right } => {
            lemma_books_determined(*left, net, a, b);
            lemma_books_determined(*right, net, a, b);
            assert forall|i: int| #[trigger] s.has(i) implies same_books(a, b, i) by {
                if i != id {
                    assert(left.has(i) || right.has(i));
                }
            }
        },
    }
}

/// The sum of the entries of `v` below `n` at the nodes of `s`.
pub open spec fn sum_at(v: Seq<nat>, s: Shape, n: int) -> nat
    decreases n,
{
    if n <= 0 {
        0
    } else {
        sum_at(v, s, n - 1) + if s.has(n - 1) {
            v[n - 1]
        } else {
            0
        }
    }
}

/// The sum of the first `n` entries of `v`.
pub open spec fn sum_first(v: Seq<nat>, n: int) -> nat
    decreases n,
{
    if n <= 0 {
        0
    } else {
        sum_first(v, n - 1) + v[n - 1]
    }
}

/// The sum of the entries of `v` at the nodes of `s`, by the shape of `s`.
pub open spec fn sum_over(v: Seq<nat>, s: Shape) -> nat
    decreases s,
{
    v[s.id()] + match s {
        Shape::Leaf { .. } => 0,
        Shape::Node { left, right, .. } => sum_over(v, *left) + sum_over(v, *right),
    }
}

proof fn lemma_sum_at_leaf(v: Seq<nat>, s: Shape, n: int)
    requires
        s is Leaf,
        s.id() >= 0,
    ensures
        sum_at(v, s, n) == if s.id() < n {
            v[s.id()]
        } else {
            0
        },
    decreases n,
{
    if n > 0 {
        lemma_sum_at_leaf(v, s, n - 1);
    }
}

proof fn lemma_sum_at_node(v: Seq<nat>, s: Shape, n: int)
    requires
        s is Node,
        s.distinct(),
        s.id() >= 0,
    ensures
        sum_at(v, s, n) == sum_at(v, *s->Node_left, n) + sum_at(v, *s->Node_right, n)
            + if s.id() < n {
            v[s.id()]
        } else {
            0
        },
    decreases n,
{
    if n > 0 {
        lemma_sum_at_node(v, s, n - 1);
        assert(!(s->Node_left.has(n - 1) && s->Node_right.has(n - 1)));
    }
}

proof fn lemma_sum_at(v: Seq<nat>, s: Shape, n: int)
    requires
        s.distinct(),
        forall|i: int| #[trigger] s.has(i) ==> 0 <= i < n,
    ensures
        sum_at(v, s, n) == sum_over(v, s),
    decreases s,
{
    lemma_has_root(s);
    match s {
        Shape::Leaf { .. } => {
            lemma_sum_at_leaf(v, s, n);
        },
        Shape::Node { id, left, right } => {
            lemma_sum_at_node(v, s, n);
            assert forall|i: int| #[trigger] left.has(i) implies 0 <= i < n by {
                assert(s.has(i));
            }
            assert forall|i: int| #[trigger] right.has(i) implies 0 <= i < n by {
                assert(s.has(i));
            }
            lemma_sum_at(v, *left, n);
            lemma_sum_at(v, *right, n);
        },
    }
}

proof fn lemma_sum_at_all(v: Seq<nat>, s: Shape, n: int)
    requires
        forall|i: int| 0 <= i < n ==> #[trigger] s.has(i),
    ensures
        sum_at(v, s, n) == sum_first(v, n),
    decreases n,
{
    if n > 0 {
        lemma_sum_at_all(v, s, n - 1);
        assert(s.has(n - 1));
    }
}

/// Summing an array is summing over the tree that fills it.
pub proof fn lemma_sum_spans(v: Seq<nat>, s: Shape, n: int)
    requires
        s.distinct(),
        spans(s, n),
    ensures
        sum_first(v, n) == sum_over(v, s),
{
    lemma_sum_at(v, s, n);
    lemma_sum_at_all(v, s, n);
}

/// A tree whose nodes are `0..n` has `n` nodes.
pub proof fn lemma_size_spans(s: Shape, n: int)
    requires
        s.distinct(),
        spans(s, n),
        0 <= n,
    ensures
        s.size() == n,
{
    let ones = Seq::new(n as nat, |i: int| 1nat);
    lemma_sum_spans(ones, s, n);
    lemma_sum_ones(s, ones);
    lemma_sum_first_ones(ones, n);
}

proof fn lemma_sum_ones(s: Shape, ones: Seq<nat>)
    requires
        forall|i: int| #[trigger] s.has(i) ==> ones[i] == 1,
    ensures
        sum_over(ones, s) == s.size(),
    decreases s,
{
    lemma_has_root(s);
    match s {
        Shape::Leaf { .. } => {},
        Shape::Node { left, right, .. } => {
            assert forall|i: int| #[trigger] left.has(i) implies ones[i] == 1 by {
                assert(s.has(i));
            }
            assert forall|i: int| #[trigger] right.has(i) implies ones[i] == 1 by {
                assert(s.has(i));
            }
            lemma_sum_ones(*left, ones);
            lemma_sum_ones(*right, ones);
        },
    }
}

proof fn lemma_sum_first_ones(ones: Seq<nat>, n: int)
    requires
        0 <= n <= ones.len(),
        forall|i: int| 0 <= i < ones.len() ==> #[trigger] ones[i] == 1,
    ensures
        sum_first(ones, n) == n,
    decreases n,
{
    if n > 0 {
        lemma_sum_first_ones(ones, n - 1);
    }
}

/// The step costs in right books sum to the cost of the tree.
pub proof fn lemma_sum_cost(s: Shape, net: Net, st: TreeState)
    requires
        recorded(s, net, st),
    ensures
        sum_over(st.step, s) == s.cost(net),
        sum_over(st.real, s) == s.real_cost(net),
    decreases s,
{
    match s {
        Shape::Leaf { .. } => {},
        Shape::Node { id, left, right } => {
            lemma_sum_cost(*left, net, st);
            lemma_sum_cost(*right, net, st);
        },
    }
}

/// The volume of each node of the kind `k`, zero for the others.
pub open spec fn of_kind(s: Shape, net: Net, st: TreeState, k: StepKind) -> Seq<nat> {
    Seq::new(
        st.real.len(),
        |i: int|
            if s.has(i) && s.at(i) is Node && s.at(i).kind(net) == k {
                st.real[i]
            } else {
                0
            },
    )
}

proof fn lemma_sum_kind_below(s: Shape, root: Shape, net: Net, st: TreeState, k: StepKind)
    requires
        root.distinct(),
        root.has(s.id()),
        root.at(s.id()) == s,
        recorded(s, net, st),
        forall|i: int| #[trigger] root.has(i) ==> 0 <= i < st.real.len(),
    ensures
        sum_over(of_kind(root, net, st, k), s) == s.volume_of_kind(net, k),
    decreases s,
{
    assert(root.has(s.id()));
    match s {
        Shape::Leaf { .. } => {},
        Shape::Node { id, left, right } => {
            lemma_at(root, s.id());
            lemma_has_root(*left);
            lemma_has_root(*right);
            crate::shape::lemma_at_at(root, s.id(), left.id());
            crate::shape::lemma_at_at(root, s.id(), right.id());
            assert(s.at(left.id()) == *left);
            assert(s.at(right.id()) == *right);
            lemma_sum_kind_below(*left, root, net, st, k);
            lemma_sum_kind_below(*right, root, net, st, k);
        },
    }
}

/// The volumes of one kind in right books sum to those of the tree.
pub proof fn lemma_sum_kind(s: Shape, net: Net, st: TreeState, k: StepKind)
    requires
        s.distinct(),
        recorded(s, net, st),
        spans(s, st.real.len() as int),
    ensures
        sum_first(of_kind(s, net, st, k), st.real.len() as int) == s.volume_of_kind(net, k),
{
    lemma_has_root(s);
    lemma_sum_kind_below(s, s, net, st, k);
    lemma_sum_spans(of_kind(s, net, st, k), s, st.real.len() as int);
}

} // verus!
