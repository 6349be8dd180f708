//! Making the books of a whole tree anew from its structure.

use crate::natural::Natural;
use crate::network::{count_labels, occurrences, Net};
use crate::shape::{lemma_at, lemma_has_root, Shape};
use crate::state::{lemma_node, lemma_recorded_by_node, recorded_node, same_books, TreeState};
use crate::tree::{lemma_refreshed, refreshed, GreenTree, TreeSnapshot};
use vstd::prelude::*;

verus! {

/// A column of `n` zeros.
fn zero_column(n: usize) -> (r: Vec<i16>)
    ensures
        r@ == Seq::new(n as nat, |l: int| 0i16),
{
    let mut r: Vec<i16> = Vec::with_capacity(n);
    let mut l: usize = 0;
    while l < n
        invariant
            l <= n,
            r@ == Seq::new(l as nat, |j: int| 0i16),
        decreases n - l,
    {
        r.push(0);
        l += 1;
        assert(r@ =~= Seq::new(l as nat, |j: int| 0i16));
    }
    r
}

/// Whether the visit `e` of a node has yet to make the books of the node `j`.
/// A first visit stands for the whole subtree, a second one for the node alone.
pub open spec fn visits(e: (usize, bool), s: Shape, j: int) -> bool {
    if e.1 {
        e.0 == j
    } else {
        s.at(e.0 as int).has(j)
    }
}

/// Whether some visit on the stack has yet to make the books of the node `j`.
pub open spec fn pending(stack: Seq<(usize, bool)>, s: Shape, j: int) -> bool {
    exists|k: int| 0 <= k < stack.len() && visits(#[trigger] stack[k], s, j)
}

/// The visits on the stack are of nodes of the tree, second visits of inner
/// nodes, and no visit has anything to do below a visit above it.
pub open spec fn orderly(stack: Seq<(usize, bool)>, s: Shape) -> bool {
    &&& forall|k: int|
        0 <= k < stack.len() ==> s.has((#[trigger] stack[k]).0 as int) && (stack[k].1 ==> s.at(
            stack[k].0 as int,
        ) is Node)
    &&& forall|k: int, m: int, j: int|
        0 <= k < m < stack.len() && #[trigger] visits(stack[k], s, j) ==> !(#[trigger] s.at(
            stack[m].0 as int,
        ).has(j))
}

/// How many more visits the stack leads to.
pub open spec fn visits_left(stack: Seq<(usize, bool)>, s: Shape) -> nat
    decreases stack.len(),
{
    if stack.len() == 0 {
        0
    } else {
        visits_left(stack.drop_last(), s) + if stack.last().1 {
            1
        } else {
            2 * s.at(stack.last().0 as int).size()
        }
    }
}

proof fn lemma_orderly_push(stack: Seq<(usize, bool)>, s: Shape, e: (usize, bool))
    requires
        orderly(stack, s),
        s.has(e.0 as int),
        e.1 ==> s.at(e.0 as int) is Node,
        forall|j: int| s.at(e.0 as int).has(j) ==> !pending(stack, s, j),
    ensures
        orderly(stack.push(e), s),
        forall|j: int|
            #[trigger] pending(stack.push(e), s, j) == (pending(stack, s, j) || visits(e, s, j)),
{
    let t = stack.push(e);
    assert forall|k: int, m: int, j: int|
        0 <= k < m < t.len() && #[trigger] visits(t[k], s, j) implies !(#[trigger] s.at(
        t[m].0 as int,
    ).has(j)) by {
        assert(t[k] == stack[k]);
        if m < stack.len() {
            assert(t[m] == stack[m]);
        } else {
            assert(pending(stack, s, j));
        }
    }
    assert forall|j: int|
        #[trigger] pending(t, s, j) == (pending(stack, s, j) || visits(e, s, j)) by {
        if pending(stack, s, j) {
            let k = choose|k: int| 0 <= k < stack.len() && visits(#[trigger] stack[k], s, j);
            assert(visits(t[k], s, j));
        }
        if visits(e, s, j) {
            assert(visits(t[stack.len() as int], s, j));
        }
        if pending(t, s, j) {
            let k = choose|k: int| 0 <= k < t.len() && visits(#[trigger] t[k], s, j);
            if k < stack.len() {
                assert(visits(stack[k], s, j));
            }
        }
    }
}

proof fn lemma_orderly_pop(stack: Seq<(usize, bool)>, s: Shape)
    requires
        orderly(stack, s),
        stack.len() > 0,
    ensures
        orderly(stack.drop_last(), s),
        s.has(stack.last().0 as int),
        stack.last().1 ==> s.at(stack.last().0 as int) is Node,
        forall|j: int|
            #[trigger] s.at(stack.last().0 as int).has(j) ==> !pending(stack.drop_last(), s, j),
        forall|j: int|
            #[trigger] pending(stack, s, j) == (pending(stack.drop_last(), s, j) || visits(
                stack.last(),
                s,
                j,
            )),
{
    let t = stack.drop_last();
    assert forall|k: int| 0 <= k < t.len() implies s.has((#[trigger] t[k]).0 as int) && (t[k].1
        ==> s.at(t[k].0 as int) is Node) by {
        assert(t[k] == stack[k]);
    }
    assert forall|k: int, m: int, j: int|
        0 <= k < m < t.len() && #[trigger] visits(t[k], s, j) implies !(#[trigger] s.at(
        t[m].0 as int,
    ).has(j)) by {
        assert(t[k] == stack[k] && t[m] == stack[m]);
    }
    let top = stack.len() - 1;
    assert(s.has(stack[top].0 as int));
    assert forall|j: int| #[trigger] s.at(stack.last().0 as int).has(j) implies !pending(
        t,
        s,
        j,
    ) by {
        if pending(t, s, j) {
            let k = choose|k: int| 0 <= k < t.len() && visits(#[trigger] t[k], s, j);
            assert(visits(stack[k], s, j));
            assert(s.at(stack[top].0 as int).has(j));
        }
    }
    assert forall|j: int|
        #[trigger] pending(stack, s, j) == (pending(t, s, j) || visits(stack.last(), s, j)) by {
        if pending(t, s, j) {
            let k = choose|k: int| 0 <= k < t.len() && visits(#[trigger] t[k], s, j);
            assert(visits(stack[k], s, j));
        }
        if visits(stack.last(), s, j) {
            assert(visits(stack[top], s, j));
        }
        if pending(stack, s, j) {
            let k = choose|k: int| 0 <= k < stack.len() && visits(#[trigger] stack[k], s, j);
            if k < top {
                assert(visits(t[k], s, j));
            }
        }
    }
}

proof fn lemma_visits_left_push(stack: Seq<(usize, bool)>, s: Shape, e: (usize, bool))
    ensures
        visits_left(stack.push(e), s) == visits_left(stack, s) + if e.1 {
            1
        } else {
            2 * s.at(e.0 as int).size()
        },
{
    assert(stack.push(e).drop_last() =~= stack);
}

/// Whether the books are right at every node that no visit is pending for.
pub open spec fn settled(stack: Seq<(usize, bool)>, s: Shape, net: Net, st: TreeState) -> bool {
    forall|j: int|
        #[trigger] s.has(j) && !pending(stack, s, j) ==> recorded_node(s.at(j), net, st)
}

/// Making the books of one node keeps the others settled.
proof fn lemma_settle(
    before: Seq<(usize, bool)>,
    after: Seq<(usize, bool)>,
    s: Shape,
    net: Net,
    a: TreeState,
    b: TreeState,
    i: int,
)
    requires
        settled(before, s, net, a),
        s.has(i),
        recorded_node(s.at(i), net, b),
        forall|j: int| #[trigger] s.has(j) && j != i ==> same_books(a, b, j),
        forall|j: int|
            #[trigger] s.has(j) && j != i && pending(before, s, j) ==> pending(after, s, j),
    ensures
        settled(after, s, net, b),
{
    assert forall|j: int| #[trigger] s.has(j) && !pending(after, s, j) implies recorded_node(
        s.at(j),
        net,
        b,
    ) by {
        if j != i {
            assert(recorded_node(s.at(j), net, a));
            assert(same_books(a, b, j));
            lemma_at(s, j);
        }
    }
}

impl GreenTree {
    /// Makes the books of every node anew from the structure.
    ///
    /// The nodes are visited in post-order over an explicit stack: after
    /// rotations their indices no longer follow the order of the tree.
    pub fn recompute_from_structure(&mut self)
        requires
            old(self).net.wf(),
            old(self)@.links.wf(old(self).tensoridx@, old(self).net@),
        ensures
            final(self).wf(),
            final(self)@.links == old(self)@.links,
            final(self).tensoridx == old(self).tensoridx,
            final(self).net == old(self).net,
    {
        let ghost s = self.shape@;
        let ghost net = self.net@;
        let ghost links = self@.links;
        let ghost tens = self.tensoridx;
        let ghost fixed = self.net;
        let n: usize = self.left.len();
        let nl: usize = self.net.nlabels;
        let mut counts: Vec<Vec<i16>> = Vec::with_capacity(n);
        let mut green: Vec<bool> = Vec::with_capacity(n);
        let mut stepcost: Vec<Natural> = Vec::with_capacity(n);
        let mut realcost: Vec<Natural> = Vec::with_capacity(n);
        let mut k: usize = 0;
        while k < n
            invariant
                k <= n,
                counts@.len() == k,
                green@.len() == k,
                stepcost@.len() == k,
                realcost@.len() == k,
                forall|j: int| 0 <= j < k ==> #[trigger] stepcost@[j]@ == 0,
                forall|j: int| 0 <= j < k ==> #[trigger] realcost@[j]@ == 0,
            decreases n - k,
        {
            counts.push(Vec::new());
            green.push(false);
            stepcost.push(Natural::zero());
            realcost.push(Natural::zero());
            k += 1;
        }
        self.counts = counts;
        self.green = green;
        self.stepcost = stepcost;
        self.realcost = realcost;
        let mut stack: Vec<(usize, bool)> = Vec::new();
        stack.push((self.root, false));
        proof {
            let root = (self.root, false);
            lemma_has_root(s);
            assert(stack@ =~= Seq::<(usize, bool)>::empty().push(root));
            assert(forall|j: int| !pending(Seq::<(usize, bool)>::empty(), s, j));
            lemma_orderly_push(Seq::<(usize, bool)>::empty(), s, root);
            assert(forall|j: int| s.has(j) ==> visits(root, s, j));
        }
        while stack.len() > 0
            invariant
                self.net.wf(),
                self.net == fixed,
                self.net@ == net,
                self.tensoridx == tens,
                self@.links == links,
                s == self.shape@,
                self@.links.wf(self.tensoridx@, net),
                self@.sized(),
                nl == self.net.nlabels,
                n == self@.nnodes(),
                orderly(stack@, s),
                settled(stack@, s, net, self@),
            decreases visits_left(stack@, s),
        {
            let ghost before = stack@;
            let ghost st = self@;
            let top: (usize, bool) = stack[stack.len() - 1];
            let i: usize = top.0;
            stack.pop();
            let ghost rest = stack@;
            let ghost t = s.at(i as int);
            proof {
                assert(rest =~= before.drop_last());
                lemma_orderly_pop(before, s);
                lemma_node(s, i as int, self.left@, self.right@, self.tensoridx@);
                lemma_at(s, i as int);
                lemma_has_root(t);
            }
            if self.is_leaf(i) {
                let tensor: usize = self.tensoridx[i];
                let mut column: Vec<i16> = zero_column(nl);
                proof {
                    assert(t == Shape::Leaf { id: i as int, tensor: tensor as int });
                    assert(t.leaves_below(net.ixs.len() as int));
                    assert(net.ixs[tensor as int] == self.net.ixs@[tensor as int]@);
                    assert forall|l: int| 0 <= l < nl implies #[trigger] column@[l] + occurrences(
                        self.net.ixs@[tensor as int]@,
                        l,
                    ) <= i16::MAX by {
                        assert(t.count(net, l) <= s.count(net, l));
                        assert(links.shape.count(net, l) <= i16::MAX);
                    }
                    assert forall|m: int| 0 <= m < self.net.ixs@[tensor as int]@.len() implies #[trigger] self.net.ixs@[tensor as int]@[m]
                        < nl by {
                        assert(net.ixs[tensor as int][m] < nl);
                    }
                }
                count_labels(&mut column, &self.net.ixs[tensor]);
                let complex: bool = self.net.is_complex[tensor];
                self.counts.set(i, column);
                self.green.set(i, complex);
                self.stepcost.set(i, Natural::zero());
                self.realcost.set(i, Natural::zero());
                proof {
                    let st2 = self@;
                    assert(st2.counts[i as int] == column@);
                    assert(t.volume(net) == 0);
                    assert(t.step_cost(net) == 0) by (nonlinear_arith)
                        requires
                            t.step_cost(net) == t.volume(net) * net.weight(t.kind(net)),
                            t.volume(net) == 0,
                    ;
                    assert(recorded_node(t, net, st2));
                    assert forall|j: int| #[trigger] s.has(j) && j != i implies same_books(
                        st,
                        st2,
                        j,
                    ) by {
                        assert(0 <= j < n);
                    }
                    lemma_settle(before, rest, s, net, st, st2, i as int);
                }
            } else if top.1 {
                proof {
                    let (a, b) = (*t->Node_left, *t->Node_right);
                    lemma_has_root(a);
                    lemma_has_root(b);
                    assert(t.has(a.id()) && t.has(b.id()));
                    assert(!pending(before, s, a.id()));
                    assert(!pending(before, s, b.id()));
                    assert(recorded_node(s.at(a.id()), net, st));
                    assert(recorded_node(s.at(b.id()), net, st));
                    assert forall|l: int| 0 <= l < net.nlabels() implies #[trigger] t.count(net, l)
                        <= i16::MAX by {
                        assert(links.shape.count(net, l) <= i16::MAX);
                    }
                    assert forall|l: int|
                        #![trigger st.counts[a.id()][l]]
                        #![trigger st.counts[b.id()][l]]
                        0 <= l < net.nlabels() implies 0 <= st.counts[a.id()][l] && 0
                        <= st.counts[b.id()][l] && st.counts[a.id()][l] + st.counts[b.id()][l]
                        <= i16::MAX by {
                        assert(t.count(net, l) <= i16::MAX);
                        assert(st.counts[a.id()][l] == a.count(net, l));
                        assert(st.counts[b.id()][l] == b.count(net, l));
                    }
                }
                self.refresh(i);
                proof {
                    lemma_refreshed(t, net, st);
                    assert forall|j: int| #[trigger] s.has(j) && j != i implies same_books(
                        st,
                        self@,
                        j,
                    ) by {
                        assert(0 <= j < n);
                        assert(same_books(st, refreshed(st, net, i as int), j));
                    }
                    lemma_settle(before, rest, s, net, st, self@, i as int);
                }
            } else {
                let a: usize = self.left[i];
                let b: usize = self.right[i];
                stack.push((i, true));
                stack.push((a, false));
                stack.push((b, false));
                proof {
                    let (ta, tb) = (*t->Node_left, *t->Node_right);
                    let s1 = rest.push((i, true));
                    let s2 = s1.push((a, false));
                    let s3 = s2.push((b, false));
                    lemma_has_root(ta);
                    lemma_has_root(tb);
                    lemma_orderly_push(rest, s, (i, true));
                    assert forall|j: int| s.at(a as int).has(j) implies !pending(s1, s, j) by {
                        assert(t.has(j));
                    }
                    lemma_orderly_push(s1, s, (a, false));
                    assert forall|j: int| s.at(b as int).has(j) implies !pending(s2, s, j) by {
                        assert(t.has(j));
                        assert(!ta.has(j));
                        assert(!pending(s1, s, j));
                    }
                    lemma_orderly_push(s2, s, (b, false));
                    assert forall|j: int| #[trigger] s.has(j) && !pending(s3, s, j) implies !pending(
                        before,
                        s,
                        j,
                    ) by {
                        assert(!pending(s2, s, j));
                        assert(!pending(s1, s, j));
                        if t.has(j) {
                            assert(j == i || ta.has(j) || tb.has(j));
                        }
                    }
                    lemma_visits_left_push(rest, s, (i, true));
                    lemma_visits_left_push(s1, s, (a, false));
                    lemma_visits_left_push(s2, s, (b, false));
                }
            }
        }
        proof {
            assert forall|j: int| #[trigger] s.has(j) implies recorded_node(
                s.at(j),
                net,
                self@,
            ) by {
                assert(!pending(stack@, s, j));
            }
            lemma_recorded_by_node(s, net, self@);
        }
    }

    /// Takes the structure of a snapshot and makes the books anew.
    pub fn restore(&mut self, snap: &TreeSnapshot)
        requires
            old(self).net.wf(),
            snap@.wf(old(self).tensoridx@, old(self).net@),
        ensures
            final(self).wf(),
            final(self)@.links == snap@,
            final(self).tensoridx == old(self).tensoridx,
            final(self).net == old(self).net,
    {
        let left = snap.left.clone();
        let right = snap.right.clone();
        let parent = snap.parent.clone();
        assert(left@ =~= snap.left@);
        assert(right@ =~= snap.right@);
        assert(parent@ =~= snap.parent@);
        self.left = left;
        self.right = right;
        self.parent = parent;
        self.root = snap.root;
        self.shape = Ghost(snap.shape@);
        self.recompute_from_structure();
    }
}

} // verus!
