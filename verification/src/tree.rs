//! A binary contraction tree as flat arrays, with incremental green-aware cost
//! bookkeeping.

use crate::natural::Natural;
use crate::network::{step_kind, Net, Network, StepKind};
use crate::shape::Shape;
use crate::state::{
    lemma_node, lemma_subtree_recorded, lemma_sum_cost, lemma_sum_kind, lemma_sum_spans, of_kind,
    recorded, recorded_node, same_books, sum_first, Links, TreeState, NONE,
};
use vstd::prelude::*;

verus! {

/// The columns of counters as mathematical values.
pub open spec fn columns(v: Seq<Vec<i16>>) -> Seq<Seq<i16>> {
    Seq::new(v.len(), |i: int| v[i]@)
}

/// The numbers as mathematical values.
pub open spec fn values(v: Seq<Natural>) -> Seq<nat> {
    Seq::new(v.len(), |i: int| v[i]@)
}

/// Counters as integers.
pub open spec fn ints(v: Seq<i16>) -> Seq<int> {
    Seq::new(v.len(), |i: int| v[i] as int)
}

/// The structure of a tree at one moment.
///
/// It can be restored into every tree over the same leaves, such as the trees
/// built from one contraction order.
pub struct TreeSnapshot {
    /// The left child of each inner node.
    pub left: Vec<usize>,
    /// The right child of each inner node.
    pub right: Vec<usize>,
    /// The parent of each node but the root.
    pub parent: Vec<usize>,
    /// The root.
    pub root: usize,
    /// The tree that the arrays describe.
    pub shape: Ghost<Shape>,
}

impl View for TreeSnapshot {
    type V = Links;

    open spec fn view(&self) -> Links {
        Links {
            left: self.left@,
            right: self.right@,
            parent: self.parent@,
            root: self.root,
            shape: self.shape@,
        }
    }
}

impl Clone for TreeSnapshot {
    fn clone(&self) -> (r: TreeSnapshot)
        ensures
            r@ == self@,
    {
        let left = self.left.clone();
        let right = self.right.clone();
        let parent = self.parent.clone();
        assert(left@ =~= self.left@);
        assert(right@ =~= self.right@);
        assert(parent@ =~= self.parent@);
        TreeSnapshot { left, right, parent, root: self.root, shape: Ghost(self.shape@) }
    }
}

/// A binary contraction tree as flat arrays, with the books that price it.
pub struct GreenTree {
    /// The left child of each inner node.
    pub left: Vec<usize>,
    /// The right child of each inner node.
    pub right: Vec<usize>,
    /// The parent of each node but the root.
    pub parent: Vec<usize>,
    /// The tensor of each leaf.
    pub tensoridx: Vec<usize>,
    /// The label occurrences in the subtree of each node.
    pub counts: Vec<Vec<i16>>,
    /// Whether the subtree of a node holds a structurally complex tensor.
    pub green: Vec<bool>,
    /// The cost of the step at each node.
    pub stepcost: Vec<Natural>,
    /// The volume of the step at each node.
    pub realcost: Vec<Natural>,
    /// The root.
    pub root: usize,
    /// The network that the tree contracts.
    pub net: Network,
    /// The tree that the arrays describe.
    pub shape: Ghost<Shape>,
}

impl View for GreenTree {
    type V = TreeState;

    open spec fn view(&self) -> TreeState {
        TreeState {
            links: Links {
                left: self.left@,
                right: self.right@,
                parent: self.parent@,
                root: self.root,
                shape: self.shape@,
            },
            tensoridx: self.tensoridx@,
            counts: columns(self.counts@),
            green: self.green@,
            step: values(self.stepcost@),
            real: values(self.realcost@),
        }
    }
}

/// A copy of the columns of counters.
fn copy_columns(v: &Vec<Vec<i16>>) -> (r: Vec<Vec<i16>>)
    ensures
        columns(r@) == columns(v@),
{
    let mut r: Vec<Vec<i16>> = Vec::with_capacity(v.len());
    let mut i: usize = 0;
    while i < v.len()
        invariant
            i <= v@.len(),
            r@.len() == i,
            forall|j: int| 0 <= j < i ==> (#[trigger] r@[j])@ == v@[j]@,
        decreases v@.len() - i,
    {
        let column: Vec<i16> = v[i].clone();
        assert(column@ =~= v@[i as int]@);
        r.push(column);
        i += 1;
    }
    assert(columns(r@) =~= columns(v@));
    r
}

/// A copy of the numbers.
fn copy_values(v: &Vec<Natural>) -> (r: Vec<Natural>)
    ensures
        values(r@) == values(v@),
{
    let mut r: Vec<Natural> = Vec::with_capacity(v.len());
    let mut i: usize = 0;
    while i < v.len()
        invariant
            i <= v@.len(),
            r@.len() == i,
            forall|j: int| 0 <= j < i ==> (#[trigger] r@[j])@ == v@[j]@,
        decreases v@.len() - i,
    {
        r.push(v[i].clone());
        i += 1;
    }
    assert(values(r@) =~= values(v@));
    r
}

impl Clone for GreenTree {
    fn clone(&self) -> (r: GreenTree)
        ensures
            r@ == self@,
            r.net@ == self.net@,
            r.wf() == self.wf(),
    {
        let left = self.left.clone();
        let right = self.right.clone();
        let parent = self.parent.clone();
        let tensoridx = self.tensoridx.clone();
        let green = self.green.clone();
        let counts = copy_columns(&self.counts);
        let stepcost = copy_values(&self.stepcost);
        let realcost = copy_values(&self.realcost);
        assert(left@ =~= self.left@);
        assert(right@ =~= self.right@);
        assert(parent@ =~= self.parent@);
        assert(tensoridx@ =~= self.tensoridx@);
        assert(green@ =~= self.green@);
        GreenTree {
            left,
            right,
            parent,
            tensoridx,
            counts,
            green,
            stepcost,
            realcost,
            root: self.root,
            net: self.net.clone(),
            shape: Ghost(self.shape@),
        }
    }
}

/// Whether the books of the children of the node `i` allow its own to be made.
pub open spec fn refreshable(st: TreeState, net: Net, i: int) -> bool {
    let a = st.links.left[i] as int;
    let b = st.links.right[i] as int;
    &&& st.sized()
    &&& st.links.right.len() == st.links.left.len()
    &&& 0 <= i < st.nnodes()
    &&& a < st.nnodes()
    &&& b < st.nnodes()
    &&& st.counts[a].len() == net.nlabels()
    &&& st.counts[b].len() == net.nlabels()
    &&& forall|l: int|
        #![trigger st.counts[a][l]]
        #![trigger st.counts[b][l]]
        0 <= l < net.nlabels() ==> 0 <= st.counts[a][l] && 0 <= st.counts[b][l] && st.counts[a][l]
            + st.counts[b][l] <= i16::MAX
}

/// The state with the books of the inner node `i` made anew from those of its
/// children.
pub open spec fn refreshed(st: TreeState, net: Net, i: int) -> TreeState {
    let a = st.links.left[i] as int;
    let b = st.links.right[i] as int;
    let volume = net.open_volume(ints(st.counts[a]), ints(st.counts[b]), net.nlabels());
    TreeState {
        counts: st.counts.update(
            i,
            Seq::new(
                net.sizes.len(),
                |l: int| (st.counts[a][l] + st.counts[b][l]) as i16,
            ),
        ),
        green: st.green.update(i, st.green[a] || st.green[b]),
        real: st.real.update(i, volume),
        step: st.step.update(i, volume * net.weight(step_kind(st.green[a], st.green[b]))),
        ..st
    }
}

/// The kind of a step by the greenness of its children.
fn kind_of(ga: bool, gb: bool) -> (r: StepKind)
    ensures
        r == step_kind(ga, gb),
{
    if ga && gb {
        StepKind::Merge
    } else if ga || gb {
        StepKind::Ride
    } else {
        StepKind::Pass
    }
}

/// A refreshed node has right books where its children have.
pub proof fn lemma_refreshed(s: Shape, net: Net, st: TreeState)
    requires
        s is Node,
        s.distinct(),
        0 <= s.id() < st.nnodes(),
        st.sized(),
        st.links.left[s.id()] == s->Node_left.id(),
        st.links.right[s.id()] == s->Node_right.id(),
        recorded_node(*s->Node_left, net, st),
        recorded_node(*s->Node_right, net, st),
        forall|l: int| 0 <= l < net.nlabels() ==> #[trigger] s.count(net, l) <= i16::MAX,
    ensures
        recorded_node(s, net, refreshed(st, net, s.id())),
        forall|j: int|
            0 <= j < st.nnodes() && j != s.id() ==> #[trigger] same_books(
                st,
                refreshed(st, net, s.id()),
                j,
            ),
{
    let a = *s->Node_left;
    let b = *s->Node_right;
    assert(ints(st.counts[a.id()]) =~= a.counts(net));
    assert(ints(st.counts[b.id()]) =~= b.counts(net));
    let r = refreshed(st, net, s.id());
    assert forall|l: int| 0 <= l < net.nlabels() implies #[trigger] r.counts[s.id()][l] == s.count(
        net,
        l,
    ) by {
        assert(s.count(net, l) <= i16::MAX);
        assert(st.counts[a.id()][l] == a.count(net, l));
        assert(st.counts[b.id()][l] == b.count(net, l));
    }
}

impl GreenTree {
    /// The network is sound, the arrays describe the shape, and every entry of
    /// the books is what the shape gives.
    pub open spec fn wf(&self) -> bool {
        &&& self.net.wf()
        &&& self@.wf(self.net@)
    }

    /// The number of nodes, leaves counted.
    pub fn nnodes(&self) -> (r: usize)
        ensures
            r == self@.nnodes(),
    {
        self.left.len()
    }

    /// Whether the node `i` is a leaf.
    pub fn is_leaf(&self, i: usize) -> (r: bool)
        requires
            i < self@.nnodes(),
        ensures
            r == (self.left@[i as int] == NONE),
            self@.links.wf(self.tensoridx@, self.net@) ==> r == (self.shape@.at(i as int) is Leaf),
    {
        proof {
            if self@.links.wf(self.tensoridx@, self.net@) {
                assert(self.shape@.has(i as int));
                lemma_node(self.shape@, i as int, self.left@, self.right@, self.tensoridx@);
            }
        }
        self.left[i] == NONE
    }

    /// The root.
    pub fn root(&self) -> (r: usize)
        ensures
            r == self@.links.root,
    {
        self.root
    }

    /// Makes the books of the inner node `i` anew from those of its children.
    pub(crate) fn refresh(&mut self, i: usize)
        requires
            old(self).net.wf(),
            refreshable(old(self)@, old(self).net@, i as int),
        ensures
            final(self)@ == refreshed(old(self)@, old(self).net@, i as int),
            final(self).tensoridx == old(self).tensoridx,
            final(self).net == old(self).net,
    {
        let ghost before = self@;
        let ghost net = self.net@;
        let a: usize = self.left[i];
        let b: usize = self.right[i];
        let nl: usize = self.net.nlabels;
        let mut column: Vec<i16> = Vec::with_capacity(nl);
        let mut open: Natural = Natural::from_u64(1);
        let ghost ca = before.counts[a as int];
        let ghost cb = before.counts[b as int];
        let mut l: usize = 0;
        while l < nl
            invariant
                l <= nl,
                nl == net.nlabels(),
                self.net.wf(),
                net == self.net@,
                nl == self.net.nlabels,
                before == self@,
                a < self.counts@.len(),
                b < self.counts@.len(),
                ca == self.counts@[a as int]@,
                cb == self.counts@[b as int]@,
                ca.len() == nl,
                cb.len() == nl,
                forall|m: int|
                    #![trigger ca[m]]
                    #![trigger cb[m]]
                    0 <= m < nl ==> 0 <= ca[m] && 0 <= cb[m] && ca[m] + cb[m] <= i16::MAX,
                column@.len() == l,
                forall|m: int| 0 <= m < l ==> #[trigger] column@[m] == ca[m] + cb[m],
                open@ == net.open_volume(ints(ca), ints(cb), l as int),
            decreases nl - l,
        {
            let x: i16 = self.counts[a][l];
            let y: i16 = self.counts[b][l];
            assert(ca[l as int] == x && cb[l as int] == y);
            column.push(x + y);
            let tot: i16 = self.net.total[l];
            assert(tot == net.total(l as int));
            let is_open: bool = (x > 0 && x < tot) || (y > 0 && y < tot) || (self.net.is_output[l] && (x > 0
                || y > 0));
            if is_open {
                open = open.scaled(self.net.sizes[l] as u64);
            }
            l += 1;
        }
        let ga: bool = self.green[a];
        let gb: bool = self.green[b];
        let kind = kind_of(ga, gb);
        let weight: u64 = self.net.weight(kind);
        let step: Natural = open.scaled(weight);
        self.green.set(i, ga || gb);
        self.counts.set(i, column);
        self.stepcost.set(i, step);
        self.realcost.set(i, open);
        proof {
            let after = refreshed(before, net, i as int);
            assert(column@ =~= after.counts[i as int]);
            assert(self@.counts =~= after.counts);
            assert(self@.green =~= after.green);
            assert(self@.step =~= after.step);
            assert(self@.real =~= after.real);
        }
    }

    /// What all the steps of the tree cost together.
    pub fn total_cost(&self) -> (r: Natural)
        requires
            self.wf(),
        ensures
            r@ == self@.shape().cost(self.net@),
    {
        let mut sum: Natural = Natural::zero();
        let mut i: usize = 0;
        while i < self.stepcost.len()
            invariant
                i <= self.stepcost@.len(),
                sum@ == sum_first(self@.step, i as int),
            decreases self.stepcost@.len() - i,
        {
            sum = sum.plus(&self.stepcost[i]);
            i += 1;
        }
        proof {
            lemma_sum_spans(self@.step, self.shape@, i as int);
            lemma_sum_cost(self.shape@, self.net@, self@);
        }
        sum
    }

    /// The volume of all the steps of the tree together.
    pub fn total_real(&self) -> (r: Natural)
        requires
            self.wf(),
        ensures
            r@ == self@.shape().real_cost(self.net@),
    {
        let mut sum: Natural = Natural::zero();
        let mut i: usize = 0;
        while i < self.realcost.len()
            invariant
                i <= self.realcost@.len(),
                sum@ == sum_first(self@.real, i as int),
            decreases self.realcost@.len() - i,
        {
            sum = sum.plus(&self.realcost[i]);
            i += 1;
        }
        proof {
            lemma_sum_spans(self@.real, self.shape@, i as int);
            lemma_sum_cost(self.shape@, self.net@, self@);
        }
        sum
    }

    /// The volume by kind of step: `(pass, ride, merge)`.
    pub fn breakdown(&self) -> (r: (Natural, Natural, Natural))
        requires
            self.wf(),
        ensures
            r.0@ == self@.shape().volume_of_kind(self.net@, StepKind::Pass),
            r.1@ == self@.shape().volume_of_kind(self.net@, StepKind::Ride),
            r.2@ == self@.shape().volume_of_kind(self.net@, StepKind::Merge),
    {
        let ghost s = self.shape@;
        let ghost net = self.net@;
        let mut pass: Natural = Natural::zero();
        let mut ride: Natural = Natural::zero();
        let mut merge: Natural = Natural::zero();
        let mut i: usize = 0;
        while i < self.nnodes()
            invariant
                self.wf(),
                s == self.shape@,
                net == self.net@,
                i <= self@.nnodes(),
                pass@ == sum_first(of_kind(s, net, self@, StepKind::Pass), i as int),
                ride@ == sum_first(of_kind(s, net, self@, StepKind::Ride), i as int),
                merge@ == sum_first(of_kind(s, net, self@, StepKind::Merge), i as int),
            decreases self@.nnodes() - i,
        {
            proof {
                assert(s.has(i as int));
                lemma_node(s, i as int, self.left@, self.right@, self.tensoridx@);
                lemma_subtree_recorded(s, i as int, net, self@);
            }
            let ghost t = s.at(i as int);
            if !self.is_leaf(i) {
                proof {
                    assert(recorded(*t->Node_left, net, self@));
                    assert(recorded(*t->Node_right, net, self@));
                }
                let ga: bool = self.green[self.left[i]];
                let gb: bool = self.green[self.right[i]];
                if ga && gb {
                    merge = merge.plus(&self.realcost[i]);
                } else if ga || gb {
                    ride = ride.plus(&self.realcost[i]);
                } else {
                    pass = pass.plus(&self.realcost[i]);
                }
            }
            i += 1;
        }
        proof {
            lemma_sum_kind(s, net, self@, StepKind::Pass);
            lemma_sum_kind(s, net, self@, StepKind::Ride);
            lemma_sum_kind(s, net, self@, StepKind::Merge);
        }
        (pass, ride, merge)
    }

    /// The structure of the tree.
    pub fn snapshot(&self) -> (r: TreeSnapshot)
        ensures
            r@ == self@.links,
    {
        let left = self.left.clone();
        let right = self.right.clone();
        let parent = self.parent.clone();
        assert(left@ =~= self.left@);
        assert(right@ =~= self.right@);
        assert(parent@ =~= self.parent@);
        TreeSnapshot { left, right, parent, root: self.root, shape: Ghost(self.shape@) }
    }
}

} // verus!
