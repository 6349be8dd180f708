//! Associativity rotations and their exact undoing.

use crate::natural::{Natural, Signed};
use crate::random::{drawn_from, Drawn, Source};
use crate::shape::{
    disjoint, lemma_at, lemma_has_root, lemma_rotated, lemma_rotated_at, lemma_with_cost, Shape,
};
use crate::state::{
    encodes, lemma_encodes_frame, lemma_encodes_with, lemma_node, lemma_parented_frame,
    lemma_parented_with, lemma_recorded_frame, lemma_recorded_with, lemma_size_spans,
    lemma_subtree_parented, lemma_subtree_recorded, parented, recorded, recorded_node, same_books,
    Links, TreeState, NONE,
};
use crate::tree::{lemma_refreshed, GreenTree};
use vstd::prelude::*;

verus! {

/// What a rotation overwrote, for its exact undoing. The label counts of the
/// node `c` are kept in a [`RotationScratch`].
pub struct Rotation {
    /// The change in the cost of the tree.
    pub delta: Signed,
    /// The node at which the tree was rotated.
    pub n: usize,
    /// Its inner child.
    pub c: usize,
    /// Its other child.
    pub x: usize,
    /// The grandchild that stays below `c`.
    pub keep: usize,
    /// The grandchild that moves up to `n`.
    pub mov: usize,
    /// The left child of `n` before.
    pub old_left_n: usize,
    /// The right child of `n` before.
    pub old_right_n: usize,
    /// The left child of `c` before.
    pub old_left_c: usize,
    /// The right child of `c` before.
    pub old_right_c: usize,
    /// The parent of `x` before.
    pub old_parent_x: usize,
    /// The parent of `keep` before.
    pub old_parent_keep: usize,
    /// The parent of `mov` before.
    pub old_parent_mov: usize,
    /// The greenness of `c` before.
    pub old_green_c: bool,
    /// The step cost of `c` before.
    pub old_step_c: Natural,
    /// The step cost of `n` before.
    pub old_step_n: Natural,
    /// The step volume of `c` before.
    pub old_real_c: Natural,
    /// The step volume of `n` before.
    pub old_real_n: Natural,
    /// The tree before.
    pub before: Ghost<Shape>,
}

/// Where rotations keep the label counts that they overwrite.
///
/// A rotation must be undone before the next one overwrites them.
#[derive(Debug)]
pub struct RotationScratch {
    /// The counts of the node `c` before the last rotation.
    pub old_counts_c: Vec<i16>,
}

impl Clone for RotationScratch {
    fn clone(&self) -> (r: RotationScratch)
        ensures
            r.old_counts_c@ == self.old_counts_c@,
    {
        let old_counts_c = self.old_counts_c.clone();
        assert(old_counts_c@ =~= self.old_counts_c@);
        RotationScratch { old_counts_c }
    }
}

impl RotationScratch {
    /// Scratch space for a tree with `nlabels` labels.
    pub fn new(nlabels: usize) -> (r: RotationScratch)
        ensures
            r.old_counts_c@.len() == 0,
    {
        RotationScratch { old_counts_c: Vec::with_capacity(nlabels) }
    }
}

impl Rotation {
    /// Whether the touched nodes are nodes of the tree.
    pub open spec fn in_range(self, st: TreeState) -> bool {
        &&& self.n < st.nnodes()
        &&& self.c < st.nnodes()
        &&& self.x < st.nnodes()
        &&& self.keep < st.nnodes()
        &&& self.mov < st.nnodes()
        &&& st.sized()
        &&& st.links.right.len() == st.links.left.len()
        &&& st.links.parent.len() == st.links.left.len()
    }

    /// The state with everything that the rotation overwrote put back; `counts`
    /// are the kept label counts of the node `c`.
    pub open spec fn undone(self, counts: Seq<i16>, st: TreeState) -> TreeState {
        let (n, c) = (self.n as int, self.c as int);
        TreeState {
            links: Links {
                left: st.links.left.update(n, self.old_left_n).update(c, self.old_left_c),
                right: st.links.right.update(n, self.old_right_n).update(c, self.old_right_c),
                parent: st.links.parent.update(self.x as int, self.old_parent_x).update(
                    self.keep as int,
                    self.old_parent_keep,
                ).update(self.mov as int, self.old_parent_mov),
                root: st.links.root,
                shape: self.before@,
            },
            tensoridx: st.tensoridx,
            counts: st.counts.update(c, counts),
            green: st.green.update(c, self.old_green_c),
            step: st.step.update(c, self.old_step_c@).update(n, self.old_step_n@),
            real: st.real.update(c, self.old_real_c@).update(n, self.old_real_n@),
        }
    }
}

impl Rotation {
    /// Whether this is what a rotation from the tree `a` to the tree `b` leaves
    /// behind: the change in cost, and all that it takes to undo it.
    pub open spec fn made(self, a: GreenTree, b: GreenTree, scratch: RotationScratch) -> bool {
        &&& self.delta@ == b@.shape().cost(b.net@) - a@.shape().cost(a.net@)
        &&& self.in_range(b@)
        &&& scratch.old_counts_c@.len() == b.net.nlabels
        &&& self.undone(scratch.old_counts_c@, b@) == a@
    }
}

impl Clone for Rotation {
    fn clone(&self) -> (r: Rotation)
        ensures
            r.delta@ == self.delta@,
            forall|st: TreeState| #[trigger] r.in_range(st) == self.in_range(st),
            forall|counts: Seq<i16>, st: TreeState| #[trigger]
                r.undone(counts, st) == self.undone(counts, st),
    {
        Rotation {
            delta: self.delta.clone(),
            n: self.n,
            c: self.c,
            x: self.x,
            keep: self.keep,
            mov: self.mov,
            old_left_n: self.old_left_n,
            old_right_n: self.old_right_n,
            old_left_c: self.old_left_c,
            old_right_c: self.old_right_c,
            old_parent_x: self.old_parent_x,
            old_parent_keep: self.old_parent_keep,
            old_parent_mov: self.old_parent_mov,
            old_green_c: self.old_green_c,
            old_step_c: self.old_step_c.clone(),
            old_step_n: self.old_step_n.clone(),
            old_real_c: self.old_real_c.clone(),
            old_real_n: self.old_real_n.clone(),
            before: Ghost(self.before@),
        }
    }
}

/// The inner children of the root, the left one first.
pub open spec fn inner_children_of(t: Shape) -> Seq<int> {
    match t {
        Shape::Leaf { .. } => seq![],
        Shape::Node { left, right, .. } => {
            let a = if *left is Node {
                seq![left.id()]
            } else {
                seq![]
            };
            let b = if *right is Node {
                seq![right.id()]
            } else {
                seq![]
            };
            a + b
        },
    }
}

/// What one annealing step draws.
pub struct Draw {
    /// The node to rotate at.
    pub node: int,
    /// Which of its inner children to rotate through.
    pub pick: int,
    /// Whether the left grandchild stays.
    pub keep_left: bool,
    /// The word by which a move that raises the cost is decided.
    pub word: u64,
}

/// Whether a step from the tree `s` can draw `d`.
pub open spec fn drawable(s: Shape, d: Draw) -> bool {
    let cands = inner_children_of(s.at(d.node));
    s.has(d.node) && (cands.len() > 0 ==> 0 <= d.pick < cands.len())
}

/// The tree that a step from `s` proposes: none where the drawn node has no
/// inner child.
pub open spec fn proposal(s: Shape, d: Draw) -> Option<Shape> {
    let cands = inner_children_of(s.at(d.node));
    if cands.len() == 0 {
        None
    } else {
        Some(s.rotated_at(d.node, cands[d.pick], d.keep_left))
    }
}

/// What a step from the tree `s` with the draws `d` writes to the log up to its
/// proposal: the node, and where it has inner children the pick and the coin.
pub open spec fn rotation_log(s: Shape, d: Draw) -> Seq<Drawn> {
    let cands = inner_children_of(s.at(d.node));
    let node = Drawn::Index { bound: s.size() as int, value: d.node };
    if cands.len() == 0 {
        seq![node]
    } else {
        seq![
            node,
            Drawn::Index { bound: cands.len() as int, value: d.pick },
            Drawn::Coin { heads: d.keep_left },
        ]
    }
}

/// The draws that the log of a proposal tells of.
pub open spec fn rotation_draw(log: Seq<Drawn>) -> Draw {
    Draw {
        node: log[0]->value,
        pick: if log.len() > 1 {
            log[1]->value
        } else {
            0
        },
        keep_left: log.len() <= 2 || log[2]->heads,
        word: 0,
    }
}

/// A rotation through an inner child is possible.
pub proof fn lemma_drawable(s: Shape, d: Draw)
    requires
        drawable(s, d),
    ensures
        inner_children_of(s.at(d.node)).len() > 0 ==> s.at(d.node).rotatable(
            inner_children_of(s.at(d.node))[d.pick],
        ),
{
}

/// The inner child `c` of the root, its sibling, and its kept and its moving
/// child.
pub open spec fn pieces(t: Shape, c: int, keep_left: bool) -> (Shape, Shape, Shape, Shape) {
    let (left, right) = (*t->Node_left, *t->Node_right);
    let (p, x) = if left is Node && left.id() == c {
        (left, right)
    } else {
        (right, left)
    };
    if keep_left {
        (p, x, *p->Node_left, *p->Node_right)
    } else {
        (p, x, *p->Node_right, *p->Node_left)
    }
}

/// How the pieces of a rotation make up the tree before and after.
pub proof fn lemma_pieces(t: Shape, c: int, keep_left: bool)
    requires
        t.distinct(),
        t.rotatable(c),
    ensures
        ({
            let (p, x, keep, mov) = pieces(t, c, keep_left);
            let n = t.id();
            &&& p is Node
            &&& p.id() == c
            &&& t.has(c)
            &&& t.has(x.id())
            &&& t.has(keep.id())
            &&& t.has(mov.id())
            &&& x.distinct()
            &&& keep.distinct()
            &&& mov.distinct()
            &&& disjoint(x, keep)
            &&& disjoint(x, mov)
            &&& disjoint(keep, mov)
            &&& n != c
            &&& !x.has(n) && !keep.has(n) && !mov.has(n)
            &&& !x.has(c) && !keep.has(c) && !mov.has(c)
            &&& forall|j: int| #[trigger] x.has(j) ==> t.has(j)
            &&& forall|j: int| #[trigger] keep.has(j) ==> t.has(j)
            &&& forall|j: int| #[trigger] mov.has(j) ==> t.has(j)
            &&& t.rotated(c, keep_left) == (Shape::Node {
                id: n,
                left: Box::new(
                    Shape::Node { id: c, left: Box::new(x), right: Box::new(keep) },
                ),
                right: Box::new(mov),
            })
        }),
{
    reveal_with_fuel(Shape::has, 3);
    reveal_with_fuel(Shape::distinct, 3);
    let (p, x, keep, mov) = pieces(t, c, keep_left);
    lemma_has_root(*t->Node_left);
    lemma_has_root(*t->Node_right);
    lemma_has_root(p);
    lemma_has_root(x);
    lemma_has_root(keep);
    lemma_has_root(mov);
    assert(disjoint(p, x));
    assert forall|i: int| !(#[trigger] x.has(i) && keep.has(i)) by {
        assert(!(p.has(i) && x.has(i)));
    }
    assert forall|i: int| !(#[trigger] x.has(i) && mov.has(i)) by {
        assert(!(p.has(i) && x.has(i)));
    }
}

impl GreenTree {
    /// Rotates the tree at the node `n` through its inner child `c`.
    ///
    /// Before: `n = (c, x)` with `c = (keep, mov)`, in either order. After:
    /// `n = (c, mov)` with `c = (x, keep)`. The node `n` keeps its leaves, so
    /// only the books of `c` and `n` are made anew.
    #[verifier::rlimit(60)]
    #[verifier::spinoff_prover]
    pub fn rotate(
        &mut self,
        n: usize,
        c: usize,
        keep_left: bool,
        scratch: &mut RotationScratch,
    ) -> (rot: Rotation)
        requires
            old(self).wf(),
            n < old(self)@.nnodes(),
            old(self)@.shape().at(n as int).rotatable(c as int),
        ensures
            final(self).wf(),
            final(self)@.shape() == old(self)@.shape().rotated_at(n as int, c as int, keep_left),
            final(self)@.nnodes() == old(self)@.nnodes(),
            final(self).tensoridx == old(self).tensoridx,
            final(self).net == old(self).net,
            rot.n == n,
            rot.c == c,
            rot.delta@ == final(self)@.shape().cost(final(self).net@) - old(self)@.shape().cost(
                old(self).net@,
            ),
            rot.in_range(final(self)@),
            final(scratch).old_counts_c@.len() == final(self).net.nlabels,
            rot.undone(final(scratch).old_counts_c@, final(self)@) == old(self)@,
    {
        let ghost s = self.shape@;
        let ghost net = self.net@;
        let ghost st0 = self@;
        let ghost t = s.at(n as int);
        let ghost tens = self.tensoridx@;
        let ghost (p, gx, gkeep, gmov) = pieces(t, c as int, keep_left);
        let ghost q = Shape::Node { id: c as int, left: Box::new(gx), right: Box::new(gkeep) };
        let ghost r = t.rotated(c as int, keep_left);
        proof {
            assert(s.has(n as int));
            lemma_node(s, n as int, st0.links.left, st0.links.right, tens);
            lemma_pieces(t, c as int, keep_left);
            lemma_rotated(t, c as int, keep_left);
            lemma_rotated_at(s, n as int, c as int, keep_left);
            lemma_node(t, c as int, st0.links.left, st0.links.right, tens);
            lemma_has_root(p);
            lemma_has_root(gx);
            lemma_has_root(gkeep);
            lemma_has_root(gmov);
            lemma_subtree_parented(s, n as int, st0.links.parent);
            lemma_subtree_recorded(s, n as int, net, st0);
            lemma_at(s, n as int);
            assert(s.has(gx.id()) && s.has(gkeep.id()) && s.has(gmov.id()) && s.has(c as int));
            assert(recorded(p, net, st0));
            assert(parented(p, st0.links.parent));
            assert(encodes(p, st0.links.left, st0.links.right, tens));
        }
        let a: usize = self.left[n];
        let b: usize = self.right[n];
        let x: usize = if c == a {
            b
        } else {
            a
        };
        let bb: usize = self.left[c];
        let cc: usize = self.right[c];
        let keep: usize = if keep_left {
            bb
        } else {
            cc
        };
        let mov: usize = if keep == bb {
            cc
        } else {
            bb
        };
        proof {
            lemma_has_root(*t->Node_left);
            lemma_has_root(*t->Node_right);
            lemma_has_root(*p->Node_left);
            lemma_has_root(*p->Node_right);
            assert(x == gx.id());
            assert(keep == gkeep.id());
            assert(mov == gmov.id());
        }
        let old_step_c = self.stepcost[c].clone();
        let old_step_n = self.stepcost[n].clone();
        let old_real_c = self.realcost[c].clone();
        let old_real_n = self.realcost[n].clone();
        let old_left_c: usize = self.left[c];
        let old_right_c: usize = self.right[c];
        let old_parent_x: usize = self.parent[x];
        let old_parent_keep: usize = self.parent[keep];
        let old_parent_mov: usize = self.parent[mov];
        let old_green_c: bool = self.green[c];
        let column = self.counts[c].clone();
        assert(column@ =~= self.counts@[c as int]@);
        scratch.old_counts_c = column;

        self.left.set(c, x);
        self.right.set(c, keep);
        self.parent.set(x, c);
        self.parent.set(keep, c);
        self.left.set(n, c);
        self.right.set(n, mov);
        self.parent.set(mov, n);
        self.parent.set(c, n);
        self.shape = Ghost(s.with(n as int, r));
        let ghost st1 = self@;
        proof {
            let (l0, r0) = (st0.links.left, st0.links.right);
            let (l1, r1) = (st1.links.left, st1.links.right);
            lemma_encodes_frame(gx, l0, r0, tens, l1, r1, tens);
            lemma_encodes_frame(gkeep, l0, r0, tens, l1, r1, tens);
            lemma_encodes_frame(gmov, l0, r0, tens, l1, r1, tens);
            assert(encodes(q, l1, r1, tens));
            assert(encodes(r, l1, r1, tens));
            assert forall|j: int| #[trigger] s.has(j) && !t.has(j) implies l0[j] == l1[j] && r0[j]
                == r1[j] by {}
            lemma_encodes_with(s, n as int, r, l0, r0, l1, r1, tens);
            let (p0, p1) = (st0.links.parent, st1.links.parent);
            lemma_parented_frame(gx, p0, p1);
            lemma_parented_frame(gkeep, p0, p1);
            lemma_parented_frame(gmov, p0, p1);
            assert(parented(q, p1));
            assert(parented(r, p1));
            lemma_parented_with(s, n as int, r, p0, p1);
            // Books: only those of `c` and `n` are stale.
            lemma_recorded_frame(gx, net, st0, st1);
            lemma_recorded_frame(gkeep, net, st0, st1);
            lemma_recorded_frame(gmov, net, st0, st1);
            assert(crate::shape::alike(t, r, net));
            assert forall|l: int| 0 <= l < net.nlabels() implies #[trigger] r.count(net, l)
                <= i16::MAX by {
                assert(t.counts(net)[l] == r.counts(net)[l]);
                assert(t.count(net, l) <= s.count(net, l));
                assert(st0.links.shape.count(net, l) <= i16::MAX);
            }
            assert forall|l: int| 0 <= l < net.nlabels() implies #[trigger] q.count(net, l)
                <= i16::MAX by {
                assert(r.count(net, l) <= i16::MAX);
            }
            assert forall|l: int|
                #![trigger st1.counts[x as int][l]]
                #![trigger st1.counts[keep as int][l]]
                0 <= l < net.nlabels() implies 0 <= st1.counts[x as int][l] && 0
                <= st1.counts[keep as int][l] && st1.counts[x as int][l]
                + st1.counts[keep as int][l] <= i16::MAX by {
                assert(q.count(net, l) <= i16::MAX);
                assert(st1.counts[x as int][l] == gx.count(net, l));
                assert(st1.counts[keep as int][l] == gkeep.count(net, l));
            }
        }
        self.refresh(c);
        let ghost st2 = self@;
        proof {
            lemma_refreshed(q, net, st1);
            assert(same_books(st1, st2, mov as int));
            assert(recorded_node(gmov, net, st2));
            assert forall|l: int|
                #![trigger st2.counts[c as int][l]]
                #![trigger st2.counts[mov as int][l]]
                0 <= l < net.nlabels() implies 0 <= st2.counts[c as int][l] && 0
                <= st2.counts[mov as int][l] && st2.counts[c as int][l]
                + st2.counts[mov as int][l] <= i16::MAX by {
                assert(r.count(net, l) <= i16::MAX);
                assert(st2.counts[c as int][l] == q.count(net, l));
                assert(st2.counts[mov as int][l] == gmov.count(net, l));
            }
        }
        self.refresh(n);
        let ghost st3 = self@;
        proof {
            lemma_refreshed(r, net, st2);
            assert forall|j: int|
                0 <= j < st0.nnodes() && j != n && j != c implies #[trigger] same_books(
                st0,
                st3,
                j,
            ) by {
                assert(same_books(st1, st2, j));
                assert(same_books(st2, st3, j));
            }
            assert forall|j: int| #[trigger] gx.has(j) implies same_books(st0, st3, j) by {
                assert(s.has(j));
            }
            assert forall|j: int| #[trigger] gkeep.has(j) implies same_books(st0, st3, j) by {
                assert(s.has(j));
            }
            assert forall|j: int| #[trigger] gmov.has(j) implies same_books(st0, st3, j) by {
                assert(s.has(j));
            }
            lemma_recorded_frame(gx, net, st0, st3);
            lemma_recorded_frame(gkeep, net, st0, st3);
            lemma_recorded_frame(gmov, net, st0, st3);
            assert(same_books(st2, st3, c as int));
            assert(recorded_node(q, net, st3));
            assert(recorded(q, net, st3));
            assert(recorded(r, net, st3));
            assert forall|j: int| #[trigger] s.has(j) && !t.has(j) implies same_books(
                st0,
                st3,
                j,
            ) by {}
            lemma_recorded_with(s, n as int, r, net, st0, st3);
            lemma_with_cost(s, n as int, r, net);
            let s2 = s.with(n as int, r);
            assert forall|l: int| 0 <= l < net.nlabels() implies #[trigger] s2.count(net, l)
                <= i16::MAX by {
                assert(s.counts(net)[l] == s2.counts(net)[l]);
                assert(st0.links.shape.count(net, l) <= i16::MAX);
            }
            assert(self.wf());
            assert(r.cost(net) - t.cost(net) == st3.step[c as int] + st3.step[n as int]
                - st0.step[c as int] - st0.step[n as int]) by {
                reveal_with_fuel(Shape::cost, 3);
                assert(recorded_node(p, net, st0));
                assert(recorded_node(t, net, st0));
            }
        }
        let dold: Natural = old_step_c.plus(&old_step_n);
        let dnew: Natural = self.stepcost[c].plus(&self.stepcost[n]);
        let rot = Rotation {
            delta: Signed::difference(&dnew, &dold),
            n,
            c,
            x,
            keep,
            mov,
            old_left_n: a,
            old_right_n: b,
            old_left_c,
            old_right_c,
            old_parent_x,
            old_parent_keep,
            old_parent_mov,
            old_green_c,
            old_step_c,
            old_step_n,
            old_real_c,
            old_real_n,
            before: Ghost(s),
        };
        proof {
            let u = rot.undone(scratch.old_counts_c@, st3);
            assert(u.links.left =~= st0.links.left);
            assert(u.links.right =~= st0.links.right);
            assert(parented(t, st0.links.parent));
            assert(st0.links.parent[c as int] == n);
            assert(u.links.parent =~= st0.links.parent);
            assert(u.links == st0.links);
            assert(st3.counts[n as int] =~= st0.counts[n as int]) by {
                assert forall|l: int| 0 <= l < net.nlabels() implies st3.counts[n as int][l]
                    == st0.counts[n as int][l] by {
                    assert(st3.counts[n as int][l] == r.count(net, l));
                    assert(st0.counts[n as int][l] == t.count(net, l));
                    assert(t.counts(net)[l] == r.counts(net)[l]);
                }
            }
            assert forall|j: int| 0 <= j < st0.nnodes() implies u.counts[j] == st0.counts[j]
                && u.green[j] == st0.green[j] && u.step[j] == st0.step[j] && u.real[j]
                == st0.real[j] by {
                if j != n && j != c {
                    assert(same_books(st0, st3, j));
                }
            }
            assert(u.counts =~= st0.counts);
            assert(u.green =~= st0.green);
            assert(u.step =~= st0.step);
            assert(u.real =~= st0.real);
        }
        rot
    }

    /// The inner children of the node `n`, the left one first.
    pub fn inner_children(&self, n: usize) -> (r: Vec<usize>)
        requires
            self.wf(),
            n < self@.nnodes(),
        ensures
            r@.map_values(|c: usize| c as int) == inner_children_of(self@.shape().at(n as int)),
            self.left@[n as int] == NONE ==> r@.len() == 0,
            self.left@[n as int] != NONE ==> ({
                let (a, b) = (self.left@[n as int], self.right@[n as int]);
                &&& a < self@.nnodes() && b < self@.nnodes()
                &&& r@.contains(a) <==> self.left@[a as int] != NONE
                &&& r@.contains(b) <==> self.left@[b as int] != NONE
                &&& r@.len() == if self.left@[a as int] != NONE && self.left@[b as int] != NONE {
                    2nat
                } else if self.left@[a as int] != NONE || self.left@[b as int] != NONE {
                    1nat
                } else {
                    0nat
                }
            }),
    {
        let ghost s = self.shape@;
        let ghost name = |c: usize| c as int;
        proof {
            assert(s.has(n as int));
            lemma_node(s, n as int, self.left@, self.right@, self.tensoridx@);
        }
        let mut r: Vec<usize> = Vec::new();
        if !self.is_leaf(n) {
            let a: usize = self.left[n];
            let b: usize = self.right[n];
            if !self.is_leaf(a) {
                r.push(a);
            }
            let ghost left = r@;
            if !self.is_leaf(b) {
                r.push(b);
            }
            proof {
                if left.len() > 0 {
                    assert(r@[0] == a);
                }
                if r@.len() > left.len() {
                    assert(r@[left.len() as int] == b);
                }
            }
        }
        assert(r@.map_values(name) =~= inner_children_of(s.at(n as int)));
        r
    }

    /// Rotates the tree at the node `n` through its inner child number `pick`,
    /// keeping the left or the right grandchild; gives nothing, and leaves the
    /// tree alone, where `n` is a leaf or has no inner child. [`Self::undo`]
    /// reverts it.
    pub fn rotate_drawn(
        &mut self,
        n: usize,
        pick: usize,
        keep_left: bool,
        scratch: &mut RotationScratch,
    ) -> (r: Option<Rotation>)
        requires
            old(self).wf(),
            drawable(
                old(self)@.shape(),
                (Draw { node: n as int, pick: pick as int, keep_left, word: 0 }),
            ),
        ensures
            final(self).wf(),
            final(self)@.nnodes() == old(self)@.nnodes(),
            final(self).tensoridx == old(self).tensoridx,
            final(self).net == old(self).net,
            proposal(
                old(self)@.shape(),
                (Draw { node: n as int, pick: pick as int, keep_left, word: 0 }),
            ) == match r {
                None => None,
                Some(_) => Some(final(self)@.shape()),
            },
            match r {
                None => *final(self) == *old(self) && *final(scratch) == *old(scratch),
                Some(rot) => rot.made(*old(self), *final(self), *final(scratch)) && rot.n == n,
            },
    {
        let ghost s = self.shape@;
        let ghost d = Draw { node: n as int, pick: pick as int, keep_left, word: 0 };
        proof {
            lemma_drawable(s, d);
            assert(s.has(n as int));
        }
        let cands: Vec<usize> = self.inner_children(n);
        let ghost names = cands@.map_values(|c: usize| c as int);
        assert(names == inner_children_of(s.at(n as int)));
        if cands.len() == 0 {
            return None;
        }
        let c: usize = cands[pick];
        assert(names[pick as int] == c);
        Some(self.rotate(n, c, keep_left, scratch))
    }

    /// Draws a node, and where it has inner children one of them and one of that
    /// one's children, and rotates the tree by these draws as
    /// [`Self::rotate_drawn`] does.
    pub fn try_rotation(
        &mut self,
        source: &mut Source,
        scratch: &mut RotationScratch,
    ) -> (r: Option<Rotation>)
        requires
            old(self).wf(),
        ensures
            final(self).wf(),
            final(self)@.nnodes() == old(self)@.nnodes(),
            final(self).tensoridx == old(self).tensoridx,
            final(self).net == old(self).net,
            final(source).seed() == old(source).seed(),
            drawn_from(final(source).seed(), final(source).log()),
            ({
                let s = old(self)@.shape();
                let new = final(source).log().skip(old(source).log().len() as int);
                let d = rotation_draw(new);
                &&& final(source).log() == old(source).log() + new
                &&& new == rotation_log(s, d)
                &&& drawable(s, d)
                &&& proposal(s, d) == match r {
                    None => None,
                    Some(_) => Some(final(self)@.shape()),
                }
                &&& r is None <==> inner_children_of(s.at(d.node)).len() == 0
                &&& r matches Some(rot) ==> rot.n == d.node
                &&& new[0] == (Drawn::Index {
                    bound: old(self)@.nnodes(),
                    value: new[0]->value,
                })
                &&& 0 <= new[0]->value < old(self)@.nnodes()
                &&& r is None <==> match s.at(new[0]->value) {
                    Shape::Leaf { .. } => true,
                    Shape::Node { left, right, .. } => *left is Leaf && *right is Leaf,
                }
                &&& new.len() == if r is None {
                    1nat
                } else {
                    3nat
                }
            }),
            match r {
                None => *final(self) == *old(self) && *final(scratch) == *old(scratch),
                Some(rot) => rot.made(*old(self), *final(self), *final(scratch)),
            },
    {
        let ghost s = self.shape@;
        let ghost log = source.log();
        proof {
            lemma_has_root(s);
            assert(s.has(s.id()));
            lemma_size_spans(s, self@.nnodes());
        }
        let n: usize = source.index(self.nnodes());
        let k: usize = self.inner_children(n).len();
        assert(s.has(n as int));
        if k == 0 {
            let r = self.rotate_drawn(n, 0, true, scratch);
            proof {
                let new = source.log().skip(log.len() as int);
                let d = rotation_draw(new);
                assert(new =~= seq![Drawn::Index { bound: s.size() as int, value: n as int }]);
                assert(source.log() =~= log + new);
                assert(d == (Draw { node: n as int, pick: 0, keep_left: true, word: 0 }));
            }
            return r;
        }
        let pick: usize = source.index(k);
        let keep_left: bool = source.coin();
        let ghost d = Draw { node: n as int, pick: pick as int, keep_left, word: 0 };
        let r = self.rotate_drawn(n, pick, keep_left, scratch);
        proof {
            let new = source.log().skip(log.len() as int);
            assert(new =~= seq![
                Drawn::Index { bound: s.size() as int, value: n as int },
                Drawn::Index { bound: k as int, value: pick as int },
                Drawn::Coin { heads: keep_left },
            ]);
            assert(source.log() =~= log + new);
            assert(rotation_draw(new) == d);
            assert(inner_children_of(s.at(n as int)).len() == k);
        }
        r
    }

    /// Reverts a rotation exactly. The scratch space must still hold the counts
    /// that the rotation kept there.
    pub fn undo(&mut self, rot: &Rotation, scratch: &mut RotationScratch)
        requires
            rot.in_range(old(self)@),
            old(scratch).old_counts_c@.len() == old(self).net.nlabels,
        ensures
            final(self)@ == rot.undone(old(scratch).old_counts_c@, old(self)@),
            final(self).tensoridx == old(self).tensoridx,
            final(self).net == old(self).net,
            *final(scratch) == *old(scratch),
    {
        let ghost before = self@;
        self.left.set(rot.n, rot.old_left_n);
        self.right.set(rot.n, rot.old_right_n);
        self.left.set(rot.c, rot.old_left_c);
        self.right.set(rot.c, rot.old_right_c);
        self.parent.set(rot.x, rot.old_parent_x);
        self.parent.set(rot.keep, rot.old_parent_keep);
        self.parent.set(rot.mov, rot.old_parent_mov);
        let column = scratch.old_counts_c.clone();
        assert(column@ =~= scratch.old_counts_c@);
        self.counts.set(rot.c, column);
        self.green.set(rot.c, rot.old_green_c);
        self.stepcost.set(rot.c, rot.old_step_c.clone());
        self.stepcost.set(rot.n, rot.old_step_n.clone());
        self.realcost.set(rot.c, rot.old_real_c.clone());
        self.realcost.set(rot.n, rot.old_real_n.clone());
        self.shape = Ghost(rot.before@);
        proof {
            let after = rot.undone(scratch.old_counts_c@, before);
            assert(self@.counts =~= after.counts);
            assert(self@.green =~= after.green);
            assert(self@.step =~= after.step);
            assert(self@.real =~= after.real);
        }
    }
}

} // verus!
