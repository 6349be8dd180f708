//! Exporting a flat tree as a contraction order.

use crate::labels::{copy_labels, find, lemma_position, position};
use crate::nested::{label_lists, Contraction, EinCode, Label, NestedEinsum};
use crate::network::{open_at_subtree, Net};
use crate::shape::{lemma_at, lemma_has_root, Shape};
use crate::state::{lemma_node, lemma_subtree_recorded};
use crate::tree::GreenTree;
use vstd::prelude::*;

verus! {

/// Whether the label `l` is open at the subtree `s`; `labels` numbers the
/// labels.
pub open spec fn label_open<L>(s: Shape, net: Net, labels: Seq<L>, l: L) -> bool {
    let k = position(labels, l)->0;
    open_at_subtree(s.count(net, k) as int, net.total(k) as int, net.outputs[k])
}

/// The labels of a list that are open at the subtree `s`, without repetition,
/// in the order of their first occurrence.
pub open spec fn open_labels<L>(list: Seq<L>, s: Shape, net: Net, labels: Seq<L>) -> Seq<L>
    decreases list.len(),
{
    if list.len() == 0 {
        list
    } else {
        let r = open_labels(list.drop_last(), s, net, labels);
        if label_open(s, net, labels, list.last()) && !r.contains(list.last()) {
            r.push(list.last())
        } else {
            r
        }
    }
}

/// The labels that a subtree passes up: a leaf all those of its tensor, an
/// inner node those of its children, left before right, that are open at it.
pub open spec fn out_labels<L>(s: Shape, net: Net, ixs: Seq<Seq<L>>, labels: Seq<L>) -> Seq<L>
    decreases s,
{
    match s {
        Shape::Leaf { tensor, .. } => ixs[tensor],
        Shape::Node { left, right, .. } => open_labels(
            out_labels(*left, net, ixs, labels) + out_labels(*right, net, ixs, labels),
            s,
            net,
            labels,
        ),
    }
}

/// The contraction order of a subtree. Every einsum takes what its arguments
/// pass up and gives what its node passes up; at the root of the whole tree it
/// gives `iy`.
pub open spec fn exported<L>(
    s: Shape,
    net: Net,
    ixs: Seq<Seq<L>>,
    labels: Seq<L>,
    iy: Option<Seq<L>>,
) -> Contraction<L>
    decreases s,
{
    match s {
        Shape::Leaf { tensor, .. } => Contraction::Leaf { tensor },
        Shape::Node { left, right, .. } => Contraction::Node {
            left: Box::new(exported(*left, net, ixs, labels, None)),
            right: Box::new(exported(*right, net, ixs, labels, None)),
            ixs: seq![
                out_labels(*left, net, ixs, labels),
                out_labels(*right, net, ixs, labels),
            ],
            iy: match iy {
                Some(y) => y,
                None => out_labels(s, net, ixs, labels),
            },
        },
    }
}

/// Whether a label has a number below `n`.
pub open spec fn known<L>(labels: Seq<L>, n: int, l: L) -> bool {
    position(labels, l) is Some && position(labels, l)->0 < n
}

/// Whether all the labels of a list have numbers below `n`.
pub open spec fn all_known<L>(labels: Seq<L>, n: int, list: Seq<L>) -> bool {
    forall|k: int| 0 <= k < list.len() ==> known(labels, n, #[trigger] list[k])
}

/// Whether the labels of all the leaves of a subtree have numbers below `n`.
pub open spec fn leaves_known<L>(s: Shape, ixs: Seq<Seq<L>>, labels: Seq<L>, n: int) -> bool
    decreases s,
{
    match s {
        Shape::Leaf { tensor, .. } => all_known(labels, n, ixs[tensor]),
        Shape::Node { left, right, .. } => leaves_known(*left, ixs, labels, n) && leaves_known(
            *right,
            ixs,
            labels,
            n,
        ),
    }
}

/// Whether the labels are known wherever an export looks one up: below every
/// inner node but the root.
pub open spec fn exportable<L>(s: Shape, ixs: Seq<Seq<L>>, labels: Seq<L>, n: int) -> bool {
    match s {
        Shape::Leaf { .. } => true,
        Shape::Node { left, right, .. } => {
            &&& *left is Node ==> leaves_known(*left, ixs, labels, n)
            &&& *right is Node ==> leaves_known(*right, ixs, labels, n)
        },
    }
}

proof fn lemma_open_labels_known<L>(list: Seq<L>, s: Shape, net: Net, labels: Seq<L>, n: int)
    requires
        all_known(labels, n, list),
    ensures
        all_known(labels, n, open_labels(list, s, net, labels)),
    decreases list.len(),
{
    if list.len() > 0 {
        let t = list.drop_last();
        assert forall|k: int| 0 <= k < t.len() implies known(labels, n, #[trigger] t[k]) by {
            assert(t[k] == list[k]);
        }
        lemma_open_labels_known(t, s, net, labels, n);
        assert(known(labels, n, list[list.len() - 1]));
    }
}

/// What a subtree passes up are labels of its leaves.
pub proof fn lemma_out_labels_known<L>(
    s: Shape,
    net: Net,
    ixs: Seq<Seq<L>>,
    labels: Seq<L>,
    n: int,
)
    requires
        leaves_known(s, ixs, labels, n),
    ensures
        all_known(labels, n, out_labels(s, net, ixs, labels)),
    decreases s,
{
    match s {
        Shape::Leaf { .. } => {},
        Shape::Node { left, right, .. } => {
            lemma_out_labels_known(*left, net, ixs, labels, n);
            lemma_out_labels_known(*right, net, ixs, labels, n);
            let a = out_labels(*left, net, ixs, labels);
            let b = out_labels(*right, net, ixs, labels);
            assert forall|k: int| 0 <= k < (a + b).len() implies known(
                labels,
                n,
                #[trigger] (a + b)[k],
            ) by {
                if k < a.len() {
                    assert((a + b)[k] == a[k]);
                } else {
                    assert((a + b)[k] == b[k - a.len()]);
                }
            }
            lemma_open_labels_known(a + b, s, net, labels, n);
        },
    }
}

impl GreenTree {
    /// Whether the label `l` is open at the subtree of the node `i`: it occurs
    /// there, and elsewhere in the network or in the final output.
    pub fn is_open_at(&self, i: usize, l: usize) -> (r: bool)
        requires
            self.wf(),
            i < self@.nnodes(),
            l < self.net.nlabels,
        ensures
            r == open_at_subtree(
                self@.shape().at(i as int).count(self.net@, l as int) as int,
                self.net@.total(l as int) as int,
                self.net@.outputs[l as int],
            ),
    {
        proof {
            assert(self.shape@.has(i as int));
            lemma_at(self.shape@, i as int);
            lemma_subtree_recorded(self.shape@, i as int, self.net@, self@);
            assert(self@.counts[i as int][l as int] == self.shape@.at(i as int).count(
                self.net@,
                l as int,
            ));
        }
        let c: i16 = self.counts[i][l];
        c > 0 && (c < self.net.total[l] || self.net.is_output[l])
    }

    /// Appends the labels of `list` that are open at the node `i` and not yet
    /// there.
    fn pass_up<L: Label>(
        &self,
        i: usize,
        list: &Vec<L>,
        labels: &[L],
        seen: &mut Vec<bool>,
        out: &mut Vec<L>,
        Ghost(before): Ghost<Seq<L>>,
    )
        requires
            self.wf(),
            i < self@.nnodes(),
            all_known(labels@, self.net.nlabels as int, list@),
            all_known(labels@, self.net.nlabels as int, before),
            old(seen)@.len() == self.net.nlabels,
            old(out)@ == open_labels(before, self@.shape().at(i as int), self.net@, labels@),
            forall|k: int|
                0 <= k < old(seen)@.len() ==> (#[trigger] old(seen)@[k] <==> k < labels@.len()
                    && position(labels@, labels@[k]) == Some(k) && old(out)@.contains(labels@[k])),
        ensures
            final(seen)@.len() == self.net.nlabels,
            final(out)@ == open_labels(
                before + list@,
                self@.shape().at(i as int),
                self.net@,
                labels@,
            ),
            forall|k: int|
                0 <= k < final(seen)@.len() ==> (#[trigger] final(seen)@[k] <==> k < labels@.len()
                    && position(labels@, labels@[k]) == Some(k) && final(out)@.contains(
                    labels@[k],
                )),
    {
        let ghost t = self@.shape().at(i as int);
        let ghost net = self.net@;
        let mut m: usize = 0;
        assert(before + list@.take(0) =~= before);
        while m < list.len()
            invariant
                m <= list@.len(),
                self.wf(),
                t == self@.shape().at(i as int),
                net == self.net@,
                i < self@.nnodes(),
                all_known(labels@, self.net.nlabels as int, list@),
                seen@.len() == self.net.nlabels,
                out@ == open_labels(before + list@.take(m as int), t, net, labels@),
                forall|k: int|
                    0 <= k < seen@.len() ==> (#[trigger] seen@[k] <==> k < labels@.len()
                        && position(labels@, labels@[k]) == Some(k) && out@.contains(labels@[k])),
            decreases list@.len() - m,
        {
            let found: Option<usize> = find(labels, &list[m]);
            proof {
                assert(known(labels@, self.net.nlabels as int, list@[m as int]));
                lemma_position(labels@, list@[m as int]);
                let all = before + list@.take(m + 1);
                assert(all.drop_last() =~= before + list@.take(m as int));
                assert(all.last() == list@[m as int]);
            }
            let k: usize = found.unwrap();
            let ghost l = list@[m as int];
            let ghost out0 = out@;
            let ghost seen0 = seen@;
            assert(labels@[k as int] == l);
            if !seen[k] && self.is_open_at(i, k) {
                seen.set(k, true);
                out.push(list[m].duplicate());
                proof {
                    assert forall|j: int| 0 <= j < seen@.len() implies (#[trigger] seen@[j] <==> j
                        < labels@.len() && position(labels@, labels@[j]) == Some(j)
                        && out@.contains(labels@[j])) by {
                        if j == k {
                            assert(out@[out0.len() as int] == l);
                        } else {
                            assert(seen@[j] == seen0[j]);
                            if j < labels@.len() && position(labels@, labels@[j]) == Some(j) {
                                assert(labels@[j] != l);
                                if out0.contains(labels@[j]) {
                                    let p = choose|p: int|
                                        0 <= p < out0.len() && out0[p] == labels@[j];
                                    assert(out@[p] == labels@[j]);
                                }
                                if out@.contains(labels@[j]) {
                                    let p = choose|p: int|
                                        0 <= p < out@.len() && out@[p] == labels@[j];
                                    assert(out0[p] == labels@[j]);
                                }
                            }
                        }
                    }
                }
            }
            m += 1;
        }
        assert(list@.take(m as int) =~= list@);
    }

    /// The contraction order of the subtree `t` at the node `i`, and the labels
    /// that it passes up.
    fn build_nested<L: Label>(
        &self,
        i: usize,
        Ghost(t): Ghost<Shape>,
        original_ixs: &[Vec<L>],
        iy: &[L],
        labels: &[L],
    ) -> (r: (NestedEinsum<L>, Vec<L>))
        requires
            self.wf(),
            i < self@.nnodes(),
            t == self@.shape().at(i as int),
            t.leaves_below(original_ixs@.len() as int),
            exportable(t, label_lists(original_ixs@), labels@, self.net.nlabels as int),
            i != self.root && t is Node ==> leaves_known(
                t,
                label_lists(original_ixs@),
                labels@,
                self.net.nlabels as int,
            ),
        ensures
            r.0.binary(),
            r.0.model() == exported(
                t,
                self.net@,
                label_lists(original_ixs@),
                labels@,
                if i == self.root {
                    Some(iy@)
                } else {
                    None
                },
            ),
            r.1@ == if i == self.root && t is Node {
                iy@
            } else {
                out_labels(t, self.net@, label_lists(original_ixs@), labels@)
            },
        decreases t,
    {
        let ghost s = self.shape@;
        let ghost net = self.net@;
        let ghost ixs = label_lists(original_ixs@);
        proof {
            assert(s.has(i as int));
            lemma_node(s, i as int, self.left@, self.right@, self.tensoridx@);
        }
        if self.is_leaf(i) {
            let tensor: usize = self.tensoridx[i];
            proof {
                assert(t == Shape::Leaf { id: i as int, tensor: tensor as int });
                assert(ixs[tensor as int] == original_ixs@[tensor as int]@);
            }
            let copy: Vec<L> = copy_labels(original_ixs[tensor].as_slice());
            return (NestedEinsum::leaf(tensor), copy);
        }
        let ghost a = *t->Node_left;
        let ghost b = *t->Node_right;
        proof {
            lemma_has_root(s);
            // No child is the root of the whole tree.
            if a.id() == self.root || b.id() == self.root {
                lemma_has_root(a);
                lemma_has_root(b);
                if i != self.root {
                    crate::state::lemma_root_not_below(s, i as int);
                    assert(t.has(a.id()) && t.has(b.id()));
                }
                assert(false);
            }
            if a is Node {
                assert(leaves_known(a, ixs, labels@, self.net.nlabels as int));
            }
            if b is Node {
                assert(leaves_known(b, ixs, labels@, self.net.nlabels as int));
            }
        }
        let (left_tree, left_out) = self.build_nested(
            self.left[i],
            Ghost(a),
            original_ixs,
            iy,
            labels,
        );
        let (right_tree, right_out) = self.build_nested(
            self.right[i],
            Ghost(b),
            original_ixs,
            iy,
            labels,
        );
        let node_iy: Vec<L> = if i == self.root {
            copy_labels(iy)
        } else {
            let n: usize = self.net.nlabels;
            let mut seen: Vec<bool> = Vec::with_capacity(n);
            let mut k: usize = 0;
            while k < n
                invariant
                    k <= n,
                    seen@.len() == k,
                    forall|j: int| 0 <= j < k ==> !#[trigger] seen@[j],
                decreases n - k,
            {
                seen.push(false);
                k += 1;
            }
            let mut out: Vec<L> = Vec::new();
            proof {
                lemma_out_labels_known(a, net, ixs, labels@, n as int);
                lemma_out_labels_known(b, net, ixs, labels@, n as int);
            }
            self.pass_up(
                i,
                &left_out,
                labels,
                &mut seen,
                &mut out,
                Ghost(Seq::<L>::empty()),
            );
            assert(Seq::<L>::empty() + left_out@ =~= left_out@);
            self.pass_up(i, &right_out, labels, &mut seen, &mut out, Ghost(left_out@));
            out
        };
        let ghost lo = left_out@;
        let ghost ro = right_out@;
        let copy: Vec<L> = copy_labels(node_iy.as_slice());
        let mut inputs: Vec<Vec<L>> = Vec::new();
        inputs.push(left_out);
        inputs.push(right_out);
        let mut args: Vec<NestedEinsum<L>> = Vec::new();
        args.push(left_tree);
        args.push(right_tree);
        assert(label_lists(inputs@) =~= seq![lo, ro]);
        let nested = NestedEinsum::node(args, EinCode::new(inputs, copy));
        assert(args@[0] == left_tree && args@[1] == right_tree);
        (nested, node_iy)
    }

    /// Exports the tree as a contraction order with its einsums made anew. What
    /// an argument gives its einsum takes verbatim; the root gives `iy`.
    ///
    /// * `original_ixs`: the labels of each tensor.
    /// * `iy`: the output labels.
    /// * `inverse_map`: the label of each number.
    pub fn to_nested<L: Label>(
        &self,
        original_ixs: &[Vec<L>],
        iy: &[L],
        inverse_map: &[L],
    ) -> (r: NestedEinsum<L>)
        requires
            self.wf(),
            self@.shape().leaves_below(original_ixs@.len() as int),
            exportable(
                self@.shape(),
                label_lists(original_ixs@),
                inverse_map@,
                self.net.nlabels as int,
            ),
        ensures
            r.binary(),
            r.model() == exported(
                self@.shape(),
                self.net@,
                label_lists(original_ixs@),
                inverse_map@,
                Some(iy@),
            ),
    {
        proof {
            lemma_has_root(self.shape@);
        }
        self.build_nested(self.root, Ghost(self.shape@), original_ixs, iy, inverse_map).0
    }
}

} // verus!
