//! Building a flat tree from a contraction order.

use crate::nested::{lemma_preorder, lemma_preorder_leaves, NestedEinsum};
use crate::network::{deep, degree, labels_below, Network};
use crate::ratio::Ratio;
use crate::state::{encodes, lemma_encodes_frame, lemma_parented_frame, parented, spans, NONE};
use crate::tree::GreenTree;
use vstd::prelude::*;

verus! {

impl GreenTree {
    /// Appends the nodes of `x` in pre-order: a node comes before its children.
    fn push_subtree<L>(&mut self, x: &NestedEinsum<L>) -> (me: usize)
        requires
            x.binary(),
            old(self).right@.len() == old(self).left@.len(),
            old(self).parent@.len() == old(self).left@.len(),
            old(self).tensoridx@.len() == old(self).left@.len(),
        ensures
            me == old(self).left@.len(),
            final(self).left@.len() == old(self).left@.len() + x.size(),
            final(self).right@.len() == final(self).left@.len(),
            final(self).parent@.len() == final(self).left@.len(),
            final(self).tensoridx@.len() == final(self).left@.len(),
            final(self).left@.take(me as int) == old(self).left@,
            final(self).right@.take(me as int) == old(self).right@,
            final(self).parent@.take(me as int) == old(self).parent@,
            final(self).tensoridx@.take(me as int) == old(self).tensoridx@,
            encodes(
                x.preorder(me as int),
                final(self).left@,
                final(self).right@,
                final(self).tensoridx@,
            ),
            parented(x.preorder(me as int), final(self).parent@),
            final(self).parent@[me as int] == NONE,
            final(self).counts == old(self).counts,
            final(self).green == old(self).green,
            final(self).stepcost == old(self).stepcost,
            final(self).realcost == old(self).realcost,
            final(self).net == old(self).net,
        decreases x,
    {
        let me: usize = self.left.len();
        self.left.push(NONE);
        self.right.push(NONE);
        self.parent.push(NONE);
        self.tensoridx.push(NONE);
        match x {
            NestedEinsum::Leaf { tensor_index } => {
                self.tensoridx.set(me, *tensor_index);
                proof {
                    assert(self.left@.take(me as int) =~= old(self).left@);
                    assert(self.right@.take(me as int) =~= old(self).right@);
                    assert(self.parent@.take(me as int) =~= old(self).parent@);
                    assert(self.tensoridx@.take(me as int) =~= old(self).tensoridx@);
                }
            },
            NestedEinsum::Node { args, .. } => {
                let a: usize = self.push_subtree(&args[0]);
                let ghost first = *self;
                let b: usize = self.push_subtree(&args[1]);
                let ghost second = *self;
                self.left.set(me, a);
                self.right.set(me, b);
                self.parent.set(a, me);
                self.parent.set(b, me);
                proof {
                    let sa = args@[0].preorder(me + 1);
                    let sb = args@[1].preorder(me + 1 + args@[0].size());
                    lemma_preorder(args@[0], me + 1);
                    lemma_preorder(args@[1], me + 1 + args@[0].size());
                    assert forall|i: int| 0 <= i < b implies #[trigger] second.left@[i]
                        == first.left@[i] && second.right@[i] == first.right@[i]
                        && second.parent@[i] == first.parent@[i] && second.tensoridx@[i]
                        == first.tensoridx@[i] by {
                        assert(second.left@.take(b as int)[i] == first.left@[i]);
                        assert(second.right@.take(b as int)[i] == first.right@[i]);
                        assert(second.parent@.take(b as int)[i] == first.parent@[i]);
                        assert(second.tensoridx@.take(b as int)[i] == first.tensoridx@[i]);
                    }
                    assert forall|i: int| 0 <= i < me implies #[trigger] first.left@[i]
                        == old(self).left@[i] && first.right@[i] == old(self).right@[i]
                        && first.parent@[i] == old(self).parent@[i] && first.tensoridx@[i]
                        == old(self).tensoridx@[i] by {
                        assert(first.left@.take(a as int)[i] == old(self).left@.push(NONE)[i]);
                        assert(first.right@.take(a as int)[i] == old(self).right@.push(NONE)[i]);
                        assert(first.parent@.take(a as int)[i] == old(self).parent@.push(NONE)[i]);
                        assert(first.tensoridx@.take(a as int)[i] == old(self).tensoridx@.push(
                            NONE,
                        )[i]);
                    }
                    assert(first.tensoridx@.take(a as int)[me as int] == NONE);
                    assert(first.parent@.take(a as int)[me as int] == NONE);
                    assert(second.tensoridx@[me as int] == NONE) by {
                        assert(second.left@[me as int] == first.left@[me as int]);
                    }
                    assert(second.parent@[me as int] == NONE) by {
                        assert(second.left@[me as int] == first.left@[me as int]);
                    }
                    assert forall|i: int| #[trigger] sa.has(i) implies first.left@[i]
                        == self.left@[i] && first.right@[i] == self.right@[i]
                        && first.tensoridx@[i] == self.tensoridx@[i] by {
                        assert(second.left@[i] == first.left@[i]);
                    }
                    lemma_encodes_frame(
                        sa,
                        first.left@,
                        first.right@,
                        first.tensoridx@,
                        self.left@,
                        self.right@,
                        self.tensoridx@,
                    );
                    lemma_encodes_frame(
                        sb,
                        second.left@,
                        second.right@,
                        second.tensoridx@,
                        self.left@,
                        self.right@,
                        self.tensoridx@,
                    );
                    assert forall|i: int| #[trigger] sa.has(i) && i != sa.id() implies first.parent@[i]
                        == self.parent@[i] by {
                        assert(second.left@[i] == first.left@[i]);
                    }
                    lemma_parented_frame(sa, first.parent@, self.parent@);
                    lemma_parented_frame(sb, second.parent@, self.parent@);
                    assert forall|i: int| 0 <= i < me implies #[trigger] self.left@[i]
                        == old(self).left@[i] && self.right@[i] == old(self).right@[i]
                        && self.parent@[i] == old(self).parent@[i] && self.tensoridx@[i]
                        == old(self).tensoridx@[i] by {
                        assert(second.left@[i] == first.left@[i]);
                        assert(first.left@[i] == old(self).left@[i]);
                    }
                    assert(self.left@.take(me as int) =~= old(self).left@);
                    assert(self.right@.take(me as int) =~= old(self).right@) by {
                        assert forall|i: int| 0 <= i < me implies self.right@[i] == old(
                            self,
                        ).right@[i] by {
                            assert(self.left@[i] == old(self).left@[i]);
                        }
                    }
                    assert(self.parent@.take(me as int) =~= old(self).parent@) by {
                        assert forall|i: int| 0 <= i < me implies self.parent@[i] == old(
                            self,
                        ).parent@[i] by {
                            assert(self.left@[i] == old(self).left@[i]);
                        }
                    }
                    assert(self.tensoridx@.take(me as int) =~= old(self).tensoridx@) by {
                        assert forall|i: int| 0 <= i < me implies self.tensoridx@[i] == old(
                            self,
                        ).tensoridx@[i] by {
                            assert(self.left@[i] == old(self).left@[i]);
                        }
                    }
                }
            },
        }
        me
    }

    /// A flat tree from a binary contraction order. Only the structure of the
    /// order counts; its einsums are made anew on export.
    ///
    /// * `ixs`: the labels of each tensor, as numbers.
    /// * `iy`: the output labels, as numbers.
    /// * `sizes`: the dimension of each label.
    /// * `is_complex`: whether each tensor is structurally complex.
    /// * `merge_factor`, `ride_factor`: the cost factors.
    pub fn from_nested<L>(
        nested: &NestedEinsum<L>,
        ixs: Vec<Vec<usize>>,
        iy: Vec<usize>,
        sizes: Vec<usize>,
        is_complex: Vec<bool>,
        merge_factor: Ratio,
        ride_factor: Ratio,
    ) -> (r: GreenTree)
        requires
            nested.binary(),
            nested.tensors_below(ixs@.len() as int),
            ixs@.len() == is_complex@.len(),
            labels_below(deep(ixs@), sizes@.len() as int),
            forall|k: int| 0 <= k < iy@.len() ==> #[trigger] iy@[k] < sizes@.len(),
            forall|l: int| 0 <= l < sizes@.len() ==> #[trigger] degree(deep(ixs@), l) <= i16::MAX,
            forall|l: int|
                0 <= l < sizes@.len() ==> #[trigger] nested.label_count(deep(ixs@), l) <= i16::MAX,
            merge_factor.den > 0,
            ride_factor.den > 0,
        ensures
            r.wf(),
            r@.shape() == nested.preorder(0),
            r.net.ixs == ixs,
            r.net.sizes == sizes,
            r.net.is_complex == is_complex,
            r.net.merge_factor == merge_factor,
            r.net.ride_factor == ride_factor,
            forall|l: int| 0 <= l < sizes@.len() ==> #[trigger] r.net.is_output@[l] == iy@.contains(
                l as usize,
            ),
    {
        let net = Network::new(ixs, iy, sizes, is_complex, merge_factor, ride_factor);
        let mut tree = GreenTree {
            left: Vec::new(),
            right: Vec::new(),
            parent: Vec::new(),
            tensoridx: Vec::new(),
            counts: Vec::new(),
            green: Vec::new(),
            stepcost: Vec::new(),
            realcost: Vec::new(),
            root: NONE,
            net,
            shape: Ghost(nested.preorder(0)),
        };
        let root: usize = tree.push_subtree(nested);
        tree.root = root;
        tree.shape = Ghost(nested.preorder(0));
        let n: usize = tree.left.len();
        proof {
            lemma_preorder(*nested, 0);
            lemma_preorder_leaves(*nested, 0, net@);
            let s = nested.preorder(0);
            assert(spans(s, n as int));
            assert(s.leaves_below(net@.ixs.len() as int));
            assert forall|l: int| 0 <= l < net@.nlabels() implies #[trigger] s.count(net@, l)
                <= i16::MAX by {
                assert(nested.label_count(deep(ixs@), l) <= i16::MAX);
            }
        }
        tree.recompute_from_structure();
        tree
    }
}

} // verus!
