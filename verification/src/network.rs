//! The tensor network that a contraction tree is priced against.

use crate::ratio::Ratio;
use vstd::prelude::*;

verus! {

/// The network as a mathematical value. Labels are `0..sizes.len()`, tensors
/// are `0..ixs.len()`.
pub struct Net {
    /// The labels of each tensor.
    pub ixs: Seq<Seq<usize>>,
    /// Whether a label belongs to the final output.
    pub outputs: Seq<bool>,
    /// The dimension of each label.
    pub sizes: Seq<usize>,
    /// Whether a tensor is structurally complex.
    pub complex: Seq<bool>,
    /// What one unit of volume costs in a pass step.
    pub pass: nat,
    /// What one unit of volume costs in a ride step.
    pub ride: nat,
    /// What one unit of volume costs in a merge step.
    pub merge: nat,
}

/// How often the label `l` occurs in the list `ix`.
pub open spec fn occurrences(ix: Seq<usize>, l: int) -> nat
    decreases ix.len(),
{
    if ix.len() == 0 {
        0
    } else {
        occurrences(ix.drop_last(), l) + if ix.last() == l {
            1nat
        } else {
            0nat
        }
    }
}

/// How often the label `l` occurs in all the lists `ixs` together.
pub open spec fn degree(ixs: Seq<Seq<usize>>, l: int) -> nat
    decreases ixs.len(),
{
    if ixs.len() == 0 {
        0
    } else {
        degree(ixs.drop_last(), l) + occurrences(ixs.last(), l)
    }
}

/// Whether every label of every list lies below `n`.
pub open spec fn labels_below(ixs: Seq<Seq<usize>>, n: int) -> bool {
    forall|t: int, k: int| 0 <= t < ixs.len() && 0 <= k < ixs[t].len() ==> #[trigger] ixs[t][k] < n
}

/// Whether a label is open in a step that joins a subtree holding `ca` of its
/// occurrences with one holding `cb`: it leaves one of the two subtrees, or it
/// belongs to the output and occurs in one of them.
pub open spec fn open_in_step(ca: int, cb: int, tot: int, output: bool) -> bool {
    ||| 0 < ca < tot
    ||| 0 < cb < tot
    ||| output && (ca > 0 || cb > 0)
}

/// Whether a label is open at a subtree that holds `c` of its occurrences: it
/// occurs there, and elsewhere or in the output.
pub open spec fn open_at_subtree(c: int, tot: int, output: bool) -> bool {
    c > 0 && (c < tot || output)
}

/// The three kinds of contraction step.
#[derive(Debug, Clone, Copy, PartialEq, Eq, Structural)]
pub enum StepKind {
    /// Both children are real.
    Pass,
    /// One child is green.
    Ride,
    /// Both children are green.
    Merge,
}

/// The kind of a step by the greenness of its children.
pub open spec fn step_kind(ga: bool, gb: bool) -> StepKind {
    if ga && gb {
        StepKind::Merge
    } else if ga || gb {
        StepKind::Ride
    } else {
        StepKind::Pass
    }
}

impl Net {
    /// The number of labels.
    pub open spec fn nlabels(self) -> int {
        self.sizes.len() as int
    }

    /// The number of occurrences of the label `l` in the whole network.
    pub open spec fn total(self, l: int) -> nat {
        degree(self.ixs, l)
    }

    /// What one unit of volume costs in a step of the kind `k`.
    pub open spec fn weight(self, k: StepKind) -> nat {
        match k {
            StepKind::Pass => self.pass,
            StepKind::Ride => self.ride,
            StepKind::Merge => self.merge,
        }
    }

    /// What the label `l` contributes to the volume of a step: its dimension
    /// where it is open, else one.
    pub open spec fn contribution(self, ca: int, cb: int, l: int) -> nat {
        if open_in_step(ca, cb, self.total(l) as int, self.outputs[l]) {
            self.sizes[l] as nat
        } else {
            1
        }
    }

    /// The product of the dimensions of those of the first `n` labels that are
    /// open in a step. The children hold `ca[l]` and `cb[l]` occurrences.
    pub open spec fn open_volume(self, ca: Seq<int>, cb: Seq<int>, n: int) -> nat
        decreases n,
    {
        if n <= 0 {
            1
        } else {
            self.open_volume(ca, cb, n - 1) * self.contribution(ca[n - 1], cb[n - 1], n - 1)
        }
    }

    /// Whether no dimension and no weight is zero.
    pub open spec fn positive(self) -> bool {
        &&& forall|l: int| 0 <= l < self.nlabels() ==> #[trigger] self.sizes[l] > 0
        &&& self.pass > 0
        &&& self.ride > 0
        &&& self.merge > 0
    }

    /// The lists agree in length, every label is known, and every label's
    /// number of occurrences fits the counters.
    pub open spec fn wf(self) -> bool {
        &&& self.outputs.len() == self.sizes.len()
        &&& self.complex.len() == self.ixs.len()
        &&& labels_below(self.ixs, self.nlabels())
        &&& forall|l: int| 0 <= l < self.nlabels() ==> #[trigger] self.total(l) <= i16::MAX
    }
}

/// Lists of numbers by their views.
pub open spec fn deep(v: Seq<Vec<usize>>) -> Seq<Seq<usize>> {
    Seq::new(v.len(), |i: int| v[i]@)
}

/// A tensor network with its cost factors.
///
/// A step costs its volume times a factor: one for a pass, `ride_factor` for a
/// ride, `merge_factor` for a merge. Costs are counted in units of one over the
/// product of the two factors' denominators, so that they stay whole numbers;
/// with whole factors that unit is one.
#[derive(Debug)]
pub struct Network {
    /// The number of labels.
    pub nlabels: usize,
    /// The labels of each tensor.
    pub ixs: Vec<Vec<usize>>,
    /// The occurrences of each label over all tensors.
    pub total: Vec<i16>,
    /// Whether a label belongs to the final output.
    pub is_output: Vec<bool>,
    /// The dimension of each label.
    pub sizes: Vec<usize>,
    /// Whether a tensor is structurally complex.
    pub is_complex: Vec<bool>,
    /// The cost factor of a step with two green children.
    pub merge_factor: Ratio,
    /// The cost factor of a step with one green child.
    pub ride_factor: Ratio,
}

impl View for Network {
    type V = Net;

    open spec fn view(&self) -> Net {
        Net {
            ixs: deep(self.ixs@),
            outputs: self.is_output@,
            sizes: self.sizes@,
            complex: self.is_complex@,
            pass: (self.merge_factor.den * self.ride_factor.den) as nat,
            ride: (self.ride_factor.num * self.merge_factor.den) as nat,
            merge: (self.merge_factor.num * self.ride_factor.den) as nat,
        }
    }
}

proof fn lemma_occurrences_take(ix: Seq<usize>, k: int, l: int)
    requires
        0 <= k < ix.len(),
    ensures
        occurrences(ix.take(k + 1), l) == occurrences(ix.take(k), l) + if ix[k] == l {
            1nat
        } else {
            0nat
        },
{
    assert(ix.take(k + 1).drop_last() =~= ix.take(k));
}

proof fn lemma_occurrences_grow(ix: Seq<usize>, k: int, l: int)
    requires
        0 <= k <= ix.len(),
    ensures
        occurrences(ix.take(k), l) <= occurrences(ix, l),
    decreases ix.len() - k,
{
    if k == ix.len() {
        assert(ix.take(k) =~= ix);
    } else {
        lemma_occurrences_take(ix, k, l);
        lemma_occurrences_grow(ix, k + 1, l);
    }
}

proof fn lemma_degree_take(ixs: Seq<Seq<usize>>, t: int, l: int)
    requires
        0 <= t < ixs.len(),
    ensures
        degree(ixs.take(t + 1), l) == degree(ixs.take(t), l) + occurrences(ixs[t], l),
{
    assert(ixs.take(t + 1).drop_last() =~= ixs.take(t));
}

proof fn lemma_degree_grow(ixs: Seq<Seq<usize>>, t: int, l: int)
    requires
        0 <= t <= ixs.len(),
    ensures
        degree(ixs.take(t), l) <= degree(ixs, l),
    decreases ixs.len() - t,
{
    if t == ixs.len() {
        assert(ixs.take(t) =~= ixs);
    } else {
        lemma_degree_take(ixs, t, l);
        lemma_degree_grow(ixs, t + 1, l);
    }
}

/// Adds the occurrences in `ix` to the counters `counts`.
pub fn count_labels(counts: &mut Vec<i16>, ix: &Vec<usize>)
    requires
        forall|k: int| 0 <= k < ix@.len() ==> #[trigger] ix@[k] < old(counts)@.len(),
        forall|l: int|
            0 <= l < old(counts)@.len() ==> #[trigger] old(counts)@[l] + occurrences(ix@, l)
                <= i16::MAX,
    ensures
        final(counts)@.len() == old(counts)@.len(),
        forall|l: int|
            0 <= l < old(counts)@.len() ==> #[trigger] final(counts)@[l] == old(counts)@[l]
                + occurrences(ix@, l),
{
    let ghost before = counts@;
    let mut k: usize = 0;
    while k < ix.len()
        invariant
            k <= ix@.len(),
            counts@.len() == before.len(),
            forall|j: int| 0 <= j < ix@.len() ==> #[trigger] ix@[j] < before.len(),
            forall|l: int|
                0 <= l < before.len() ==> #[trigger] before[l] + occurrences(ix@, l) <= i16::MAX,
            forall|l: int|
                0 <= l < before.len() ==> #[trigger] counts@[l] == before[l] + occurrences(
                    ix@.take(k as int),
                    l,
                ),
        decreases ix@.len() - k,
    {
        let l: usize = ix[k];
        proof {
            lemma_occurrences_take(ix@, k as int, l as int);
            lemma_occurrences_grow(ix@, k + 1, l as int);
            assert(before[l as int] + occurrences(ix@, l as int) <= i16::MAX);
        }
        let c: i16 = counts[l];
        counts.set(l, c + 1);
        proof {
            assert forall|m: int| 0 <= m < before.len() implies #[trigger] counts@[m] == before[m]
                + occurrences(ix@.take(k + 1), m) by {
                lemma_occurrences_take(ix@, k as int, m);
            }
        }
        k += 1;
    }
    assert(ix@.take(k as int) =~= ix@);
}

/// A copy of lists of numbers.
pub fn copy_lists(v: &Vec<Vec<usize>>) -> (r: Vec<Vec<usize>>)
    ensures
        deep(r@) == deep(v@),
{
    let mut r: Vec<Vec<usize>> = Vec::with_capacity(v.len());
    let mut i: usize = 0;
    while i < v.len()
        invariant
            i <= v@.len(),
            r@.len() == i,
            forall|j: int| 0 <= j < i ==> (#[trigger] r@[j])@ == v@[j]@,
        decreases v@.len() - i,
    {
        let list: Vec<usize> = v[i].clone();
        assert(list@ =~= v@[i as int]@);
        r.push(list);
        i += 1;
    }
    assert(deep(r@) =~= deep(v@));
    r
}

impl Clone for Network {
    fn clone(&self) -> (r: Network)
        ensures
            r@ == self@,
            r.nlabels == self.nlabels,
            r.total@ == self.total@,
            r.merge_factor == self.merge_factor,
            r.ride_factor == self.ride_factor,
    {
        let ixs = copy_lists(&self.ixs);
        let total = self.total.clone();
        let is_output = self.is_output.clone();
        let sizes = self.sizes.clone();
        let is_complex = self.is_complex.clone();
        assert(total@ =~= self.total@);
        assert(is_output@ =~= self.is_output@);
        assert(sizes@ =~= self.sizes@);
        assert(is_complex@ =~= self.is_complex@);
        Network {
            nlabels: self.nlabels,
            ixs,
            total,
            is_output,
            sizes,
            is_complex,
            merge_factor: self.merge_factor,
            ride_factor: self.ride_factor,
        }
    }
}

impl Network {
    /// The factors are fractions, and the stored totals are the numbers of
    /// occurrences.
    pub open spec fn wf(&self) -> bool {
        &&& self@.wf()
        &&& self.merge_factor.den > 0
        &&& self.ride_factor.den > 0
        &&& self.nlabels == self.sizes@.len()
        &&& self.total@.len() == self.sizes@.len()
        &&& forall|l: int| 0 <= l < self.nlabels ==> #[trigger] self.total@[l] == self@.total(l)
    }

    /// A network from the labels of its tensors (`ixs`), its output labels
    /// (`iy`), the dimension of every label, the structural complexity of every
    /// tensor and the two cost factors.
    pub fn new(
        ixs: Vec<Vec<usize>>,
        iy: Vec<usize>,
        sizes: Vec<usize>,
        is_complex: Vec<bool>,
        merge_factor: Ratio,
        ride_factor: Ratio,
    ) -> (r: Network)
        requires
            ixs@.len() == is_complex@.len(),
            labels_below(deep(ixs@), sizes@.len() as int),
            forall|k: int| 0 <= k < iy@.len() ==> #[trigger] iy@[k] < sizes@.len(),
            forall|l: int| 0 <= l < sizes@.len() ==> #[trigger] degree(deep(ixs@), l) <= i16::MAX,
            merge_factor.den > 0,
            ride_factor.den > 0,
        ensures
            r.wf(),
            r.ixs == ixs,
            r.sizes == sizes,
            r.is_complex == is_complex,
            r.merge_factor == merge_factor,
            r.ride_factor == ride_factor,
            forall|l: int| 0 <= l < sizes@.len() ==> #[trigger] r.is_output@[l] == iy@.contains(
                l as usize,
            ),
    {
        let nlabels: usize = sizes.len();
        let ghost net_ixs = deep(ixs@);
        let mut total: Vec<i16> = Vec::new();
        let mut is_output: Vec<bool> = Vec::new();
        let mut l: usize = 0;
        while l < nlabels
            invariant
                l <= nlabels,
                total@ == Seq::new(l as nat, |j: int| 0i16),
                is_output@ == Seq::new(l as nat, |j: int| false),
            decreases nlabels - l,
        {
            total.push(0);
            is_output.push(false);
            l += 1;
            assert(total@ =~= Seq::new(l as nat, |j: int| 0i16));
            assert(is_output@ =~= Seq::new(l as nat, |j: int| false));
        }
        let mut t: usize = 0;
        assert(net_ixs.take(0) =~= Seq::<Seq<usize>>::empty());
        while t < ixs.len()
            invariant
                t <= ixs@.len(),
                net_ixs == deep(ixs@),
                nlabels == sizes@.len(),
                total@.len() == nlabels,
                labels_below(net_ixs, nlabels as int),
                forall|l: int| 0 <= l < sizes@.len() ==> #[trigger] degree(net_ixs, l) <= i16::MAX,
                forall|l: int|
                    0 <= l < nlabels ==> #[trigger] total@[l] == degree(net_ixs.take(t as int), l),
            decreases ixs@.len() - t,
        {
            let ghost before = total@;
            proof {
                assert(net_ixs[t as int] == ixs@[t as int]@);
                assert forall|k: int| 0 <= k < ixs@[t as int]@.len() implies #[trigger] ixs@[t as int]@[k]
                    < total@.len() by {
                    assert(net_ixs[t as int][k] < nlabels);
                }
                assert forall|l: int| 0 <= l < total@.len() implies #[trigger] total@[l]
                    + occurrences(ixs@[t as int]@, l) <= i16::MAX by {
                    lemma_degree_take(net_ixs, t as int, l);
                    lemma_degree_grow(net_ixs, t + 1, l);
                    assert(degree(net_ixs, l) <= i16::MAX);
                }
            }
            count_labels(&mut total, &ixs[t]);
            proof {
                assert forall|l: int| 0 <= l < nlabels implies #[trigger] total@[l] == degree(
                    net_ixs.take(t + 1),
                    l,
                ) by {
                    lemma_degree_take(net_ixs, t as int, l);
                    assert(total@[l] == before[l] + occurrences(ixs@[t as int]@, l));
                }
            }
            t += 1;
        }
        assert(net_ixs.take(t as int) =~= net_ixs);
        let mut k: usize = 0;
        while k < iy.len()
            invariant
                k <= iy@.len(),
                nlabels == sizes@.len(),
                is_output@.len() == nlabels,
                forall|k: int| 0 <= k < iy@.len() ==> #[trigger] iy@[k] < sizes@.len(),
                forall|l: int|
                    0 <= l < nlabels ==> #[trigger] is_output@[l] == iy@.take(k as int).contains(
                        l as usize,
                    ),
            decreases iy@.len() - k,
        {
            let ghost before = is_output@;
            is_output.set(iy[k], true);
            proof {
                assert(iy@.take(k + 1) =~= iy@.take(k as int).push(iy@[k as int]));
                assert forall|l: int| 0 <= l < nlabels implies #[trigger] is_output@[l] == iy@.take(
                    k + 1,
                ).contains(l as usize) by {
                    let s = iy@.take(k as int);
                    let x = iy@[k as int];
                    if l == x {
                        assert(s.push(x)[k as int] == x);
                    } else {
                        assert(before[l] == s.contains(l as usize));
                        if s.contains(l as usize) {
                            let j = choose|j: int| 0 <= j < s.len() && s[j] == l as usize;
                            assert(s.push(x)[j] == l as usize);
                        }
                    }
                }
            }
            k += 1;
        }
        assert(iy@.take(k as int) =~= iy@);
        let r = Network {
            nlabels,
            ixs,
            total,
            is_output,
            sizes,
            is_complex,
            merge_factor,
            ride_factor,
        };
        proof {
            assert forall|l: int| 0 <= l < r@.nlabels() implies #[trigger] r@.total(l)
                <= i16::MAX by {
                assert(degree(net_ixs, l) <= i16::MAX);
            }
        }
        r
    }

    /// What one unit of volume costs in a step of the given kind.
    pub fn weight(&self, kind: StepKind) -> (r: u64)
        ensures
            r == self@.weight(kind),
    {
        let (a, b): (u32, u32) = match kind {
            StepKind::Pass => (self.merge_factor.den, self.ride_factor.den),
            StepKind::Ride => (self.ride_factor.num, self.merge_factor.den),
            StepKind::Merge => (self.merge_factor.num, self.ride_factor.den),
        };
        assert(0 <= a as int * b as int <= 0xffff_ffff * 0xffff_ffff) by (nonlinear_arith)
            requires
                0 <= a <= 0xffff_ffff,
                0 <= b <= 0xffff_ffff,
        ;
        (a as u64) * (b as u64)
    }
}

} // verus!
