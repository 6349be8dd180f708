//! Numbering the labels of an einsum.

use crate::nested::{label_lists, EinCode, Label, NestedEinsum};
use crate::network::{deep, degree, labels_below, occurrences};
use vstd::prelude::*;

verus! {

/// Where the label `l` stands in `labels`; where it stands more than once, its
/// last place.
pub open spec fn position<L>(labels: Seq<L>, l: L) -> Option<int>
    decreases labels.len(),
{
    if labels.len() == 0 {
        None
    } else if labels.last() == l {
        Some(labels.len() - 1)
    } else {
        position(labels.drop_last(), l)
    }
}

/// A found place holds the label; a label that is there is found.
pub proof fn lemma_position<L>(labels: Seq<L>, l: L)
    ensures
        match position(labels, l) {
            Some(k) => 0 <= k < labels.len() && labels[k] == l && forall|j: int|
                k < j < labels.len() ==> #[trigger] labels[j] != l,
            None => forall|j: int| 0 <= j < labels.len() ==> #[trigger] labels[j] != l,
        },
        labels.contains(l) == (position(labels, l) is Some),
    decreases labels.len(),
{
    if labels.len() > 0 && labels.last() != l {
        lemma_position(labels.drop_last(), l);
        let p = position(labels, l);
        assert forall|j: int|
            (p matches Some(k) ==> k < j) && 0 <= j < labels.len() implies #[trigger] labels[j]
            != l by {
            if j < labels.len() - 1 {
                assert(labels.drop_last()[j] == labels[j]);
            }
        }
        if p is Some {
            assert(labels.drop_last()[p->0] == labels[p->0]);
        }
    }
}

/// Finds where the label `l` stands in `labels`, last place first.
pub fn find<L: Label>(labels: &[L], l: &L) -> (r: Option<usize>)
    ensures
        match r {
            Some(k) => position(labels@, *l) == Some(k as int),
            None => position(labels@, *l) is None,
        },
{
    let mut i: usize = labels.len();
    assert(labels@.take(i as int) =~= labels@);
    while i > 0
        invariant
            i <= labels@.len(),
            position(labels@, *l) == position(labels@.take(i as int), *l),
        decreases i,
    {
        proof {
            assert(labels@.take(i as int).drop_last() =~= labels@.take(i - 1));
        }
        if labels[i - 1].same(l) {
            return Some(i - 1);
        }
        i -= 1;
    }
    None
}

/// A copy of a list of labels.
pub fn copy_labels<L: Label>(v: &[L]) -> (r: Vec<L>)
    ensures
        r@ == v@,
{
    let mut r: Vec<L> = Vec::with_capacity(v.len());
    let mut k: usize = 0;
    while k < v.len()
        invariant
            k <= v@.len(),
            r@ == v@.take(k as int),
        decreases v@.len() - k,
    {
        r.push(v[k].duplicate());
        k += 1;
        assert(r@ =~= v@.take(k as int));
    }
    assert(v@.take(k as int) =~= v@);
    r
}

/// The labels of `s` without repetition, in the order of their first
/// occurrence.
pub open spec fn without_repeats<L>(s: Seq<L>) -> Seq<L>
    decreases s.len(),
{
    if s.len() == 0 {
        s
    } else {
        let r = without_repeats(s.drop_last());
        if r.contains(s.last()) {
            r
        } else {
            r.push(s.last())
        }
    }
}

/// The labels of the einsum, without repetition: those of the inputs one after
/// the other, then those of the output.
pub open spec fn labels_of<L>(code: EinCode<L>) -> Seq<L> {
    without_repeats(label_lists(code.ixs@).flatten() + code.iy@)
}

/// Leaving out repeats keeps what is there.
pub proof fn lemma_without_repeats<L>(s: Seq<L>)
    ensures
        without_repeats(s).no_duplicates(),
        forall|l: L| #[trigger] without_repeats(s).contains(l) <==> s.contains(l),
    decreases s.len(),
{
    if s.len() > 0 {
        let t = s.drop_last();
        let r = without_repeats(t);
        lemma_without_repeats(t);
        assert forall|l: L| #[trigger] without_repeats(s).contains(l) <==> s.contains(l) by {
            lemma_contains_split(s, l);
            if !r.contains(s.last()) {
                assert(r.push(s.last()).drop_last() =~= r);
                lemma_contains_split(r.push(s.last()), l);
            }
        }
    }
}

/// What a list holds is in its front or its last entry.
pub proof fn lemma_contains_split<L>(s: Seq<L>, l: L)
    requires
        s.len() > 0,
    ensures
        s.contains(l) <==> s.drop_last().contains(l) || s.last() == l,
{
    let t = s.drop_last();
    if s.contains(l) {
        let j = choose|j: int| 0 <= j < s.len() && s[j] == l;
        if j < t.len() {
            assert(t[j] == l);
        }
    }
    if t.contains(l) {
        let j = choose|j: int| 0 <= j < t.len() && t[j] == l;
        assert(s[j] == l);
    }
}

/// What a joined list holds is in one of its parts.
pub proof fn lemma_contains_add<L>(a: Seq<L>, b: Seq<L>, l: L)
    ensures
        (a + b).contains(l) <==> a.contains(l) || b.contains(l),
{
    if a.contains(l) {
        let j = choose|j: int| 0 <= j < a.len() && a[j] == l;
        assert((a + b)[j] == l);
    }
    if b.contains(l) {
        let j = choose|j: int| 0 <= j < b.len() && b[j] == l;
        assert((a + b)[a.len() + j] == l);
    }
    if (a + b).contains(l) {
        let j = choose|j: int| 0 <= j < (a + b).len() && (a + b)[j] == l;
        if j < a.len() {
            assert(a[j] == l);
        } else {
            assert(b[j - a.len()] == l);
        }
    }
}

/// Flattening one list more appends it.
pub proof fn lemma_flatten_take<L>(s: Seq<Seq<L>>, t: int)
    requires
        0 <= t < s.len(),
    ensures
        s.take(t + 1).flatten() == s.take(t).flatten() + s[t],
{
    assert(s.take(t + 1) =~= s.take(t).push(s[t]));
    assert(s.take(t).push(s[t]).drop_last() =~= s.take(t));
    s.take(t).push(s[t]).lemma_flatten_and_flatten_alt_are_equivalent();
    s.take(t).lemma_flatten_and_flatten_alt_are_equivalent();
}

/// The labels of an input list or of the output are labels of the einsum.
pub proof fn lemma_labels_of<L>(code: EinCode<L>)
    ensures
        labels_of(code).no_duplicates(),
        forall|t: int, k: int|
            0 <= t < code.ixs@.len() && 0 <= k < code.ixs@[t]@.len() ==> labels_of(code).contains(
                #[trigger] code.ixs@[t]@[k],
            ),
        forall|k: int|
            0 <= k < code.iy@.len() ==> labels_of(code).contains(#[trigger] code.iy@[k]),
{
    let lists = label_lists(code.ixs@);
    let all = lists.flatten() + code.iy@;
    lemma_without_repeats(all);
    assert forall|t: int, k: int|
        0 <= t < code.ixs@.len() && 0 <= k < code.ixs@[t]@.len() implies labels_of(code).contains(
        #[trigger] code.ixs@[t]@[k],
    ) by {
        let l = code.ixs@[t]@[k];
        assert(lists[t][k] == l);
        lemma_flatten_contains(lists, t, k);
        let j = choose|j: int| 0 <= j < lists.flatten().len() && lists.flatten()[j] == l;
        assert(all[j] == l);
        assert(all.contains(l));
    }
    assert forall|k: int| 0 <= k < code.iy@.len() implies labels_of(code).contains(
        #[trigger] code.iy@[k],
    ) by {
        assert(all[lists.flatten().len() + k] == code.iy@[k]);
        assert(all.contains(code.iy@[k]));
    }
}

proof fn lemma_flatten_contains<L>(s: Seq<Seq<L>>, t: int, k: int)
    requires
        0 <= t < s.len(),
        0 <= k < s[t].len(),
    ensures
        s.flatten().contains(s[t][k]),
    decreases s.len(),
{
    let n = s.len() - 1;
    assert(s.take(n + 1) =~= s);
    lemma_flatten_take(s, n);
    let f = s.take(n).flatten();
    if t == n {
        assert(s.flatten()[f.len() + k] == s[t][k]);
    } else {
        lemma_flatten_contains(s.take(n), t, k);
        let j = choose|j: int| 0 <= j < f.len() && f[j] == s.take(n)[t][k];
        assert(s.flatten()[j] == s[t][k]);
    }
}

/// Appends the labels of `v` that are new.
fn collect_labels<L: Label>(labels: &mut Vec<L>, v: &[L], Ghost(seen): Ghost<Seq<L>>)
    requires
        old(labels)@ == without_repeats(seen),
    ensures
        final(labels)@ == without_repeats(seen + v@),
{
    let mut k: usize = 0;
    assert(seen + v@.take(0) =~= seen);
    while k < v.len()
        invariant
            k <= v@.len(),
            labels@ == without_repeats(seen + v@.take(k as int)),
        decreases v@.len() - k,
    {
        proof {
            let s = seen + v@.take(k + 1);
            assert(s.drop_last() =~= seen + v@.take(k as int));
            assert(s.last() == v@[k as int]);
            lemma_position(labels@, v@[k as int]);
        }
        if find(labels.as_slice(), &v[k]).is_none() {
            labels.push(v[k].duplicate());
        }
        k += 1;
    }
    assert(v@.take(k as int) =~= v@);
}

/// Numbers the labels of the einsum: each has its place in the result.
pub fn build_label_map<L: Label>(code: &EinCode<L>) -> (r: Vec<L>)
    ensures
        r@ == labels_of(*code),
{
    let mut labels: Vec<L> = Vec::new();
    let ghost lists = label_lists(code.ixs@);
    let mut t: usize = 0;
    proof {
        assert(lists.take(0) =~= Seq::<Seq<L>>::empty());
        assert(lists.take(0).flatten() =~= Seq::<L>::empty());
    }
    while t < code.ixs.len()
        invariant
            t <= code.ixs@.len(),
            lists == label_lists(code.ixs@),
            labels@ == without_repeats(lists.take(t as int).flatten()),
        decreases code.ixs@.len() - t,
    {
        proof {
            lemma_flatten_take(lists, t as int);
        }
        collect_labels(
            &mut labels,
            code.ixs[t].as_slice(),
            Ghost(lists.take(t as int).flatten()),
        );
        t += 1;
    }
    assert(lists.take(t as int) =~= lists);
    collect_labels(&mut labels, code.iy.as_slice(), Ghost(lists.flatten()));
    labels
}

/// The number of a label that is there.
pub open spec fn number<L>(labels: Seq<L>, l: L) -> usize {
    position(labels, l)->0 as usize
}

/// Lists of labels as lists of their numbers.
pub open spec fn numbered<L>(ixs: Seq<Seq<L>>, labels: Seq<L>) -> Seq<Seq<usize>> {
    Seq::new(ixs.len(), |t: int| Seq::new(ixs[t].len(), |k: int| number(labels, ixs[t][k])))
}

/// The numbers of the labels `v`.
pub fn numbers_of<L: Label>(v: &[L], labels: &[L]) -> (r: Vec<usize>)
    requires
        forall|k: int| 0 <= k < v@.len() ==> labels@.contains(#[trigger] v@[k]),
    ensures
        r@ == Seq::new(v@.len(), |k: int| number(labels@, v@[k])),
        forall|k: int| 0 <= k < r@.len() ==> #[trigger] r@[k] < labels@.len(),
{
    let mut r: Vec<usize> = Vec::with_capacity(v.len());
    let mut k: usize = 0;
    while k < v.len()
        invariant
            k <= v@.len(),
            r@ == Seq::new(k as nat, |j: int| number(labels@, v@[j])),
            forall|j: int| 0 <= j < k ==> #[trigger] r@[j] < labels@.len(),
            forall|k: int| 0 <= k < v@.len() ==> labels@.contains(#[trigger] v@[k]),
        decreases v@.len() - k,
    {
        let found: Option<usize> = find(labels, &v[k]);
        proof {
            assert(labels@.contains(v@[k as int]));
            lemma_position(labels@, v@[k as int]);
        }
        r.push(found.unwrap());
        k += 1;
        assert(r@ =~= Seq::new(k as nat, |j: int| number(labels@, v@[j])));
    }
    r
}

/// The lists of labels as lists of their numbers.
pub fn convert_to_int_indices<L: Label>(ixs: &Vec<Vec<L>>, labels: &[L]) -> (r: Vec<Vec<usize>>)
    requires
        forall|t: int, k: int|
            0 <= t < ixs@.len() && 0 <= k < ixs@[t]@.len() ==> labels@.contains(
                #[trigger] ixs@[t]@[k],
            ),
    ensures
        deep(r@) == numbered(label_lists(ixs@), labels@),
        labels_below(deep(r@), labels@.len() as int),
{
    let mut r: Vec<Vec<usize>> = Vec::with_capacity(ixs.len());
    let mut t: usize = 0;
    while t < ixs.len()
        invariant
            t <= ixs@.len(),
            r@.len() == t,
            forall|j: int| 0 <= j < t ==> (#[trigger] r@[j])@ == numbered(
                label_lists(ixs@),
                labels@,
            )[j],
            labels_below(deep(r@), labels@.len() as int),
            forall|t: int, k: int|
                0 <= t < ixs@.len() && 0 <= k < ixs@[t]@.len() ==> labels@.contains(
                    #[trigger] ixs@[t]@[k],
                ),
        decreases ixs@.len() - t,
    {
        let ghost before = r@;
        r.push(numbers_of(ixs[t].as_slice(), labels));
        proof {
            assert(r@[t as int]@ =~= numbered(label_lists(ixs@), labels@)[t as int]);
            assert forall|j: int, k: int|
                0 <= j < deep(r@).len() && 0 <= k < deep(r@)[j].len() implies #[trigger] deep(
                r@,
            )[j][k] < labels@.len() by {
                if j < t {
                    assert(deep(before)[j] == deep(r@)[j]);
                    assert(deep(before)[j][k] < labels@.len());
                }
            }
        }
        t += 1;
    }
    assert(deep(r@) =~= numbered(label_lists(ixs@), labels@));
    r
}

/// How often the label `l` occurs in the list `ix`.
pub open spec fn label_occurrences<L>(ix: Seq<L>, l: L) -> nat
    decreases ix.len(),
{
    if ix.len() == 0 {
        0
    } else {
        label_occurrences(ix.drop_last(), l) + if ix.last() == l {
            1nat
        } else {
            0nat
        }
    }
}

/// How often the label `l` occurs in all the lists `ixs` together.
pub open spec fn label_degree<L>(ixs: Seq<Seq<L>>, l: L) -> nat
    decreases ixs.len(),
{
    if ixs.len() == 0 {
        0
    } else {
        label_degree(ixs.drop_last(), l) + label_occurrences(ixs.last(), l)
    }
}

/// How often the label `l` occurs in the leaves of a binary order over tensors
/// with the labels `ixs`.
pub open spec fn label_uses<L>(x: NestedEinsum<L>, ixs: Seq<Seq<L>>, l: L) -> nat
    decreases x,
{
    match x {
        NestedEinsum::Leaf { tensor_index } => label_occurrences(ixs[tensor_index as int], l),
        NestedEinsum::Node { args, .. } => if args@.len() == 2 {
            label_uses(args@[0], ixs, l) + label_uses(args@[1], ixs, l)
        } else {
            0
        },
    }
}

/// Numbering a list of labels keeps how often each occurs.
pub proof fn lemma_numbered_list<L>(ix: Seq<L>, labels: Seq<L>, k: int)
    requires
        labels.no_duplicates(),
        labels.len() <= usize::MAX,
        0 <= k < labels.len(),
        forall|j: int| 0 <= j < ix.len() ==> labels.contains(#[trigger] ix[j]),
    ensures
        occurrences(Seq::new(ix.len(), |j: int| number(labels, ix[j])), k) == label_occurrences(
            ix,
            labels[k],
        ),
    decreases ix.len(),
{
    let nums = Seq::new(ix.len(), |j: int| number(labels, ix[j]));
    if ix.len() > 0 {
        let t = ix.drop_last();
        assert forall|j: int| 0 <= j < t.len() implies labels.contains(#[trigger] t[j]) by {
            assert(t[j] == ix[j]);
        }
        lemma_numbered_list(t, labels, k);
        assert(nums.drop_last() =~= Seq::new(t.len(), |j: int| number(labels, t[j])));
        assert(labels.contains(ix[ix.len() - 1]));
        lemma_position(labels, ix.last());
        let p = position(labels, ix.last())->0;
        assert(labels[p] == ix.last());
        assert(p == k <==> labels[k] == ix.last());
    }
}

/// Numbering the labels keeps how often each occurs.
pub proof fn lemma_numbered_degree<L>(ixs: Seq<Seq<L>>, labels: Seq<L>, k: int)
    requires
        labels.no_duplicates(),
        labels.len() <= usize::MAX,
        0 <= k < labels.len(),
        forall|t: int, j: int|
            0 <= t < ixs.len() && 0 <= j < ixs[t].len() ==> labels.contains(#[trigger] ixs[t][j]),
    ensures
        degree(numbered(ixs, labels), k) == label_degree(ixs, labels[k]),
    decreases ixs.len(),
{
    if ixs.len() > 0 {
        let t = ixs.drop_last();
        let n = ixs.len() - 1;
        assert forall|i: int, j: int| 0 <= i < t.len() && 0 <= j < t[i].len() implies labels.contains(
            #[trigger] t[i][j],
        ) by {
            assert(t[i][j] == ixs[i][j]);
        }
        lemma_numbered_degree(t, labels, k);
        assert(numbered(ixs, labels).drop_last() =~= numbered(t, labels));
        assert forall|j: int| 0 <= j < ixs[n].len() implies labels.contains(
            #[trigger] ixs[n][j],
        ) by {}
        lemma_numbered_list(ixs[n], labels, k);
    }
}

/// Numbering the labels keeps how often each occurs in the leaves of an order.
pub proof fn lemma_numbered_uses<L>(
    x: NestedEinsum<L>,
    ixs: Seq<Seq<L>>,
    labels: Seq<L>,
    k: int,
)
    requires
        x.binary(),
        x.tensors_below(ixs.len() as int),
        labels.no_duplicates(),
        labels.len() <= usize::MAX,
        0 <= k < labels.len(),
        forall|t: int, j: int|
            0 <= t < ixs.len() && 0 <= j < ixs[t].len() ==> labels.contains(#[trigger] ixs[t][j]),
    ensures
        x.label_count(numbered(ixs, labels), k) == label_uses(x, ixs, labels[k]),
    decreases x,
{
    match x {
        NestedEinsum::Leaf { tensor_index } => {
            let t = tensor_index as int;
            assert forall|j: int| 0 <= j < ixs[t].len() implies labels.contains(
                #[trigger] ixs[t][j],
            ) by {}
            lemma_numbered_list(ixs[t], labels, k);
        },
        NestedEinsum::Node { args, .. } => {
            lemma_numbered_uses(args@[0], ixs, labels, k);
            lemma_numbered_uses(args@[1], ixs, labels, k);
        },
    }
}

/// The dimension of each label.
#[derive(Debug)]
pub struct SizeDict<L> {
    entries: Vec<(L, usize)>,
}

/// The map that results from entering the pairs in order.
pub open spec fn entered<L>(entries: Seq<(L, usize)>) -> Map<L, usize>
    decreases entries.len(),
{
    if entries.len() == 0 {
        Map::empty()
    } else {
        entered(entries.drop_last()).insert(entries.last().0, entries.last().1)
    }
}

impl<L> View for SizeDict<L> {
    type V = Map<L, usize>;

    closed spec fn view(&self) -> Map<L, usize> {
        entered(self.entries@)
    }
}

impl<L: Label> SizeDict<L> {
    /// An empty dictionary.
    pub fn new() -> (r: SizeDict<L>)
        ensures
            r@ == Map::<L, usize>::empty(),
    {
        SizeDict { entries: Vec::new() }
    }

    /// Enters the dimension of a label, in place of an earlier one.
    pub fn insert(&mut self, label: L, size: usize)
        ensures
            final(self)@ == old(self)@.insert(label, size),
    {
        let ghost before = self.entries@;
        self.entries.push((label, size));
        assert(self.entries@.drop_last() =~= before);
    }

    /// The dimension of a label.
    pub fn get(&self, label: &L) -> (r: Option<usize>)
        ensures
            match r {
                Some(size) => self@.dom().contains(*label) && self@[*label] == size,
                None => !self@.dom().contains(*label),
            },
    {
        let mut i: usize = self.entries.len();
        assert(self.entries@.take(i as int) =~= self.entries@);
        while i > 0
            invariant
                i <= self.entries@.len(),
                self@.dom().contains(*label) == entered(
                    self.entries@.take(i as int),
                ).dom().contains(*label),
                self@.dom().contains(*label) ==> self@[*label] == entered(
                    self.entries@.take(i as int),
                )[*label],
            decreases i,
        {
            assert(self.entries@.take(i as int).drop_last() =~= self.entries@.take(i - 1));
            if self.entries[i - 1].0.same(label) {
                return Some(self.entries[i - 1].1);
            }
            i -= 1;
        }
        None
    }
}

} // verus!
