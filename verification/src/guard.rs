//! Testing whether the annealer can work from a contraction order.

use crate::annealer::workable;
use crate::labels::{
    build_label_map, label_degree, label_occurrences, label_uses, labels_of, SizeDict,
};
use crate::nested::{label_lists, EinCode, Label, NestedEinsum};
use crate::problem::{countable, orders, sized_labels};
use vstd::prelude::*;

verus! {

/// Whether `r` is the number `n`, or nothing where `n` exceeds `cap`.
pub open spec fn within(r: Option<usize>, n: nat, cap: usize) -> bool {
    match r {
        Some(k) => k == n && n <= cap,
        None => n > cap,
    }
}

proof fn lemma_occurrences_grow<L>(ix: Seq<L>, k: int, l: L)
    requires
        0 <= k <= ix.len(),
    ensures
        label_occurrences(ix.take(k), l) <= label_occurrences(ix, l),
    decreases ix.len() - k,
{
    if k == ix.len() {
        assert(ix.take(k) =~= ix);
    } else {
        assert(ix.take(k + 1).drop_last() =~= ix.take(k));
        lemma_occurrences_grow(ix, k + 1, l);
    }
}

proof fn lemma_degree_grow<L>(ixs: Seq<Seq<L>>, t: int, l: L)
    requires
        0 <= t <= ixs.len(),
    ensures
        label_degree(ixs.take(t), l) <= label_degree(ixs, l),
    decreases ixs.len() - t,
{
    if t == ixs.len() {
        assert(ixs.take(t) =~= ixs);
    } else {
        assert(ixs.take(t + 1).drop_last() =~= ixs.take(t));
        lemma_degree_grow(ixs, t + 1, l);
    }
}

/// How often the label `l` occurs in a list, up to a cap.
fn occurrences_within<L: Label>(ix: &Vec<L>, l: &L, cap: usize) -> (r: Option<usize>)
    ensures
        within(r, label_occurrences(ix@, *l), cap),
{
    let mut n: usize = 0;
    let mut k: usize = 0;
    while k < ix.len()
        invariant
            k <= ix@.len(),
            n == label_occurrences(ix@.take(k as int), *l),
            n <= cap,
        decreases ix@.len() - k,
    {
        proof {
            assert(ix@.take(k + 1).drop_last() =~= ix@.take(k as int));
            lemma_occurrences_grow(ix@, k + 1, *l);
        }
        if ix[k].same(l) {
            if n == cap {
                return None;
            }
            n += 1;
        }
        k += 1;
    }
    assert(ix@.take(k as int) =~= ix@);
    Some(n)
}

/// How often the label `l` occurs in all the lists together, up to a cap.
fn degree_within<L: Label>(ixs: &Vec<Vec<L>>, l: &L, cap: usize) -> (r: Option<usize>)
    ensures
        within(r, label_degree(label_lists(ixs@), *l), cap),
{
    let ghost lists = label_lists(ixs@);
    let mut n: usize = 0;
    let mut t: usize = 0;
    while t < ixs.len()
        invariant
            t <= ixs@.len(),
            lists == label_lists(ixs@),
            n == label_degree(lists.take(t as int), *l),
            n <= cap,
        decreases ixs@.len() - t,
    {
        proof {
            assert(lists.take(t + 1).drop_last() =~= lists.take(t as int));
            lemma_degree_grow(lists, t + 1, *l);
        }
        match occurrences_within(&ixs[t], l, cap - n) {
            None => {
                return None;
            },
            Some(m) => {
                n += m;
            },
        }
        t += 1;
    }
    assert(lists.take(t as int) =~= lists);
    Some(n)
}

/// How often the label `l` occurs in the leaves of a binary order, up to a cap.
fn uses_within<L: Label>(x: &NestedEinsum<L>, ixs: &Vec<Vec<L>>, l: &L, cap: usize) -> (r: Option<
    usize,
>)
    requires
        x.binary(),
        x.tensors_below(ixs@.len() as int),
    ensures
        within(r, label_uses(*x, label_lists(ixs@), *l), cap),
    decreases x,
{
    match x {
        NestedEinsum::Leaf { tensor_index } => occurrences_within(&ixs[*tensor_index], l, cap),
        NestedEinsum::Node { args, .. } => match uses_within(&args[0], ixs, l, cap) {
            None => None,
            Some(a) => match uses_within(&args[1], ixs, l, cap - a) {
                None => None,
                Some(b) => Some(a + b),
            },
        },
    }
}

/// Whether every leaf of a binary order names one of `n` tensors.
fn tensors_within<L>(x: &NestedEinsum<L>, n: usize) -> (r: bool)
    requires
        x.binary(),
    ensures
        r == x.tensors_below(n as int),
    decreases x,
{
    match x {
        NestedEinsum::Leaf { tensor_index } => *tensor_index < n,
        NestedEinsum::Node { args, .. } => tensors_within(&args[0], n) && tensors_within(
            &args[1],
            n,
        ),
    }
}

/// Tests whether the annealer can work from the order `start`, if there is one.
pub fn is_workable<L: Label>(
    code: &EinCode<L>,
    dict: &SizeDict<L>,
    start: &Option<NestedEinsum<L>>,
) -> (r: bool)
    ensures
        r == workable(*code, dict@, *start),
{
    let x: &NestedEinsum<L> = match start {
        None => {
            return true;
        },
        Some(x) => x,
    };
    if x.is_leaf() {
        return true;
    }
    if !x.is_binary() || !tensors_within(x, code.ixs.len()) {
        return false;
    }
    let ghost lists = label_lists(code.ixs@);
    let labels: Vec<L> = build_label_map(code);
    let cap: usize = i16::MAX as usize;
    let mut k: usize = 0;
    while k < labels.len()
        invariant
            k <= labels@.len(),
            labels@ == labels_of(*code),
            lists == label_lists(code.ixs@),
            cap == i16::MAX,
            *start == Some(*x),
            x is Node,
            x.binary(),
            x.tensors_below(code.ixs@.len() as int),
            forall|j: int|
                0 <= j < k ==> dict@.dom().contains(#[trigger] labels@[j]) && label_degree(
                    lists,
                    labels@[j],
                ) <= cap && label_uses(*x, lists, labels@[j]) <= cap,
        decreases labels@.len() - k,
    {
        assert(labels_of(*code).contains(labels@[k as int]));
        if dict.get(&labels[k]).is_none() || degree_within(&code.ixs, &labels[k], cap).is_none()
            || uses_within(x, &code.ixs, &labels[k], cap).is_none() {
            return false;
        }
        k += 1;
    }
    proof {
        assert forall|l: L| #[trigger] labels_of(*code).contains(l) implies dict@.dom().contains(l)
            && label_degree(lists, l) <= i16::MAX && label_uses(*x, lists, l) <= i16::MAX by {
            let j = choose|j: int| 0 <= j < labels@.len() && labels@[j] == l;
            assert(labels@[j] == l);
        }
        assert(sized_labels(*code, dict@));
        assert(countable(*code));
        assert(orders(*x, *code));
    }
    true
}

} // verus!
