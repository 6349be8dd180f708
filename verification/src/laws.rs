//! What holds of the library as a whole.

use crate::anneal::{
    annealed, annealed_by, annealing_step, annealing_trace, cheapest_at, first_cheapest, multi_annealed,
    multi_annealed_by, puts, run_log, step_log, verdict, Schedule, Uphill,
};
use crate::nested::{lemma_preorder, NestedEinsum};
use crate::network::{degree, occurrences, open_at_subtree, open_in_step, Net, StepKind};
use crate::problem::{lemma_arrays_by_shape, lemma_links_carry};
use crate::random::{drawn_from, lemma_next_draw, repeatable, Drawn};
use crate::rotation::{
    inner_children_of, lemma_drawable, lemma_pieces, pieces, proposal, Draw,
};
use crate::shape::{
    alike, lemma_at, lemma_at_at, lemma_has_root, lemma_rotated, lemma_rotated_at, lemma_with, lemma_with_cost,
    same_nodes, Shape,
};
use crate::state::{lemma_books_determined, same_books, Links, TreeState};
use vstd::arithmetic::mul::lemma_mul_basics;
use vstd::arithmetic::power2::{lemma2_to64, lemma_pow2_adds, pow2};
use vstd::prelude::*;

verus! {

/// With both factors one, a tree costs its volume.
pub proof fn law_blind_cost_is_volume(s: Shape, net: Net)
    requires
        net.pass == 1,
        net.ride == 1,
        net.merge == 1,
    ensures
        s.step_cost(net) == s.volume(net),
        s.cost(net) == s.real_cost(net),
    decreases s,
{
    let w = net.weight(s.kind(net));
    assert(s.volume(net) * w == s.volume(net)) by (nonlinear_arith)
        requires
            w == 1,
    ;
    match s {
        Shape::Leaf { .. } => {},
        Shape::Node { left, right, .. } => {
            law_blind_cost_is_volume(*left, net);
            law_blind_cost_is_volume(*right, net);
        },
    }
}

/// Where every tensor is complex, a tree costs its volume times the weight of a
/// merge.
pub proof fn law_all_complex_cost(s: Shape, net: Net)
    requires
        s.leaves_below(net.ixs.len() as int),
        net.complex == Seq::new(net.ixs.len(), |t: int| true),
    ensures
        s.green(net),
        s.cost(net) == s.real_cost(net) * net.merge,
    decreases s,
{
    match s {
        Shape::Leaf { .. } => {
            lemma_mul_basics(net.pass as int);
            lemma_mul_basics(net.merge as int);
        },
        Shape::Node { left, right, .. } => {
            law_all_complex_cost(*left, net);
            law_all_complex_cost(*right, net);
            let (v, a, b) = (s.volume(net), left.real_cost(net), right.real_cost(net));
            assert((v + (a + b)) * net.merge == v * net.merge + (a * net.merge + b * net.merge))
                by (nonlinear_arith);
        },
    }
}

/// Where every tensor is complex, of two trees the cheaper one is the smaller
/// one.
pub proof fn law_all_complex_order(s: Shape, t: Shape, net: Net)
    requires
        s.leaves_below(net.ixs.len() as int),
        t.leaves_below(net.ixs.len() as int),
        net.complex == Seq::new(net.ixs.len(), |t: int| true),
        net.merge > 0,
    ensures
        s.cost(net) <= t.cost(net) <==> s.real_cost(net) <= t.real_cost(net),
{
    law_all_complex_cost(s, net);
    law_all_complex_cost(t, net);
    let (x, y, m) = (s.real_cost(net), t.real_cost(net), net.merge);
    assert(x * m <= y * m <==> x <= y) by (nonlinear_arith)
        requires
            m > 0,
    ;
}

/// The volumes by kind of step make up the volume of the tree.
pub proof fn law_breakdown_is_complete(s: Shape, net: Net)
    ensures
        s.volume_of_kind(net, StepKind::Pass) + s.volume_of_kind(net, StepKind::Ride)
            + s.volume_of_kind(net, StepKind::Merge) == s.real_cost(net),
    decreases s,
{
    match s {
        Shape::Leaf { .. } => {},
        Shape::Node { left, right, .. } => {
            law_breakdown_is_complete(*left, net);
            law_breakdown_is_complete(*right, net);
        },
    }
}

/// A tree costs, for each kind of step, the volume of that kind times its
/// weight.
pub proof fn law_cost_by_kind(s: Shape, net: Net)
    ensures
        s.cost(net) == s.volume_of_kind(net, StepKind::Pass) * net.pass + s.volume_of_kind(
            net,
            StepKind::Ride,
        ) * net.ride + s.volume_of_kind(net, StepKind::Merge) * net.merge,
    decreases s,
{
    match s {
        Shape::Leaf { .. } => {
            lemma_mul_basics(net.pass as int);
            lemma_mul_basics(net.ride as int);
            lemma_mul_basics(net.merge as int);
        },
        Shape::Node { left, right, .. } => {
            law_cost_by_kind(*left, net);
            law_cost_by_kind(*right, net);
            lemma_cost_of_kind(s, net, StepKind::Pass);
            lemma_cost_of_kind(s, net, StepKind::Ride);
            lemma_cost_of_kind(s, net, StepKind::Merge);
        },
    }
}

/// What the steps of one kind cost at a node and below it.
proof fn lemma_cost_of_kind(s: Shape, net: Net, k: StepKind)
    requires
        s is Node,
    ensures
        s.volume_of_kind(net, k) * net.weight(k) == s->Node_left.volume_of_kind(net, k)
            * net.weight(k) + s->Node_right.volume_of_kind(net, k) * net.weight(k) + if s.kind(net)
            == k {
            s.step_cost(net)
        } else {
            0
        },
{
    let (a, b) = (s->Node_left.volume_of_kind(net, k), s->Node_right.volume_of_kind(net, k));
    let v: nat = if s.kind(net) == k {
        s.volume(net)
    } else {
        0
    };
    let w = net.weight(k);
    assert((a + b + v) * w == a * w + b * w + v * w) by (nonlinear_arith);
}

/// A subtree is green exactly where one of its leaves is a complex tensor.
pub proof fn law_green_by_leaves(s: Shape, net: Net)
    ensures
        s.green(net) <==> exists|t: int| #[trigger] s.tensors().contains(t) && net.complex[t],
    decreases s,
{
    match s {
        Shape::Leaf { tensor, .. } => {
            assert(s.tensors().contains(tensor));
        },
        Shape::Node { left, right, .. } => {
            law_green_by_leaves(*left, net);
            law_green_by_leaves(*right, net);
            assert forall|t: int| #[trigger] s.tensors().contains(t) <==> left.tensors().contains(t)
                || right.tensors().contains(t) by {}
            if left.green(net) {
                let t = choose|t: int| #[trigger] left.tensors().contains(t) && net.complex[t];
                assert(s.tensors().contains(t));
            }
            if right.green(net) {
                let t = choose|t: int| #[trigger] right.tensors().contains(t) && net.complex[t];
                assert(s.tensors().contains(t));
            }
        },
    }
}

/// An order numbers its nodes so that a node comes before its children.
pub proof fn law_preorder_parents_first<L>(x: NestedEinsum<L>, base: int, i: int)
    requires
        x.binary(),
        x.preorder(base).has(i),
    ensures
        x.preorder(base).at(i) matches Shape::Node { id, left, right } ==> id < left.id() && id
            < right.id(),
    decreases x,
{
    match x {
        NestedEinsum::Leaf { .. } => {},
        NestedEinsum::Node { args, .. } => {
            let s = x.preorder(base);
            lemma_preorder(args@[0], base + 1);
            lemma_preorder(args@[1], base + 1 + args@[0].size());
            if i == base {
            } else if s->Node_left.has(i) {
                law_preorder_parents_first(args@[0], base + 1, i);
            } else {
                law_preorder_parents_first(args@[1], base + 1 + args@[0].size(), i);
            }
        },
    }
}

/// The books of a tree are determined by its structure: making them anew
/// changes nothing.
pub proof fn law_books_by_structure(a: TreeState, b: TreeState, net: Net)
    requires
        a.wf(net),
        b.wf(net),
        a.links == b.links,
        a.tensoridx == b.tensoridx,
    ensures
        a == b,
{
    lemma_books_determined(a.links.shape, net, a, b);
    assert forall|i: int| 0 <= i < a.nnodes() implies #[trigger] same_books(a, b, i) by {
        assert(a.links.shape.has(i));
    }
    assert forall|i: int| 0 <= i < a.nnodes() implies a.counts[i] == b.counts[i] by {
        assert(same_books(a, b, i));
    }
    assert forall|i: int| 0 <= i < a.nnodes() implies a.green[i] == b.green[i] by {
        assert(same_books(a, b, i));
    }
    assert forall|i: int| 0 <= i < a.nnodes() implies a.step[i] == b.step[i] by {
        assert(same_books(a, b, i));
    }
    assert forall|i: int| 0 <= i < a.nnodes() implies a.real[i] == b.real[i] by {
        assert(same_books(a, b, i));
    }
    assert(a.counts =~= b.counts);
    assert(a.green =~= b.green);
    assert(a.step =~= b.step);
    assert(a.real =~= b.real);
}

/// The shape of a tree determines its arrays and, with them, its whole state:
/// trees built from the same order over the same network are the same.
pub proof fn law_shape_determines_the_state(a: TreeState, b: TreeState, net: Net)
    requires
        a.wf(net),
        b.wf(net),
        a.shape() == b.shape(),
    ensures
        a == b,
{
    lemma_arrays_by_shape(a.links, b.links, a.tensoridx, b.tensoridx, net, net);
    law_books_by_structure(a, b, net);
}

/// A snapshot of one tree can be restored into every other tree that was built
/// from the same order over tensors with the same labels.
pub proof fn law_snapshots_carry(a: TreeState, na: Net, b: TreeState, nb: Net, snap: Links)
    requires
        a.wf(na),
        b.wf(nb),
        a.shape() == b.shape(),
        na.ixs == nb.ixs,
        na.sizes.len() == nb.sizes.len(),
        snap.wf(a.tensoridx, na),
    ensures
        snap.wf(b.tensoridx, nb),
{
    lemma_arrays_by_shape(a.links, b.links, a.tensoridx, b.tensoridx, na, nb);
    lemma_links_carry(snap, a.tensoridx, na, nb);
}

/// Whether two subtrees are booked alike: the same label counts, greenness,
/// volume and cost of the step.
pub open spec fn booked_alike(a: Shape, b: Shape, net: Net) -> bool {
    &&& alike(a, b, net)
    &&& a.volume(net) == b.volume(net)
    &&& a.step_cost(net) == b.step_cost(net)
}

proof fn lemma_with_elsewhere(s: Shape, i: int, t: Shape, j: int, net: Net)
    requires
        s.distinct(),
        s.has(i),
        t.id() == i,
        t.distinct(),
        same_nodes(s.at(i), t),
        alike(s.at(i), t, net),
        s.has(j),
        !s.at(i).has(j),
    ensures
        booked_alike(s.at(j), s.with(i, t).at(j), net),
    decreases s,
{
    match s {
        Shape::Leaf { .. } => {},
        Shape::Node { id, left, right } => {
            if id != i {
                let (p, q) = if left.has(i) {
                    (*left, *right)
                } else {
                    (*right, *left)
                };
                lemma_with(p, i, t);
                lemma_with_cost(p, i, t, net);
                lemma_with_cost(s, i, t, net);
                assert(p.with(i, t).has(j) == p.has(j));
                if j != id && p.has(j) {
                    lemma_with_elsewhere(p, i, t, j, net);
                }
            }
        },
    }
}

/// A rotation keeps the root, the nodes and the tensors of a tree, and at its
/// node the label counts and the greenness.
pub proof fn law_rotation_keeps(s: Shape, n: int, c: int, keep_left: bool, net: Net)
    requires
        s.distinct(),
        s.has(n),
        s.at(n).rotatable(c),
    ensures
        s.rotated_at(n, c, keep_left).distinct(),
        s.rotated_at(n, c, keep_left).id() == s.id(),
        same_nodes(s, s.rotated_at(n, c, keep_left)),
        s.rotated_at(n, c, keep_left).tensors() == s.tensors(),
        alike(s.at(n), s.rotated_at(n, c, keep_left).at(n), net),
{
    lemma_rotated_at(s, n, c, keep_left);
    lemma_at(s, n);
    lemma_rotated(s.at(n), c, keep_left);
}

/// A rotation changes the books of no node but the two that it touches.
pub proof fn law_rotation_is_local(
    s: Shape,
    n: int,
    c: int,
    keep_left: bool,
    net: Net,
    j: int,
)
    requires
        s.distinct(),
        s.has(n),
        s.at(n).rotatable(c),
        s.has(j),
        j != n,
        j != c,
    ensures
        booked_alike(s.at(j), s.rotated_at(n, c, keep_left).at(j), net),
{
    let t = s.at(n);
    let r = t.rotated(c, keep_left);
    let s2 = s.rotated_at(n, c, keep_left);
    lemma_at(s, n);
    lemma_rotated(t, c, keep_left);
    lemma_rotated_at(s, n, c, keep_left);
    if t.has(j) {
        lemma_at_at(s, n, j);
        assert(s2.has(n));
        assert(r.has(j));
        lemma_at_at(s2, n, j);
        lemma_pieces(t, c, keep_left);
        let (p, x, keep, mov) = pieces(t, c, keep_left);
        reveal_with_fuel(Shape::has, 3);
        reveal_with_fuel(Shape::at, 3);
        assert(x.has(j) || keep.has(j) || mov.has(j));
        assert(t.at(j) == r.at(j));
    } else {
        assert(alike(t, r, net));
        lemma_with_elsewhere(s, n, r, j, net);
    }
}

proof fn lemma_step_keeps<F: Fn(&Uphill) -> bool>(
    rule: F,
    sched: Schedule,
    net: Net,
    k: int,
    a: Shape,
    d: Draw,
    e: Shape,
)
    requires
        a.distinct(),
        annealing_step(rule, sched, net, k, a, d, e),
    ensures
        e.distinct(),
        same_nodes(a, e),
        e.tensors() == a.tensors(),
        e.id() == a.id(),
{
    match proposal(a, d) {
        None => {},
        Some(b) => {
            lemma_drawable(a, d);
            lemma_rotated_at(a, d.node, inner_children_of(a.at(d.node))[d.pick], d.keep_left);
            assert(e == a || e == b);
        },
    }
}

/// The trees on the course of a run have the nodes and tensors of its start.
pub proof fn lemma_trace_keeps<F: Fn(&Uphill) -> bool>(
    rule: F,
    sched: Schedule,
    net: Net,
    draws: Seq<Draw>,
    trace: Seq<Shape>,
    k: int,
)
    requires
        annealing_trace(rule, sched, net, draws, trace),
        0 <= k < trace.len(),
        trace[0].distinct(),
    ensures
        trace[k].distinct(),
        same_nodes(trace[0], trace[k]),
        trace[k].tensors() == trace[0].tensors(),
        trace[k].id() == trace[0].id(),
    decreases k,
{
    if k > 0 {
        lemma_trace_keeps(rule, sched, net, draws, trace, k - 1);
        assert(annealing_step(rule, sched, net, k, trace[k - 1], draws[k - 1], trace[k]));
        lemma_step_keeps(rule, sched, net, k, trace[k - 1], draws[k - 1], trace[k]);
        assert forall|i: int| trace[0].has(i) == #[trigger] trace[k].has(i) by {
            assert(trace[0].has(i) == trace[k - 1].has(i));
        }
    }
}

/// A tree with the nodes of an inner node is an inner node.
proof fn lemma_inner_by_nodes(s: Shape, e: Shape)
    requires
        s.distinct(),
        same_nodes(s, e),
        s.id() == e.id(),
    ensures
        s is Node ==> e is Node,
{
    if s is Node {
        let i = s->Node_left.id();
        lemma_has_root(*s->Node_left);
        assert(s.has(i));
        assert(e.has(i));
    }
}

/// Annealing keeps the root, the nodes and the tensors of a tree, and never
/// ends dearer than it began.
pub proof fn law_annealing_improves<F: Fn(&Uphill) -> bool>(
    rule: F,
    sched: Schedule,
    net: Net,
    start: Shape,
    log: Seq<Drawn>,
    e: Shape,
)
    requires
        start.distinct(),
        annealed_by(rule, sched, net, start, log, e),
    ensures
        e.distinct(),
        e.id() == start.id(),
        same_nodes(start, e),
        e.tensors() == start.tensors(),
        e.cost(net) <= start.cost(net),
        start is Node ==> e is Node,
{
    let (draws, trace) = course_of(rule, sched, net, start, log, e);
    let i = choose|i: int|
        0 <= i < trace.len() && #[trigger] trace[i] == e && cheapest_at(trace, net, i);
    lemma_trace_keeps(rule, sched, net, draws, trace, i);
    assert(trace[i].cost(net) <= trace[0].cost(net));
    lemma_inner_by_nodes(start, e);
}

/// The draws and the course of a run.
pub open spec fn course_of<F: Fn(&Uphill) -> bool>(
    rule: F,
    sched: Schedule,
    net: Net,
    start: Shape,
    log: Seq<Drawn>,
    e: Shape,
) -> (Seq<Draw>, Seq<Shape>) {
    choose|draws: Seq<Draw>, trace: Seq<Shape>|
        #![trigger annealing_trace(rule, sched, net, draws, trace)]
        trace.len() == sched.nsteps + 1 && trace[0] == start && annealing_trace(
            rule,
            sched,
            net,
            draws,
            trace,
        ) && log == run_log(net, draws, trace, sched.nsteps as int) && first_cheapest(
            trace,
            net,
            e,
        )
}

/// The results of several runs.
pub open spec fn ends_of<F: Fn(&Uphill) -> bool>(
    rule: F,
    sched: Schedule,
    net: Net,
    start: Shape,
    logs: Seq<Seq<Drawn>>,
    e: Shape,
) -> Seq<Shape> {
    choose|ends: Seq<Shape>|
        #![trigger first_cheapest(ends, net, e)]
        ends.len() == logs.len() && (forall|i: int|
            0 <= i < logs.len() ==> annealed_by(
                rule,
                sched,
                net,
                start,
                logs[i],
                #[trigger] ends[i],
            )) && first_cheapest(ends, net, e)
}

/// The best of several runs keeps the root, the nodes and the tensors of the
/// tree, and is never dearer than the tree that the runs began with.
pub proof fn law_multi_annealing_improves<F: Fn(&Uphill) -> bool>(
    rule: F,
    sched: Schedule,
    net: Net,
    seeds: Seq<u64>,
    start: Shape,
    e: Shape,
)
    requires
        start.distinct(),
        multi_annealed(rule, sched, net, seeds, start, e),
    ensures
        e.distinct(),
        e.id() == start.id(),
        same_nodes(start, e),
        e.tensors() == start.tensors(),
        e.cost(net) <= start.cost(net),
        start is Node ==> e is Node,
{
    reveal(multi_annealed);
    let logs = choose|logs: Seq<Seq<Drawn>>|
        logs.len() == seeds.len() && (forall|i: int|
            0 <= i < seeds.len() ==> drawn_from(seeds[i], #[trigger] logs[i]))
            && #[trigger] multi_annealed_by(rule, sched, net, start, logs, e);
    if seeds.len() > 0 {
        let ends = ends_of(rule, sched, net, start, logs, e);
        let i = choose|i: int|
            0 <= i < ends.len() && #[trigger] ends[i] == e && cheapest_at(ends, net, i);
        assert(annealed_by(rule, sched, net, start, logs[i], ends[i]));
        law_annealing_improves(rule, sched, net, start, logs[i], ends[i]);
    }
}

/// Whether a rule decides alike whenever it is asked alike.
pub open spec fn steady<F: Fn(&Uphill) -> bool>(rule: F) -> bool {
    forall|u: Uphill, v: Uphill, a: bool, b: bool|
        #![trigger call_ensures(rule, (&u,), a), call_ensures(rule, (&v,), b)]
        call_ensures(rule, (&u,), a) && call_ensures(rule, (&v,), b) && u.step == v.step && u.nsteps
            == v.nsteps && u.t0 == v.t0 && u.t1 == v.t1 && u.current@ == v.current@ && u.proposed@
            == v.proposed@ && u.draw == v.draw ==> a == b
}

/// The log of the first steps begins the log of the run.
pub proof fn lemma_run_log_prefix(net: Net, draws: Seq<Draw>, trace: Seq<Shape>, k: int, n: int)
    requires
        0 <= k <= n,
    ensures
        run_log(net, draws, trace, k).len() <= run_log(net, draws, trace, n).len(),
        forall|i: int|
            0 <= i < run_log(net, draws, trace, k).len() ==> #[trigger] run_log(
                net,
                draws,
                trace,
                k,
            )[i] == run_log(net, draws, trace, n)[i],
    decreases n - k,
{
    if k < n {
        lemma_run_log_prefix(net, draws, trace, k + 1, n);
        let p = run_log(net, draws, trace, k);
        let q = run_log(net, draws, trace, k + 1);
        assert(q == p + step_log(trace[k], net, draws[k]));
        assert forall|i: int| 0 <= i < p.len() implies #[trigger] p[i] == run_log(
            net,
            draws,
            trace,
            n,
        )[i] by {
            assert(q[i] == p[i]);
        }
    }
}

/// Two steps from one tree whose logs agree as far as they go have equal logs
/// and end alike.
proof fn lemma_steps_agree<F: Fn(&Uphill) -> bool>(
    rule: F,
    sched: Schedule,
    net: Net,
    k: int,
    a: Shape,
    d: Draw,
    c: Draw,
    e: Shape,
    f: Shape,
)
    requires
        steady(rule),
        annealing_step(rule, sched, net, k, a, d, e),
        annealing_step(rule, sched, net, k, a, c, f),
        forall|i: int|
            0 <= i < step_log(a, net, d).len() && i < step_log(a, net, c).len() ==> #[trigger]
                step_log(a, net, d)[i] == step_log(a, net, c)[i],
    ensures
        step_log(a, net, d) == step_log(a, net, c),
        e == f,
{
    let x = step_log(a, net, d);
    let y = step_log(a, net, c);
    assert(x[0] == y[0]);
    assert(d.node == c.node);
    if inner_children_of(a.at(d.node)).len() > 0 {
        assert(x[1] == y[1]);
        assert(x[2] == y[2]);
        assert(d.pick == c.pick);
        assert(d.keep_left == c.keep_left);
        let b = proposal(a, d)->0;
        assert(proposal(a, c) == Some(b));
        if b.cost(net) > a.cost(net) {
            assert(x[3] == y[3]);
            assert(d.word == c.word);
            let yes = choose|yes: bool| #[trigger]
                verdict(rule, sched, net, k, a, b, d.word, yes) && e == if yes {
                    b
                } else {
                    a
                };
            let no = choose|yes: bool| #[trigger]
                verdict(rule, sched, net, k, a, b, c.word, yes) && f == if yes {
                    b
                } else {
                    a
                };
            let u = choose|u: Uphill|
                puts(u, sched, net, k, a, b, d.word) && #[trigger] call_ensures(rule, (&u,), yes);
            let v = choose|u: Uphill|
                puts(u, sched, net, k, a, b, c.word) && #[trigger] call_ensures(rule, (&u,), no);
            assert(call_ensures(rule, (&u,), yes) && call_ensures(rule, (&v,), no));
            assert(yes == no);
        }
        assert(x =~= y);
    } else {
        assert(x =~= y);
    }
}

proof fn lemma_traces_agree<F: Fn(&Uphill) -> bool>(
    rule: F,
    sched: Schedule,
    net: Net,
    ds: Seq<Draw>,
    s: Seq<Shape>,
    dt: Seq<Draw>,
    t: Seq<Shape>,
    k: int,
    n: int,
)
    requires
        steady(rule),
        annealing_trace(rule, sched, net, ds, s),
        annealing_trace(rule, sched, net, dt, t),
        s[0] == t[0],
        s.len() == n + 1,
        t.len() == n + 1,
        run_log(net, ds, s, n) == run_log(net, dt, t, n),
        0 <= k <= n,
    ensures
        s[k] == t[k],
        run_log(net, ds, s, k) == run_log(net, dt, t, k),
    decreases k,
{
    if k > 0 {
        lemma_traces_agree(rule, sched, net, ds, s, dt, t, k - 1, n);
        assert(annealing_step(rule, sched, net, k, s[k - 1], ds[k - 1], s[k]));
        assert(annealing_step(rule, sched, net, k, t[k - 1], dt[k - 1], t[k]));
        let p = run_log(net, ds, s, k - 1);
        let a = s[k - 1];
        let x = step_log(a, net, ds[k - 1]);
        let y = step_log(a, net, dt[k - 1]);
        lemma_run_log_prefix(net, ds, s, k, n);
        lemma_run_log_prefix(net, dt, t, k, n);
        assert forall|i: int| 0 <= i < x.len() && i < y.len() implies #[trigger] x[i] == y[i] by {
            assert((p + x)[p.len() + i] == x[i]);
            assert((p + y)[p.len() + i] == y[i]);
            assert(run_log(net, ds, s, k)[p.len() + i] == run_log(net, ds, s, n)[p.len() + i]);
            assert(run_log(net, dt, t, k)[p.len() + i] == run_log(net, dt, t, n)[p.len() + i]);
        }
        lemma_steps_agree(rule, sched, net, k, a, ds[k - 1], dt[k - 1], s[k], t[k]);
    }
}

/// With a rule that decides alike whenever it is asked alike, what is drawn
/// alone determines how a run ends.
pub proof fn law_draws_determine_the_run<F: Fn(&Uphill) -> bool>(
    rule: F,
    sched: Schedule,
    net: Net,
    start: Shape,
    log: Seq<Drawn>,
    e: Shape,
    f: Shape,
)
    requires
        steady(rule),
        annealed_by(rule, sched, net, start, log, e),
        annealed_by(rule, sched, net, start, log, f),
    ensures
        e == f,
{
    let (ds, s) = course_of(rule, sched, net, start, log, e);
    let (dt, t) = course_of(rule, sched, net, start, log, f);
    assert forall|k: int| 0 <= k < s.len() implies s[k] == t[k] by {
        lemma_traces_agree(rule, sched, net, ds, s, dt, t, k, sched.nsteps as int);
    }
    assert(s =~= t);
    lemma_first_cheapest_is_one(s, net, e, f);
}

proof fn lemma_first_cheapest_is_one(trees: Seq<Shape>, net: Net, e: Shape, f: Shape)
    requires
        first_cheapest(trees, net, e),
        first_cheapest(trees, net, f),
    ensures
        e == f,
{
    let i = choose|i: int|
        0 <= i < trees.len() && #[trigger] trees[i] == e && cheapest_at(trees, net, i);
    let j = choose|j: int|
        0 <= j < trees.len() && #[trigger] trees[j] == f && cheapest_at(trees, net, j);
    assert(trees[i].cost(net) <= trees[j].cost(net));
    assert(trees[j].cost(net) <= trees[i].cost(net));
    assert(i == j);
}

/// With a rule that decides alike whenever it is asked alike, the start and
/// what is drawn alone determine how several runs end.
pub proof fn law_draws_determine_the_runs<F: Fn(&Uphill) -> bool>(
    rule: F,
    sched: Schedule,
    net: Net,
    start: Shape,
    logs: Seq<Seq<Drawn>>,
    e: Shape,
    f: Shape,
)
    requires
        steady(rule),
        multi_annealed_by(rule, sched, net, start, logs, e),
        multi_annealed_by(rule, sched, net, start, logs, f),
    ensures
        e == f,
{
    if logs.len() > 0 {
        let s = ends_of(rule, sched, net, start, logs, e);
        let t = ends_of(rule, sched, net, start, logs, f);
        assert forall|k: int| 0 <= k < s.len() implies s[k] == t[k] by {
            law_draws_determine_the_run(rule, sched, net, start, logs[k], s[k], t[k]);
        }
        assert(s =~= t);
        lemma_first_cheapest_is_one(s, net, e, f);
    }
}

/// The best of several runs is the result of one of them, and none of them ends
/// cheaper.
pub proof fn law_best_run_is_the_cheapest<F: Fn(&Uphill) -> bool>(
    rule: F,
    sched: Schedule,
    net: Net,
    start: Shape,
    logs: Seq<Seq<Drawn>>,
    e: Shape,
    i: int,
    f: Shape,
)
    requires
        steady(rule),
        multi_annealed_by(rule, sched, net, start, logs, e),
        0 <= i < logs.len(),
        annealed_by(rule, sched, net, start, logs[i], f),
    ensures
        e.cost(net) <= f.cost(net),
        exists|j: int|
            0 <= j < logs.len() && annealed_by(rule, sched, net, start, #[trigger] logs[j], e),
{
    let ends = ends_of(rule, sched, net, start, logs, e);
    law_draws_determine_the_run(rule, sched, net, start, logs[i], ends[i], f);
    let j = choose|j: int|
        0 <= j < ends.len() && #[trigger] ends[j] == e && cheapest_at(ends, net, j);
    assert(ends[j].cost(net) <= ends[i].cost(net));
    assert(annealed_by(rule, sched, net, start, logs[j], e));
}

/// More runs never end dearer: repeating or reordering runs keeps the best cost,
/// adding runs does not raise it.
pub proof fn law_more_runs_never_cost_more<F: Fn(&Uphill) -> bool>(
    rule: F,
    sched: Schedule,
    net: Net,
    start: Shape,
    few: Seq<Seq<Drawn>>,
    many: Seq<Seq<Drawn>>,
    e: Shape,
    f: Shape,
)
    requires
        steady(rule),
        few.len() > 0,
        forall|i: int| 0 <= i < few.len() ==> many.contains(#[trigger] few[i]),
        multi_annealed_by(rule, sched, net, start, few, e),
        multi_annealed_by(rule, sched, net, start, many, f),
    ensures
        f.cost(net) <= e.cost(net),
        (forall|i: int| 0 <= i < many.len() ==> few.contains(#[trigger] many[i])) ==> f.cost(net)
            == e.cost(net),
{
    lemma_run_among(rule, sched, net, start, few, many, e, f);
    if forall|i: int| 0 <= i < many.len() ==> few.contains(#[trigger] many[i]) {
        assert(many.contains(few[0]));
        lemma_run_among(rule, sched, net, start, many, few, f, e);
    }
}

proof fn lemma_run_among<F: Fn(&Uphill) -> bool>(
    rule: F,
    sched: Schedule,
    net: Net,
    start: Shape,
    few: Seq<Seq<Drawn>>,
    many: Seq<Seq<Drawn>>,
    e: Shape,
    f: Shape,
)
    requires
        steady(rule),
        few.len() > 0,
        forall|i: int| 0 <= i < few.len() ==> many.contains(#[trigger] few[i]),
        multi_annealed_by(rule, sched, net, start, few, e),
        multi_annealed_by(rule, sched, net, start, many, f),
    ensures
        f.cost(net) <= e.cost(net),
{
    let ends = ends_of(rule, sched, net, start, few, e);
    let j = choose|j: int|
        0 <= j < ends.len() && #[trigger] ends[j] == e && cheapest_at(ends, net, j);
    assert(annealed_by(rule, sched, net, start, few[j], e));
    assert(many.contains(few[j]));
    let i = choose|i: int| 0 <= i < many.len() && many[i] == few[j];
    law_best_run_is_the_cheapest(rule, sched, net, start, many, f, i, e);
}

/// Steps from one tree that ask a repeatable generator, and got the same answers
/// so far, get the same answers.
proof fn lemma_answers_agree(
    seed: u64,
    x: Seq<Drawn>,
    y: Seq<Drawn>,
    m: int,
    a: Shape,
    net: Net,
    d: Draw,
    c: Draw,
)
    requires
        repeatable(),
        drawn_from(seed, x),
        drawn_from(seed, y),
        0 <= m,
        forall|i: int| 0 <= i < m ==> #[trigger] x[i] == y[i],
        m + step_log(a, net, d).len() <= x.len(),
        m + step_log(a, net, c).len() <= y.len(),
        forall|i: int|
            0 <= i < step_log(a, net, d).len() ==> #[trigger] step_log(a, net, d)[i] == x[m + i],
        forall|i: int|
            0 <= i < step_log(a, net, c).len() ==> #[trigger] step_log(a, net, c)[i] == y[m + i],
    ensures
        forall|i: int|
            0 <= i < step_log(a, net, d).len() && i < step_log(a, net, c).len() ==> #[trigger]
                step_log(a, net, d)[i] == step_log(a, net, c)[i],
{
    let u = step_log(a, net, d);
    let v = step_log(a, net, c);
    assert(u[0] == x[m + 0] && v[0] == y[m + 0]);
    lemma_next_draw(seed, x, y, m);
    assert(d.node == c.node);
    if inner_children_of(a.at(d.node)).len() > 0 {
        assert(u[1] == x[m + 1] && v[1] == y[m + 1]);
        lemma_next_draw(seed, x, y, m + 1);
        assert(u[2] == x[m + 2] && v[2] == y[m + 2]);
        lemma_next_draw(seed, x, y, m + 2);
        assert(proposal(a, d) == proposal(a, c));
        if u.len() > 3 {
            assert(u[3] == x[m + 3] && v[3] == y[m + 3]);
            lemma_next_draw(seed, x, y, m + 3);
        }
    }
}

proof fn lemma_seeded_traces_agree<F: Fn(&Uphill) -> bool>(
    rule: F,
    sched: Schedule,
    net: Net,
    seed: u64,
    ds: Seq<Draw>,
    s: Seq<Shape>,
    dt: Seq<Draw>,
    t: Seq<Shape>,
    k: int,
    n: int,
)
    requires
        repeatable(),
        steady(rule),
        annealing_trace(rule, sched, net, ds, s),
        annealing_trace(rule, sched, net, dt, t),
        s[0] == t[0],
        s.len() == n + 1,
        t.len() == n + 1,
        drawn_from(seed, run_log(net, ds, s, n)),
        drawn_from(seed, run_log(net, dt, t, n)),
        0 <= k <= n,
    ensures
        s[k] == t[k],
        run_log(net, ds, s, k) == run_log(net, dt, t, k),
    decreases k,
{
    if k > 0 {
        lemma_seeded_traces_agree(rule, sched, net, seed, ds, s, dt, t, k - 1, n);
        assert(annealing_step(rule, sched, net, k, s[k - 1], ds[k - 1], s[k]));
        assert(annealing_step(rule, sched, net, k, t[k - 1], dt[k - 1], t[k]));
        let p = run_log(net, ds, s, k - 1);
        let a = s[k - 1];
        let (d, c) = (ds[k - 1], dt[k - 1]);
        let (u, v) = (step_log(a, net, d), step_log(a, net, c));
        let (x, y) = (run_log(net, ds, s, n), run_log(net, dt, t, n));
        let (xk, yk) = (run_log(net, ds, s, k), run_log(net, dt, t, k));
        let m = p.len() as int;
        lemma_run_log_prefix(net, ds, s, k, n);
        lemma_run_log_prefix(net, dt, t, k, n);
        assert(xk == p + u && yk == p + v);
        assert forall|i: int| 0 <= i < m implies #[trigger] x[i] == y[i] by {
            assert(xk[i] == p[i] && yk[i] == p[i]);
        }
        assert forall|i: int| 0 <= i < u.len() implies #[trigger] u[i] == x[m + i] by {
            assert(xk[m + i] == u[i]);
        }
        assert forall|i: int| 0 <= i < v.len() implies #[trigger] v[i] == y[m + i] by {
            assert(yk[m + i] == v[i]);
        }
        lemma_answers_agree(seed, x, y, m, a, net, d, c);
        lemma_steps_agree(rule, sched, net, k, a, d, c, s[k], t[k]);
    }
}

/// With a generator that answers alike whenever it is asked alike, and a rule
/// that decides alike, the seed determines all that a run draws and how it ends.
pub proof fn law_seed_determines_the_draws<F: Fn(&Uphill) -> bool>(
    rule: F,
    sched: Schedule,
    net: Net,
    seed: u64,
    start: Shape,
    x: Seq<Drawn>,
    y: Seq<Drawn>,
    e: Shape,
    f: Shape,
)
    requires
        repeatable(),
        steady(rule),
        drawn_from(seed, x),
        drawn_from(seed, y),
        annealed_by(rule, sched, net, start, x, e),
        annealed_by(rule, sched, net, start, y, f),
    ensures
        x == y,
        e == f,
{
    let (ds, s) = course_of(rule, sched, net, start, x, e);
    let (dt, t) = course_of(rule, sched, net, start, y, f);
    let n = sched.nsteps as int;
    lemma_seeded_traces_agree(rule, sched, net, seed, ds, s, dt, t, n, n);
    law_draws_determine_the_run(rule, sched, net, start, x, e, f);
}

/// With a generator that answers alike whenever it is asked alike, and a rule
/// that decides alike, the seed determines how a run ends.
pub proof fn law_seed_determines_the_run<F: Fn(&Uphill) -> bool>(
    rule: F,
    sched: Schedule,
    net: Net,
    seed: u64,
    start: Shape,
    e: Shape,
    f: Shape,
)
    requires
        repeatable(),
        steady(rule),
        annealed(rule, sched, net, seed, start, e),
        annealed(rule, sched, net, seed, start, f),
    ensures
        e == f,
{
    let x = log_of(rule, sched, net, seed, start, e);
    let y = log_of(rule, sched, net, seed, start, f);
    law_seed_determines_the_draws(rule, sched, net, seed, start, x, y, e, f);
}

/// The log of a run.
spec fn log_of<F: Fn(&Uphill) -> bool>(
    rule: F,
    sched: Schedule,
    net: Net,
    seed: u64,
    start: Shape,
    e: Shape,
) -> Seq<Drawn> {
    choose|log: Seq<Drawn>|
        drawn_from(seed, log) && #[trigger] annealed_by(rule, sched, net, start, log, e)
}

/// The logs of several runs.
pub open spec fn logs_of<F: Fn(&Uphill) -> bool>(
    rule: F,
    sched: Schedule,
    net: Net,
    seeds: Seq<u64>,
    start: Shape,
    e: Shape,
) -> Seq<Seq<Drawn>> {
    choose|logs: Seq<Seq<Drawn>>|
        logs.len() == seeds.len() && (forall|i: int|
            0 <= i < seeds.len() ==> drawn_from(seeds[i], #[trigger] logs[i]))
            && #[trigger] multi_annealed_by(rule, sched, net, start, logs, e)
}

/// The best of several runs is the result of the run of one of the seeds; with a
/// repeatable generator and a steady rule, no run of another seed ends cheaper,
/// and none of an earlier seed as cheap.
pub proof fn law_best_seed_is_the_cheapest<F: Fn(&Uphill) -> bool>(
    rule: F,
    sched: Schedule,
    net: Net,
    seeds: Seq<u64>,
    start: Shape,
    e: Shape,
)
    requires
        repeatable(),
        steady(rule),
        seeds.len() > 0,
        multi_annealed(rule, sched, net, seeds, start, e),
    ensures
        exists|j: int|
            {
                &&& 0 <= j < seeds.len()
                &&& annealed(rule, sched, net, #[trigger] seeds[j], start, e)
                &&& forall|i: int, f: Shape|
                    0 <= i < seeds.len() && #[trigger] annealed(
                        rule,
                        sched,
                        net,
                        seeds[i],
                        start,
                        f,
                    ) ==> if i < j {
                        e.cost(net) < f.cost(net)
                    } else {
                        e.cost(net) <= f.cost(net)
                    }
            },
{
    reveal(multi_annealed);
    let logs = logs_of(rule, sched, net, seeds, start, e);
    let ends = ends_of(rule, sched, net, start, logs, e);
    let j = choose|j: int|
        0 <= j < ends.len() && #[trigger] ends[j] == e && cheapest_at(ends, net, j);
    assert(drawn_from(seeds[j], logs[j]));
    assert(annealed_by(rule, sched, net, start, logs[j], ends[j]));
    assert(annealed(rule, sched, net, seeds[j], start, e));
    assert forall|i: int, f: Shape|
        0 <= i < seeds.len() && #[trigger] annealed(
            rule,
            sched,
            net,
            seeds[i],
            start,
            f,
        ) implies if i < j {
        e.cost(net) < f.cost(net)
    } else {
        e.cost(net) <= f.cost(net)
    } by {
        assert(drawn_from(seeds[i], logs[i]));
        assert(annealed_by(rule, sched, net, start, logs[i], ends[i]));
        assert(annealed(rule, sched, net, seeds[i], start, ends[i]));
        law_seed_determines_the_run(rule, sched, net, seeds[i], start, ends[i], f);
    }
}

/// With a repeatable generator and a steady rule, the start and the seeds
/// determine how several runs end.
pub proof fn law_seeds_determine_the_runs<F: Fn(&Uphill) -> bool>(
    rule: F,
    sched: Schedule,
    net: Net,
    seeds: Seq<u64>,
    start: Shape,
    e: Shape,
    f: Shape,
)
    requires
        repeatable(),
        steady(rule),
        multi_annealed(rule, sched, net, seeds, start, e),
        multi_annealed(rule, sched, net, seeds, start, f),
    ensures
        e == f,
{
    reveal(multi_annealed);
    let x = logs_of(rule, sched, net, seeds, start, e);
    let y = logs_of(rule, sched, net, seeds, start, f);
    if seeds.len() > 0 {
        let s = ends_of(rule, sched, net, start, x, e);
        let t = ends_of(rule, sched, net, start, y, f);
        assert forall|i: int| 0 <= i < x.len() implies x[i] == y[i] by {
            assert(drawn_from(seeds[i], x[i]) && drawn_from(seeds[i], y[i]));
            assert(annealed_by(rule, sched, net, start, x[i], s[i]));
            assert(annealed_by(rule, sched, net, start, y[i], t[i]));
            law_seed_determines_the_draws(
                rule,
                sched,
                net,
                seeds[i],
                start,
                x[i],
                y[i],
                s[i],
                t[i],
            );
        }
    }
    assert(x =~= y);
    law_draws_determine_the_runs(rule, sched, net, start, x, e, f);
}

/// With a repeatable generator and a steady rule, more seeds never end dearer:
/// repeating or reordering seeds keeps the best cost, adding seeds does not
/// raise it.
pub proof fn law_more_seeds_never_cost_more<F: Fn(&Uphill) -> bool>(
    rule: F,
    sched: Schedule,
    net: Net,
    few: Seq<u64>,
    many: Seq<u64>,
    start: Shape,
    e: Shape,
    f: Shape,
)
    requires
        repeatable(),
        steady(rule),
        few.len() > 0,
        forall|i: int| 0 <= i < few.len() ==> many.contains(#[trigger] few[i]),
        multi_annealed(rule, sched, net, few, start, e),
        multi_annealed(rule, sched, net, many, start, f),
    ensures
        f.cost(net) <= e.cost(net),
        (forall|i: int| 0 <= i < many.len() ==> few.contains(#[trigger] many[i])) ==> f.cost(net)
            == e.cost(net),
{
    assert(many.contains(few[0]));
    lemma_seed_among(rule, sched, net, few, many, start, e, f);
    if forall|i: int| 0 <= i < many.len() ==> few.contains(#[trigger] many[i]) {
        lemma_seed_among(rule, sched, net, many, few, start, f, e);
    }
}

proof fn lemma_seed_among<F: Fn(&Uphill) -> bool>(
    rule: F,
    sched: Schedule,
    net: Net,
    few: Seq<u64>,
    many: Seq<u64>,
    start: Shape,
    e: Shape,
    f: Shape,
)
    requires
        repeatable(),
        steady(rule),
        few.len() > 0,
        many.len() > 0,
        forall|i: int| 0 <= i < few.len() ==> many.contains(#[trigger] few[i]),
        multi_annealed(rule, sched, net, few, start, e),
        multi_annealed(rule, sched, net, many, start, f),
    ensures
        f.cost(net) <= e.cost(net),
{
    law_best_seed_is_the_cheapest(rule, sched, net, few, start, e);
    law_best_seed_is_the_cheapest(rule, sched, net, many, start, f);
    let j = choose|j: int|
        0 <= j < few.len() && annealed(rule, sched, net, #[trigger] few[j], start, e);
    assert(many.contains(few[j]));
    let i = choose|i: int| 0 <= i < many.len() && many[i] == few[j];
    assert(annealed(rule, sched, net, many[i], start, e));
}

/// The volume of a tree goes by the labels of the tensors, the dimensions and
/// the output labels alone: neither the complexity of the tensors nor the
/// factors enter.
pub proof fn law_volume_ignores_complexity(s: Shape, m: Net, n: Net)
    requires
        m.ixs == n.ixs,
        m.sizes == n.sizes,
        m.outputs == n.outputs,
    ensures
        s.volume(m) == s.volume(n),
        s.real_cost(m) == s.real_cost(n),
        forall|l: int| #[trigger] s.count(m, l) == s.count(n, l),
    decreases s,
{
    match s {
        Shape::Leaf { .. } => {},
        Shape::Node { left, right, .. } => {
            law_volume_ignores_complexity(*left, m, n);
            law_volume_ignores_complexity(*right, m, n);
            assert forall|l: int| #[trigger] s.count(m, l) == s.count(n, l) by {
                assert(left.count(m, l) == left.count(n, l));
                assert(right.count(m, l) == right.count(n, l));
            }
            assert(left.counts(m) =~= left.counts(n)) by {
                assert forall|l: int| 0 <= l < m.nlabels() implies left.counts(m)[l]
                    == left.counts(n)[l] by {
                    assert(left.count(m, l) == left.count(n, l));
                }
            }
            assert(right.counts(m) =~= right.counts(n)) by {
                assert forall|l: int| 0 <= l < m.nlabels() implies right.counts(m)[l]
                    == right.counts(n)[l] by {
                    assert(right.count(m, l) == right.count(n, l));
                }
            }
            lemma_open_volume_alike(m, n, left.counts(m), right.counts(m), m.nlabels());
        },
    }
}

proof fn lemma_open_volume_alike(m: Net, n: Net, ca: Seq<int>, cb: Seq<int>, k: int)
    requires
        m.ixs == n.ixs,
        m.sizes == n.sizes,
        m.outputs == n.outputs,
    ensures
        m.open_volume(ca, cb, k) == n.open_volume(ca, cb, k),
    decreases k,
{
    if k > 0 {
        lemma_open_volume_alike(m, n, ca, cb, k - 1);
    }
}

/// A run over one network is a run over every other that prices all trees alike.
proof fn lemma_annealed_by_costs<F: Fn(&Uphill) -> bool>(
    rule: F,
    sched: Schedule,
    m: Net,
    n: Net,
    start: Shape,
    log: Seq<Drawn>,
    e: Shape,
)
    requires
        forall|s: Shape| #[trigger] s.cost(m) == s.cost(n),
        annealed_by(rule, sched, m, start, log, e),
    ensures
        annealed_by(rule, sched, n, start, log, e),
{
    let (draws, trace) = course_of(rule, sched, m, start, log, e);
    assert forall|k: int|
        #![trigger trace[k]]
        1 <= k < trace.len() implies annealing_step(
        rule,
        sched,
        n,
        k,
        trace[k - 1],
        draws[k - 1],
        trace[k],
    ) by {
        let (a, d) = (trace[k - 1], draws[k - 1]);
        assert(annealing_step(rule, sched, m, k, a, d, trace[k]));
        if let Some(b) = proposal(a, d) {
            assert(a.cost(m) == a.cost(n) && b.cost(m) == b.cost(n));
            let yes = choose|yes: bool| #[trigger]
                verdict(rule, sched, m, k, a, b, d.word, yes) && trace[k] == if yes {
                    b
                } else {
                    a
                };
            if b.cost(m) > a.cost(m) {
                let u = choose|u: Uphill|
                    puts(u, sched, m, k, a, b, d.word) && #[trigger] call_ensures(rule, (&u,), yes);
                assert(puts(u, sched, n, k, a, b, d.word));
            }
            assert(verdict(rule, sched, n, k, a, b, d.word, yes));
        }
    }
    assert(annealing_trace(rule, sched, n, draws, trace));
    lemma_run_log_by_costs(m, n, draws, trace, sched.nsteps as int);
    let i = choose|i: int|
        0 <= i < trace.len() && #[trigger] trace[i] == e && cheapest_at(trace, m, i);
    assert forall|j: int| 0 <= j < trace.len() implies if j < i {
        trace[i].cost(n) < (#[trigger] trace[j]).cost(n)
    } else {
        trace[i].cost(n) <= trace[j].cost(n)
    } by {
        assert(trace[i].cost(m) == trace[i].cost(n) && trace[j].cost(m) == trace[j].cost(n));
    }
    assert(cheapest_at(trace, n, i));
    assert(first_cheapest(trace, n, e));
}

proof fn lemma_run_log_by_costs(m: Net, n: Net, draws: Seq<Draw>, trace: Seq<Shape>, k: int)
    requires
        forall|s: Shape| #[trigger] s.cost(m) == s.cost(n),
    ensures
        run_log(m, draws, trace, k) == run_log(n, draws, trace, k),
    decreases k,
{
    if k > 0 {
        lemma_run_log_by_costs(m, n, draws, trace, k - 1);
        let (a, d) = (trace[k - 1], draws[k - 1]);
        if let Some(b) = proposal(a, d) {
            assert(a.cost(m) == a.cost(n) && b.cost(m) == b.cost(n));
        }
    }
}

/// With both factors one the complexity of the tensors cannot influence a run:
/// runs with equal draws over networks that differ in nothing else end alike,
/// at a cost that is the volume.
pub proof fn law_blind_runs_ignore_complexity<F: Fn(&Uphill) -> bool>(
    rule: F,
    sched: Schedule,
    m: Net,
    n: Net,
    start: Shape,
    log: Seq<Drawn>,
    e: Shape,
    f: Shape,
)
    requires
        steady(rule),
        m.pass == 1 && m.ride == 1 && m.merge == 1,
        n == (Net { complex: n.complex, ..m }),
        annealed_by(rule, sched, m, start, log, e),
        annealed_by(rule, sched, n, start, log, f),
    ensures
        e == f,
        e.cost(m) == f.cost(n),
        e.cost(m) == e.real_cost(m),
{
    assert forall|s: Shape| #[trigger] s.cost(m) == s.cost(n) by {
        law_blind_cost_is_volume(s, m);
        law_blind_cost_is_volume(s, n);
        law_volume_ignores_complexity(s, m, n);
    }
    lemma_annealed_by_costs(rule, sched, m, n, start, log, e);
    law_draws_determine_the_run(rule, sched, n, start, log, e, f);
    law_blind_cost_is_volume(e, m);
}

/// With both factors one, a repeatable generator and a steady rule, runs from one
/// seed over networks that differ in the complexity of the tensors alone end
/// alike.
pub proof fn law_blind_seeds_ignore_complexity<F: Fn(&Uphill) -> bool>(
    rule: F,
    sched: Schedule,
    m: Net,
    n: Net,
    seed: u64,
    start: Shape,
    e: Shape,
    f: Shape,
)
    requires
        repeatable(),
        steady(rule),
        m.pass == 1 && m.ride == 1 && m.merge == 1,
        n == (Net { complex: n.complex, ..m }),
        annealed(rule, sched, m, seed, start, e),
        annealed(rule, sched, n, seed, start, f),
    ensures
        e == f,
        e.cost(m) == f.cost(n),
        e.cost(m) == e.real_cost(m),
{
    assert forall|s: Shape| #[trigger] s.cost(m) == s.cost(n) by {
        law_blind_cost_is_volume(s, m);
        law_blind_cost_is_volume(s, n);
        law_volume_ignores_complexity(s, m, n);
    }
    let x = log_of(rule, sched, m, seed, start, e);
    lemma_annealed_by_costs(rule, sched, m, n, start, x, e);
    law_seed_determines_the_run(rule, sched, n, seed, start, e, f);
    law_blind_cost_is_volume(e, m);
}

proof fn lemma_open_volume_positive(net: Net, ca: Seq<int>, cb: Seq<int>, n: int)
    requires
        n <= net.nlabels(),
        forall|l: int| 0 <= l < net.nlabels() ==> #[trigger] net.sizes[l] > 0,
    ensures
        net.open_volume(ca, cb, n) > 0,
    decreases n,
{
    if n > 0 {
        lemma_open_volume_positive(net, ca, cb, n - 1);
        let (v, c) = (net.open_volume(ca, cb, n - 1), net.contribution(ca[n - 1], cb[n - 1], n - 1));
        assert(net.sizes[n - 1] > 0);
        assert(v * c > 0) by (nonlinear_arith)
            requires
                v > 0,
                c > 0,
        ;
    }
}

/// Where no dimension and no weight is zero, a tree with a step has a positive
/// cost, and so has every tree that annealing makes of it.
pub proof fn law_annealed_cost_is_positive<F: Fn(&Uphill) -> bool>(
    rule: F,
    sched: Schedule,
    net: Net,
    start: Shape,
    log: Seq<Drawn>,
    e: Shape,
)
    requires
        start is Node,
        start.distinct(),
        net.positive(),
        annealed_by(rule, sched, net, start, log, e),
    ensures
        start.cost(net) > 0,
        e.cost(net) > 0,
{
    law_annealing_improves(rule, sched, net, start, log, e);
    lemma_cost_is_positive(start, net);
    lemma_cost_is_positive(e, net);
}

proof fn lemma_cost_is_positive(s: Shape, net: Net)
    requires
        s is Node,
        net.positive(),
    ensures
        s.cost(net) > 0,
{
    lemma_open_volume_positive(
        net,
        s->Node_left.counts(net),
        s->Node_right.counts(net),
        net.nlabels(),
    );
    let (v, w) = (s.volume(net), net.weight(s.kind(net)));
    assert(v * w > 0) by (nonlinear_arith)
        requires
            v > 0,
            w > 0,
    ;
}

/// A run of no steps leaves the tree as it is.
pub proof fn law_no_steps_no_change<F: Fn(&Uphill) -> bool>(
    rule: F,
    sched: Schedule,
    net: Net,
    start: Shape,
    log: Seq<Drawn>,
    e: Shape,
)
    requires
        sched.nsteps == 0,
        annealed_by(rule, sched, net, start, log, e),
    ensures
        e == start,
{
}

/// An output label is open, and priced, in every step whose subtree holds it,
/// also where it occurs in one child alone.
pub proof fn law_outputs_stay_open(s: Shape, net: Net, l: int)
    requires
        s is Node,
        net.outputs[l],
        s.count(net, l) > 0,
    ensures
        open_in_step(
            s->Node_left.count(net, l) as int,
            s->Node_right.count(net, l) as int,
            net.total(l) as int,
            net.outputs[l],
        ),
        net.contribution(
            s->Node_left.count(net, l) as int,
            s->Node_right.count(net, l) as int,
            l,
        ) == net.sizes[l],
        open_at_subtree(s.count(net, l) as int, net.total(l) as int, net.outputs[l]),
{
}

/// A label is open in a step exactly where it is open at one of the children.
pub proof fn law_step_opens_what_children_pass(s: Shape, net: Net, l: int)
    requires
        s is Node,
    ensures
        open_in_step(
            s->Node_left.count(net, l) as int,
            s->Node_right.count(net, l) as int,
            net.total(l) as int,
            net.outputs[l],
        ) <==> (open_at_subtree(
            s->Node_left.count(net, l) as int,
            net.total(l) as int,
            net.outputs[l],
        ) || open_at_subtree(
            s->Node_right.count(net, l) as int,
            net.total(l) as int,
            net.outputs[l],
        )),
{
}

/// The sum of the exponents of those of the first `n` labels that are open in a
/// step.
pub open spec fn open_exponent(
    net: Net,
    exps: Seq<nat>,
    ca: Seq<int>,
    cb: Seq<int>,
    n: int,
) -> nat
    decreases n,
{
    if n <= 0 {
        0
    } else {
        open_exponent(net, exps, ca, cb, n - 1) + if open_in_step(
            ca[n - 1],
            cb[n - 1],
            net.total(n - 1) as int,
            net.outputs[n - 1],
        ) {
            exps[n - 1]
        } else {
            0
        }
    }
}

/// Where the dimensions are powers of two, the volume of a step is two to the
/// sum of the exponents of its open labels; where they are all two, two to the
/// number of its open labels.
pub proof fn law_volume_is_power_of_two(
    net: Net,
    exps: Seq<nat>,
    ca: Seq<int>,
    cb: Seq<int>,
    n: int,
)
    requires
        0 <= n <= net.nlabels(),
        exps.len() == net.sizes.len(),
        forall|l: int| 0 <= l < net.nlabels() ==> #[trigger] net.sizes[l] == pow2(exps[l]),
    ensures
        net.open_volume(ca, cb, n) == pow2(open_exponent(net, exps, ca, cb, n)),
    decreases n,
{
    if n <= 0 {
        lemma2_to64();
    } else {
        law_volume_is_power_of_two(net, exps, ca, cb, n - 1);
        let e = open_exponent(net, exps, ca, cb, n - 1);
        let v = net.open_volume(ca, cb, n - 1);
        assert(net.sizes[n - 1] == pow2(exps[n - 1]));
        lemma_pow2_adds(e, exps[n - 1]);
        lemma_mul_basics(v as int);
    }
}

/// Whether the leaves of a tree are the tensors `0..n`, each once.
pub open spec fn each_once(s: Shape, n: int) -> bool {
    forall|t: int|
        #[trigger] s.tensors().count(t) == if 0 <= t < n {
            1nat
        } else {
            0nat
        }
}

/// The occurrences of the label `l` in the first `n` tensors, each counted as
/// often as it is a leaf of the tree.
pub open spec fn leaf_occurrences(s: Shape, net: Net, l: int, n: int) -> nat
    decreases n,
{
    if n <= 0 {
        0
    } else {
        leaf_occurrences(s, net, l, n - 1) + s.tensors().count(n - 1) * occurrences(
            net.ixs[n - 1],
            l,
        )
    }
}

proof fn lemma_leaf_occurrences_leaf(s: Shape, net: Net, l: int, n: int)
    requires
        s is Leaf,
    ensures
        leaf_occurrences(s, net, l, n) == if 0 <= s->tensor < n {
            occurrences(net.ixs[s->tensor], l)
        } else {
            0
        },
    decreases n,
{
    if n > 0 {
        lemma_leaf_occurrences_leaf(s, net, l, n - 1);
        lemma_mul_basics(occurrences(net.ixs[n - 1], l) as int);
    }
}

proof fn lemma_leaf_occurrences_node(s: Shape, net: Net, l: int, n: int)
    requires
        s is Node,
    ensures
        leaf_occurrences(s, net, l, n) == leaf_occurrences(*s->Node_left, net, l, n)
            + leaf_occurrences(*s->Node_right, net, l, n),
    decreases n,
{
    if n > 0 {
        lemma_leaf_occurrences_node(s, net, l, n - 1);
        let o = occurrences(net.ixs[n - 1], l);
        let a = s->Node_left.tensors().count(n - 1);
        let b = s->Node_right.tensors().count(n - 1);
        assert(s.tensors().count(n - 1) == a + b);
        assert((a + b) * o == a * o + b * o) by (nonlinear_arith);
    }
}

/// A tree counts the occurrences in its leaves.
pub proof fn lemma_count_by_leaves(s: Shape, net: Net, l: int, n: int)
    requires
        s.leaves_below(n),
    ensures
        s.count(net, l) == leaf_occurrences(s, net, l, n),
    decreases s,
{
    match s {
        Shape::Leaf { .. } => {
            lemma_leaf_occurrences_leaf(s, net, l, n);
        },
        Shape::Node { left, right, .. } => {
            lemma_count_by_leaves(*left, net, l, n);
            lemma_count_by_leaves(*right, net, l, n);
            lemma_leaf_occurrences_node(s, net, l, n);
        },
    }
}

proof fn lemma_each_once_degree(s: Shape, net: Net, l: int, n: int)
    requires
        each_once(s, net.ixs.len() as int),
        0 <= n <= net.ixs.len(),
    ensures
        leaf_occurrences(s, net, l, n) == degree(net.ixs.take(n), l),
    decreases n,
{
    if n > 0 {
        lemma_each_once_degree(s, net, l, n - 1);
        assert(net.ixs.take(n).drop_last() =~= net.ixs.take(n - 1));
        assert(s.tensors().count(n - 1) == 1);
        lemma_mul_basics(occurrences(net.ixs[n - 1], l) as int);
    }
}

/// A tree over all the tensors, each once, holds all the occurrences of every
/// label; what is open at its root are the output labels.
pub proof fn law_whole_tree_keeps_outputs(s: Shape, net: Net, l: int)
    requires
        s.leaves_below(net.ixs.len() as int),
        each_once(s, net.ixs.len() as int),
    ensures
        s.count(net, l) == net.total(l),
        open_at_subtree(s.count(net, l) as int, net.total(l) as int, net.outputs[l])
            <==> net.outputs[l] && net.total(l) > 0,
{
    let n = net.ixs.len() as int;
    lemma_count_by_leaves(s, net, l, n);
    lemma_each_once_degree(s, net, l, n);
    assert(net.ixs.take(n) =~= net.ixs);
}

} // verus!
