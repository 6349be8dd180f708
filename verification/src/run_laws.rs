//! What an annealing run does, step by step, in terms of the tree, the draws and
//! the questions to the acceptance rule.

use crate::anneal::{
    annealed_by, annealing_step, annealing_trace, cheapest_at, first_cheapest, multi_annealed,
    multi_annealed_by, puts, run_log, step_log, verdict, Schedule, Uphill,
};
use crate::laws::{course_of, ends_of, lemma_run_log_prefix, lemma_trace_keeps, logs_of};
use crate::network::Net;
use crate::random::{drawn_from, Drawn};
use crate::ratio::Ratio;
use crate::rotation::{
    drawable, inner_children_of, lemma_pieces, pieces, proposal, rotation_log, Draw,
};
use crate::shape::{
    lemma_at, lemma_at_at, lemma_has_root, lemma_rotated, lemma_rotated_at, lemma_with, same_nodes,
    Shape,
};
use vstd::prelude::*;

verus! {

/// The candidates of a rotation are exactly the inner children of the node, left
/// or right, each once and the left one first.
pub proof fn law_candidates_are_the_inner_children(t: Shape)
    requires
        t.distinct(),
    ensures
        inner_children_of(t).no_duplicates(),
        t is Leaf ==> inner_children_of(t).len() == 0,
        t matches Shape::Node { left, right, .. } ==> {
            &&& inner_children_of(t).contains(left.id()) <==> *left is Node
            &&& inner_children_of(t).contains(right.id()) <==> *right is Node
            &&& forall|c: int| #[trigger]
                inner_children_of(t).contains(c) ==> c == left.id() || c == right.id()
            &&& *left is Node && *right is Node ==> inner_children_of(t)[0] == left.id()
                && inner_children_of(t)[1] == right.id()
        },
        forall|c: int| #[trigger] t.rotatable(c) <==> inner_children_of(t).contains(c),
{
    let cands = inner_children_of(t);
    if let Shape::Node { left, right, .. } = t {
        lemma_has_root(*left);
        lemma_has_root(*right);
        assert(left.id() != right.id());
        if *left is Node {
            assert(cands[0] == left.id());
        }
        if *right is Node {
            assert(cands[cands.len() - 1] == right.id());
        }
    }
}

/// A drawn node proposes nothing exactly where it is a leaf or both its children
/// are leaves.
pub proof fn law_nothing_is_proposed_without_inner_child(s: Shape, d: Draw)
    requires
        s.distinct(),
        drawable(s, d),
    ensures
        proposal(s, d) is None <==> match s.at(d.node) {
            Shape::Leaf { .. } => true,
            Shape::Node { left, right, .. } => *left is Leaf && *right is Leaf,
        },
        proposal(s, d) is None ==> rotation_log(s, d).len() == 1,
        proposal(s, d) is Some ==> rotation_log(s, d).len() == 3,
        rotation_log(s, d)[0] == (Drawn::Index { bound: s.size() as int, value: d.node }),
{
    lemma_at(s, d.node);
    law_candidates_are_the_inner_children(s.at(d.node));
    if let Shape::Node { left, right, .. } = s.at(d.node) {
        if *left is Node {
            assert(inner_children_of(s.at(d.node)).contains(left.id()));
        }
        if *right is Node {
            assert(inner_children_of(s.at(d.node)).contains(right.id()));
        }
        if *left is Leaf && *right is Leaf && inner_children_of(s.at(d.node)).len() > 0 {
            let c = inner_children_of(s.at(d.node))[0];
            assert(inner_children_of(s.at(d.node)).contains(c));
        }
    }
}

/// A rotation reassociates: of `n = (c, x)` and `c = (p, q)`, in either order,
/// it makes `n = (c, q)` and `c = (x, p)` where the left grandchild `p` stays, and
/// `n = (c, p)` and `c = (x, q)` where the right one does.
pub proof fn law_rotation_reassociates(n: int, c: int, p: Shape, q: Shape, x: Shape)
    requires
        x.id() != c,
    ensures
        ({
            let inner = Shape::Node { id: c, left: Box::new(p), right: Box::new(q) };
            let first = Shape::Node { id: n, left: Box::new(inner), right: Box::new(x) };
            let second = Shape::Node { id: n, left: Box::new(x), right: Box::new(inner) };
            let keep_p = Shape::Node { id: c, left: Box::new(x), right: Box::new(p) };
            let keep_q = Shape::Node { id: c, left: Box::new(x), right: Box::new(q) };
            let after_p = Shape::Node { id: n, left: Box::new(keep_p), right: Box::new(q) };
            let after_q = Shape::Node { id: n, left: Box::new(keep_q), right: Box::new(p) };
            &&& first.rotated(c, true) == after_p
            &&& first.rotated(c, false) == after_q
            &&& second.rotated(c, true) == after_p
            &&& second.rotated(c, false) == after_q
        }),
{
}

/// Whether two subtrees have the same root and name the same children, or the
/// same tensor.
pub open spec fn same_links(a: Shape, b: Shape) -> bool {
    match a {
        Shape::Leaf { .. } => a == b,
        Shape::Node { id, left, right } => b is Node && b.id() == id && b->Node_left.id()
            == left.id() && b->Node_right.id() == right.id(),
    }
}

proof fn lemma_with_links(s: Shape, i: int, t: Shape, j: int)
    requires
        s.distinct(),
        s.has(i),
        t.id() == i,
        t.distinct(),
        same_nodes(s.at(i), t),
        s.has(j),
        !s.at(i).has(j),
    ensures
        same_links(s.at(j), s.with(i, t).at(j)),
    decreases s,
{
    match s {
        Shape::Leaf { .. } => {},
        Shape::Node { id, left, right } => {
            if id != i {
                let (p, q) = if left.has(i) {
                    (*left, *right)
                } else {
                    (*right, *left)
                };
                lemma_with(p, i, t);
                assert(p.with(i, t).has(j) == p.has(j));
                if j != id && p.has(j) {
                    lemma_with_links(p, i, t, j);
                }
            }
        },
    }
}

/// A rotation rewires its two nodes and no other, and what it makes of them is
/// the reassociated subtree.
pub proof fn law_rotation_rewires_two_nodes(s: Shape, n: int, c: int, keep_left: bool, j: int)
    requires
        s.distinct(),
        s.has(n),
        s.at(n).rotatable(c),
        s.has(j),
    ensures
        s.rotated_at(n, c, keep_left).has(j),
        s.rotated_at(n, c, keep_left).at(n) == s.at(n).rotated(c, keep_left),
        j != n && j != c ==> same_links(s.at(j), s.rotated_at(n, c, keep_left).at(j)),
{
    let t = s.at(n);
    let r = t.rotated(c, keep_left);
    let s2 = s.rotated_at(n, c, keep_left);
    lemma_at(s, n);
    lemma_rotated(t, c, keep_left);
    lemma_rotated_at(s, n, c, keep_left);
    assert(s2.has(j));
    if j != n && j != c {
        if t.has(j) {
            lemma_at_at(s, n, j);
            assert(s2.has(n));
            assert(r.has(j));
            lemma_at_at(s2, n, j);
            lemma_pieces(t, c, keep_left);
            let (p, x, keep, mov) = pieces(t, c, keep_left);
            reveal_with_fuel(Shape::has, 3);
            reveal_with_fuel(Shape::at, 3);
            assert(x.has(j) || keep.has(j) || mov.has(j));
            assert(t.at(j) == r.at(j));
        } else {
            lemma_with_links(s, n, r, j);
        }
    }
}

/// A proposal that does not raise the cost is accepted unasked; any other is put
/// to the rule, with the number of the step, the schedule, both costs and the
/// drawn word, and the answer decides.
pub proof fn law_moves_are_accepted_by_cost_or_rule<F: Fn(&Uphill) -> bool>(
    rule: F,
    sched: Schedule,
    net: Net,
    k: int,
    a: Shape,
    b: Shape,
    word: u64,
    yes: bool,
)
    ensures
        b.cost(net) <= a.cost(net) ==> (verdict(rule, sched, net, k, a, b, word, yes) <==> yes),
        b.cost(net) > a.cost(net) ==> (verdict(rule, sched, net, k, a, b, word, yes) <==> exists|
            u: Uphill,
        |
            u.step == k && u.nsteps == sched.nsteps && u.t0 == sched.t0 && u.t1 == sched.t1
                && u.current@ == a.cost(net) && u.proposed@ == b.cost(net) && u.draw == word
                && #[trigger] call_ensures(rule, (&u,), yes)),
{
    if b.cost(net) > a.cost(net) {
        if verdict(rule, sched, net, k, a, b, word, yes) {
            let u = choose|u: Uphill|
                puts(u, sched, net, k, a, b, word) && #[trigger] call_ensures(rule, (&u,), yes);
            assert(u.step == k && call_ensures(rule, (&u,), yes));
        }
        if exists|u: Uphill|
            u.step == k && u.nsteps == sched.nsteps && u.t0 == sched.t0 && u.t1 == sched.t1
                && u.current@ == a.cost(net) && u.proposed@ == b.cost(net) && u.draw == word
                && #[trigger] call_ensures(rule, (&u,), yes) {
            let u = choose|u: Uphill|
                u.step == k && u.nsteps == sched.nsteps && u.t0 == sched.t0 && u.t1 == sched.t1
                    && u.current@ == a.cost(net) && u.proposed@ == b.cost(net) && u.draw == word
                    && #[trigger] call_ensures(rule, (&u,), yes);
            assert(puts(u, sched, net, k, a, b, word));
        }
    }
}

/// Whether a step, the `k`-th of a run, that writes `piece` to the log leads from
/// the tree `a` to the tree `e`. It draws one of the nodes. A leaf, and a node
/// over two leaves, leaves the tree as it is. Any other node has one of its inner
/// children and a coin drawn, and the tree that is rotated by them is proposed.
/// One that is no dearer is taken; for any other a word is drawn and the rule is
/// asked.
#[verifier::opaque]
pub open spec fn told_step<F: Fn(&Uphill) -> bool>(
    rule: F,
    nsteps: usize,
    t0: Ratio,
    t1: Ratio,
    net: Net,
    k: int,
    a: Shape,
    piece: Seq<Drawn>,
    e: Shape,
) -> bool {
    let n = piece[0]->value;
    &&& piece.len() >= 1
    &&& piece[0] == (Drawn::Index { bound: a.size() as int, value: n })
    &&& a.has(n)
    &&& match a.at(n) {
        Shape::Leaf { .. } => piece.len() == 1 && e == a,
        Shape::Node { left, right, .. } => if *left is Leaf && *right is Leaf {
            piece.len() == 1 && e == a
        } else {
            let both = *left is Node && *right is Node;
            let pick = piece[1]->value;
            let c = if *left is Node && (!both || pick == 0) {
                left.id()
            } else {
                right.id()
            };
            let b = a.rotated_at(n, c, piece[2]->heads);
            &&& piece.len() >= 3
            &&& piece[1] == (Drawn::Index {
                bound: if both {
                    2
                } else {
                    1
                },
                value: pick,
            })
            &&& 0 <= pick < if both {
                2int
            } else {
                1int
            }
            &&& piece[2] is Coin
            &&& if b.cost(net) <= a.cost(net) {
                piece.len() == 3 && e == b
            } else {
                &&& piece.len() == 4
                &&& piece[3] is Word
                &&& exists|u: Uphill, yes: bool|
                    u.step == k && u.nsteps == nsteps && u.t0 == t0 && u.t1 == t1 && u.current@
                        == a.cost(net) && u.proposed@ == b.cost(net) && u.draw == piece[3]->word
                        && #[trigger] call_ensures(rule, (&u,), yes) && e == if yes {
                        b
                    } else {
                        a
                    }
            }
        },
    }
}

proof fn lemma_told_step<F: Fn(&Uphill) -> bool>(
    rule: F,
    sched: Schedule,
    net: Net,
    k: int,
    a: Shape,
    d: Draw,
    e: Shape,
)
    requires
        a.distinct(),
        annealing_step(rule, sched, net, k, a, d, e),
    ensures
        told_step(
            rule,
            sched.nsteps,
            sched.t0,
            sched.t1,
            net,
            k,
            a,
            step_log(a, net, d),
            e,
        ),
{
    reveal(told_step);
    let piece = step_log(a, net, d);
    law_nothing_is_proposed_without_inner_child(a, d);
    lemma_at(a, d.node);
    let t = a.at(d.node);
    let cands = inner_children_of(t);
    law_candidates_are_the_inner_children(t);
    if let Some(b) = proposal(a, d) {
        let (left, right) = (*t->Node_left, *t->Node_right);
        let both = left is Node && right is Node;
        lemma_candidate_number(t);
        assert(cands[d.pick] == if left is Node && (!both || d.pick == 0) {
            left.id()
        } else {
            right.id()
        });
        assert(piece[2] == (Drawn::Coin { heads: d.keep_left }));
        let yes = choose|yes: bool| #[trigger]
            verdict(rule, sched, net, k, a, b, d.word, yes) && e == if yes {
                b
            } else {
                a
            };
        law_moves_are_accepted_by_cost_or_rule(rule, sched, net, k, a, b, d.word, yes);
        if b.cost(net) > a.cost(net) {
            assert(piece[3] == (Drawn::Word { word: d.word }));
        }
    }
}

proof fn lemma_candidate_number(t: Shape)
    requires
        t is Node,
        t.distinct(),
    ensures
        ({
            let (left, right) = (*t->Node_left, *t->Node_right);
            let cands = inner_children_of(t);
            &&& cands.len() == if left is Node && right is Node {
                2nat
            } else if left is Node || right is Node {
                1nat
            } else {
                0nat
            }
            &&& left is Node ==> cands[0] == left.id()
            &&& right is Node ==> cands[cands.len() - 1] == right.id()
        }),
{
}

/// Whether the `k`-th step of a course, with the log cut into steps at `cuts`, is
/// as told.
pub open spec fn told_at<F: Fn(&Uphill) -> bool>(
    rule: F,
    nsteps: usize,
    t0: Ratio,
    t1: Ratio,
    net: Net,
    log: Seq<Drawn>,
    trace: Seq<Shape>,
    cuts: Seq<int>,
    k: int,
) -> bool {
    &&& 0 <= cuts[k - 1] <= cuts[k] <= log.len()
    &&& told_step(
        rule,
        nsteps,
        t0,
        t1,
        net,
        k,
        trace[k - 1],
        log.subrange(cuts[k - 1], cuts[k]),
        trace[k],
    )
}

/// Whether a run of `nsteps` steps from `start` that writes `log` has the course
/// `trace`, cut into steps at `cuts`, and ends with `e`: the steps are numbered
/// from one on, and `e` is the first tree of the course that none undercuts.
pub open spec fn told_run<F: Fn(&Uphill) -> bool>(
    rule: F,
    nsteps: usize,
    t0: Ratio,
    t1: Ratio,
    net: Net,
    start: Shape,
    log: Seq<Drawn>,
    e: Shape,
    trace: Seq<Shape>,
    cuts: Seq<int>,
) -> bool {
    &&& trace.len() == nsteps + 1
    &&& trace[0] == start
    &&& cuts.len() == nsteps + 1
    &&& cuts[0] == 0
    &&& cuts[nsteps as int] == log.len()
    &&& forall|k: int|
        1 <= k <= nsteps ==> #[trigger] told_at(rule, nsteps, t0, t1, net, log, trace, cuts, k)
    &&& exists|i: int|
        0 <= i <= nsteps && #[trigger] trace[i] == e && forall|j: int|
            0 <= j <= nsteps ==> e.cost(net) <= (#[trigger] trace[j]).cost(net) && (j < i
                ==> e.cost(net) < trace[j].cost(net))
}

proof fn lemma_told_piece<F: Fn(&Uphill) -> bool>(
    rule: F,
    sched: Schedule,
    net: Net,
    draws: Seq<Draw>,
    trace: Seq<Shape>,
    k: int,
)
    requires
        annealing_trace(rule, sched, net, draws, trace),
        trace.len() == sched.nsteps + 1,
        trace[0].distinct(),
        1 <= k <= sched.nsteps,
    ensures
        ({
            let log = run_log(net, draws, trace, sched.nsteps as int);
            let from = run_log(net, draws, trace, k - 1).len() as int;
            let to = run_log(net, draws, trace, k).len() as int;
            &&& 0 <= from <= to <= log.len()
            &&& told_step(
                rule,
                sched.nsteps,
                sched.t0,
                sched.t1,
                net,
                k,
                trace[k - 1],
                log.subrange(from, to),
                trace[k],
            )
        }),
{
    let log = run_log(net, draws, trace, sched.nsteps as int);
    assert(annealing_step(rule, sched, net, k, trace[k - 1], draws[k - 1], trace[k]));
    lemma_trace_keeps(rule, sched, net, draws, trace, k - 1);
    lemma_told_step(rule, sched, net, k, trace[k - 1], draws[k - 1], trace[k]);
    lemma_run_log_prefix(net, draws, trace, k, sched.nsteps as int);
    let p = run_log(net, draws, trace, k - 1);
    let x = step_log(trace[k - 1], net, draws[k - 1]);
    let q = run_log(net, draws, trace, k);
    assert(q == p + x);
    let piece = log.subrange(p.len() as int, q.len() as int);
    assert forall|i: int| 0 <= i < x.len() implies piece[i] == x[i] by {
        assert(q[p.len() + i] == x[i]);
        assert(log[p.len() + i] == q[p.len() + i]);
    }
    assert(piece =~= x);
}

/// A run goes step by step: in the `k`-th step, `k` from one to the number of
/// steps, the rule is asked with the number `k`, the schedule of the run, the
/// costs of the tree and of the proposed tree, and the word drawn for it; a move
/// that does not raise the cost is taken; and the run ends with the first tree
/// that none on its course undercuts.
pub proof fn law_a_run_goes_step_by_step<F: Fn(&Uphill) -> bool>(
    rule: F,
    sched: Schedule,
    net: Net,
    start: Shape,
    log: Seq<Drawn>,
    e: Shape,
)
    requires
        start.distinct(),
        annealed_by(rule, sched, net, start, log, e),
    ensures
        exists|trace: Seq<Shape>, cuts: Seq<int>| #[trigger]
            told_run(
                rule,
                sched.nsteps,
                sched.t0,
                sched.t1,
                net,
                start,
                log,
                e,
                trace,
                cuts,
            ),
{
    let (draws, trace) = course_of(rule, sched, net, start, log, e);
    let n = sched.nsteps as int;
    let cuts = Seq::new((n + 1) as nat, |k: int| run_log(net, draws, trace, k).len() as int);
    assert forall|k: int| 1 <= k <= n implies #[trigger] told_at(
        rule,
        sched.nsteps,
        sched.t0,
        sched.t1,
        net,
        log,
        trace,
        cuts,
        k,
    ) by {
        lemma_told_piece(rule, sched, net, draws, trace, k);
    }
    let i = choose|i: int|
        0 <= i < trace.len() && #[trigger] trace[i] == e && cheapest_at(trace, net, i);
    assert forall|j: int| 0 <= j <= n implies e.cost(net) <= (#[trigger] trace[j]).cost(net) && (j
        < i ==> e.cost(net) < trace[j].cost(net)) by {}
    assert(trace[i] == e);
    assert(told_run(
        rule,
        sched.nsteps,
        sched.t0,
        sched.t1,
        net,
        start,
        log,
        e,
        trace,
        cuts,
    ));
}

/// With a rule that goes by a function of what it is asked, an uphill move in the
/// `k`-th step is taken exactly where that function says yes to `k`, the schedule,
/// the two costs and the drawn word; every other move is taken in any case.
pub proof fn law_uphill_moves_go_by_the_rule<F: Fn(&Uphill) -> bool>(
    rule: F,
    answer: spec_fn(int, int, Ratio, Ratio, nat, nat, u64) -> bool,
    sched: Schedule,
    net: Net,
    k: int,
    a: Shape,
    d: Draw,
    b: Shape,
    e: Shape,
)
    requires
        forall|u: Uphill, yes: bool| #[trigger]
            call_ensures(rule, (&u,), yes) ==> yes == answer(
                u.step as int,
                u.nsteps as int,
                u.t0,
                u.t1,
                u.current@,
                u.proposed@,
                u.draw,
            ),
        annealing_step(rule, sched, net, k, a, d, e),
        proposal(a, d) == Some(b),
    ensures
        e == if b.cost(net) <= a.cost(net) || answer(
            k,
            sched.nsteps as int,
            sched.t0,
            sched.t1,
            a.cost(net),
            b.cost(net),
            d.word,
        ) {
            b
        } else {
            a
        },
{
    let yes = choose|yes: bool| #[trigger]
        verdict(rule, sched, net, k, a, b, d.word, yes) && e == if yes {
            b
        } else {
            a
        };
    law_moves_are_accepted_by_cost_or_rule(rule, sched, net, k, a, b, d.word, yes);
}

/// Whether two rules give the same answers to the questions that a run on the
/// schedule `(nsteps, t0, t1)` can put: steps from one to `nsteps`, on that
/// schedule, towards a higher cost.
pub open spec fn answer_alike<F: Fn(&Uphill) -> bool, G: Fn(&Uphill) -> bool>(
    f: F,
    g: G,
    nsteps: usize,
    t0: Ratio,
    t1: Ratio,
) -> bool {
    forall|u: Uphill, yes: bool|
        #![trigger call_ensures(f, (&u,), yes)]
        #![trigger call_ensures(g, (&u,), yes)]
        1 <= u.step <= nsteps && u.nsteps == nsteps && u.t0 == t0 && u.t1 == t1 && u.current@
            < u.proposed@ ==> (call_ensures(f, (&u,), yes) <==> call_ensures(g, (&u,), yes))
}

proof fn lemma_run_by_answers<F: Fn(&Uphill) -> bool, G: Fn(&Uphill) -> bool>(
    f: F,
    g: G,
    sched: Schedule,
    net: Net,
    start: Shape,
    log: Seq<Drawn>,
    e: Shape,
)
    requires
        answer_alike(f, g, sched.nsteps, sched.t0, sched.t1),
        annealed_by(f, sched, net, start, log, e),
    ensures
        annealed_by(g, sched, net, start, log, e),
{
    let (draws, trace) = course_of(f, sched, net, start, log, e);
    assert forall|k: int|
        #![trigger trace[k]]
        1 <= k < trace.len() implies annealing_step(
        g,
        sched,
        net,
        k,
        trace[k - 1],
        draws[k - 1],
        trace[k],
    ) by {
        let (a, d) = (trace[k - 1], draws[k - 1]);
        assert(annealing_step(f, sched, net, k, a, d, trace[k]));
        if let Some(b) = proposal(a, d) {
            let yes = choose|yes: bool| #[trigger]
                verdict(f, sched, net, k, a, b, d.word, yes) && trace[k] == if yes {
                    b
                } else {
                    a
                };
            if b.cost(net) > a.cost(net) {
                let u = choose|u: Uphill|
                    puts(u, sched, net, k, a, b, d.word) && #[trigger] call_ensures(f, (&u,), yes);
                assert(call_ensures(g, (&u,), yes));
            }
            assert(verdict(g, sched, net, k, a, b, d.word, yes));
        }
    }
    assert(annealing_trace(g, sched, net, draws, trace));
}

proof fn lemma_runs_by_answers<F: Fn(&Uphill) -> bool, G: Fn(&Uphill) -> bool>(
    f: F,
    g: G,
    sched: Schedule,
    net: Net,
    seeds: Seq<u64>,
    start: Shape,
    e: Shape,
)
    requires
        answer_alike(f, g, sched.nsteps, sched.t0, sched.t1),
        multi_annealed(f, sched, net, seeds, start, e),
    ensures
        multi_annealed(g, sched, net, seeds, start, e),
{
    reveal(multi_annealed);
    let logs = logs_of(f, sched, net, seeds, start, e);
    if seeds.len() > 0 {
        let ends = ends_of(f, sched, net, start, logs, e);
        assert forall|i: int| 0 <= i < logs.len() implies annealed_by(
            g,
            sched,
            net,
            start,
            logs[i],
            #[trigger] ends[i],
        ) by {
            assert(annealed_by(f, sched, net, start, logs[i], ends[i]));
            lemma_run_by_answers(f, g, sched, net, start, logs[i], ends[i]);
        }
        assert(first_cheapest(ends, net, e));
    }
    assert(multi_annealed_by(g, sched, net, start, logs, e));
}

/// A rule matters for runs by its answers on their own schedule alone: rules that
/// answer alike for the steps from one to the number of steps, with the two
/// temperatures of the schedule, lead to the same results.
pub proof fn law_runs_ask_on_their_schedule<F: Fn(&Uphill) -> bool, G: Fn(&Uphill) -> bool>(
    f: F,
    g: G,
    nsteps: usize,
    t0: Ratio,
    t1: Ratio,
    net: Net,
    seeds: Seq<u64>,
    start: Shape,
    e: Shape,
)
    requires
        answer_alike(f, g, nsteps, t0, t1),
    ensures
        multi_annealed(f, (Schedule { nsteps, t0, t1 }), net, seeds, start, e) <==> multi_annealed(
            g,
            (Schedule { nsteps, t0, t1 }),
            net,
            seeds,
            start,
            e,
        ),
{
    let sched = Schedule { nsteps, t0, t1 };
    if multi_annealed(f, sched, net, seeds, start, e) {
        lemma_runs_by_answers(f, g, sched, net, seeds, start, e);
    }
    if multi_annealed(g, sched, net, seeds, start, e) {
        lemma_runs_by_answers(g, f, sched, net, seeds, start, e);
    }
}

/// Whether a run with draws from the seed ends with `e`.
pub open spec fn from_seed<F: Fn(&Uphill) -> bool>(
    rule: F,
    sched: Schedule,
    net: Net,
    seed: u64,
    start: Shape,
    e: Shape,
) -> bool {
    exists|log: Seq<Drawn>|
        drawn_from(seed, log) && #[trigger] annealed_by(rule, sched, net, start, log, e)
}

/// Whether runs from `start`, one per seed, each with draws from its seed, end
/// with `ends`, and the `j`-th of these is the first that none undercuts.
pub open spec fn told_runs<F: Fn(&Uphill) -> bool>(
    rule: F,
    sched: Schedule,
    net: Net,
    seeds: Seq<u64>,
    start: Shape,
    ends: Seq<Shape>,
    j: int,
) -> bool {
    &&& ends.len() == seeds.len()
    &&& 0 <= j < seeds.len()
    &&& forall|i: int|
        0 <= i < seeds.len() ==> from_seed(rule, sched, net, seeds[i], start, #[trigger] ends[i])
    &&& forall|i: int|
        0 <= i < seeds.len() ==> ends[j].cost(net) <= (#[trigger] ends[i]).cost(net) && (i < j
            ==> ends[j].cost(net) < ends[i].cost(net))
}

/// Several runs are one run per seed, in their order, each from the start and
/// with draws from its own seed; they end with the first result that none of
/// them undercuts. Without a seed the start stays.
pub proof fn law_runs_are_one_per_seed<F: Fn(&Uphill) -> bool>(
    rule: F,
    sched: Schedule,
    net: Net,
    seeds: Seq<u64>,
    start: Shape,
    e: Shape,
)
    requires
        multi_annealed(rule, sched, net, seeds, start, e),
    ensures
        seeds.len() == 0 ==> e == start,
        seeds.len() > 0 ==> exists|ends: Seq<Shape>, j: int| #[trigger]
            told_runs(rule, sched, net, seeds, start, ends, j) && ends[j] == e,
{
    reveal(multi_annealed);
    let logs = logs_of(rule, sched, net, seeds, start, e);
    if seeds.len() > 0 {
        let ends = ends_of(rule, sched, net, start, logs, e);
        let j = choose|j: int|
            0 <= j < ends.len() && #[trigger] ends[j] == e && cheapest_at(ends, net, j);
        assert forall|i: int| 0 <= i < seeds.len() implies from_seed(
            rule,
            sched,
            net,
            seeds[i],
            start,
            #[trigger] ends[i],
        ) by {
            assert(drawn_from(seeds[i], logs[i]));
            assert(annealed_by(rule, sched, net, start, logs[i], ends[i]));
        }
        assert forall|i: int| 0 <= i < seeds.len() implies ends[j].cost(net) <= (
        #[trigger] ends[i]).cost(net) && (i < j ==> ends[j].cost(net) < ends[i].cost(net)) by {}
        assert(told_runs(rule, sched, net, seeds, start, ends, j));
    }
}

} // verus!
