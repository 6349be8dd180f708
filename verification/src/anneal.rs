//! Simulated annealing over rotations.

use crate::laws::law_annealed_cost_is_positive;
use crate::natural::Natural;
use crate::network::Net;
use crate::random::{drawn_from, Drawn, Source};
use crate::ratio::Ratio;
use crate::rotation::{
    drawable, proposal, rotation_draw, rotation_log, Draw, Rotation, RotationScratch,
};
use crate::shape::Shape;
use crate::tree::{GreenTree, TreeSnapshot};
use vstd::prelude::*;

verus! {

/// A proposed move that would raise the cost, put to the acceptance rule.
///
/// The temperature falls from `t0` to `t1` over the steps `1..=nsteps`. The
/// draw is uniform over all words.
#[derive(Debug)]
pub struct Uphill {
    /// The step, counted from one.
    pub step: usize,
    /// The number of steps.
    pub nsteps: usize,
    /// The temperature at the start.
    pub t0: Ratio,
    /// The temperature at the end.
    pub t1: Ratio,
    /// The cost of the tree.
    pub current: Natural,
    /// The cost of the proposed tree.
    pub proposed: Natural,
    /// A random word.
    pub draw: u64,
}

/// The schedule of one annealing run.
#[derive(Debug)]
pub struct Schedule {
    /// The number of steps.
    pub nsteps: usize,
    /// The temperature at the start.
    pub t0: Ratio,
    /// The temperature at the end.
    pub t1: Ratio,
}

/// Whether `u` puts the step `k` of a run from `a` to the proposed tree `b`,
/// with the drawn word.
pub open spec fn puts(
    u: Uphill,
    sched: Schedule,
    net: Net,
    k: int,
    a: Shape,
    b: Shape,
    word: u64,
) -> bool {
    &&& u.step == k
    &&& u.nsteps == sched.nsteps
    &&& u.t0 == sched.t0
    &&& u.t1 == sched.t1
    &&& u.current@ == a.cost(net)
    &&& u.proposed@ == b.cost(net)
    &&& u.draw == word
}

/// Whether a step may answer the proposal to go from `a` to `b` with `yes`: a
/// proposal that does not raise the cost is accepted, any other is left to the
/// rule.
pub open spec fn verdict<F: Fn(&Uphill) -> bool>(
    rule: F,
    sched: Schedule,
    net: Net,
    k: int,
    a: Shape,
    b: Shape,
    word: u64,
    yes: bool,
) -> bool {
    if b.cost(net) <= a.cost(net) {
        yes
    } else {
        exists|u: Uphill|
            puts(u, sched, net, k, a, b, word) && #[trigger] call_ensures(rule, (&u,), yes)
    }
}

/// Whether a step that proposes to go from `a` to `b` ends at `e`: at `b` where
/// it accepts, else at `a`.
pub open spec fn decided<F: Fn(&Uphill) -> bool>(
    rule: F,
    sched: Schedule,
    net: Net,
    k: int,
    a: Shape,
    b: Shape,
    word: u64,
    e: Shape,
) -> bool {
    exists|yes: bool| #[trigger]
        verdict(rule, sched, net, k, a, b, word, yes) && e == if yes {
            b
        } else {
            a
        }
}

/// Whether the step `k` of a run leads from `a` to `e` with the draws `d`: the
/// drawn node has no inner child and nothing happens, or a rotation is proposed
/// and decided.
pub open spec fn annealing_step<F: Fn(&Uphill) -> bool>(
    rule: F,
    sched: Schedule,
    net: Net,
    k: int,
    a: Shape,
    d: Draw,
    e: Shape,
) -> bool {
    &&& drawable(a, d)
    &&& match proposal(a, d) {
        None => e == a,
        Some(b) => decided(rule, sched, net, k, a, b, d.word, e),
    }
}

/// Whether `trace` is the course of a run with the draws `draws`, step by step.
pub open spec fn annealing_trace<F: Fn(&Uphill) -> bool>(
    rule: F,
    sched: Schedule,
    net: Net,
    draws: Seq<Draw>,
    trace: Seq<Shape>,
) -> bool {
    &&& trace.len() == draws.len() + 1
    &&& forall|k: int|
        #![trigger trace[k]]
        1 <= k < trace.len() ==> annealing_step(
            rule,
            sched,
            net,
            k,
            trace[k - 1],
            draws[k - 1],
            trace[k],
        )
}

/// What a step from the tree `s` with the draws `d` writes to the log: the draws
/// of the proposal, and the word where it raises the cost.
pub open spec fn step_log(s: Shape, net: Net, d: Draw) -> Seq<Drawn> {
    match proposal(s, d) {
        Some(b) => if b.cost(net) > s.cost(net) {
            rotation_log(s, d).push(Drawn::Word { word: d.word })
        } else {
            rotation_log(s, d)
        },
        None => rotation_log(s, d),
    }
}

/// What the first `k` steps of a course write to the log.
pub open spec fn run_log(net: Net, draws: Seq<Draw>, trace: Seq<Shape>, k: int) -> Seq<Drawn>
    decreases k,
{
    if k <= 0 {
        Seq::empty()
    } else {
        run_log(net, draws, trace, k - 1) + step_log(trace[k - 1], net, draws[k - 1])
    }
}

/// Whether `e` is the first of the cheapest trees of a sequence.
pub open spec fn first_cheapest(trees: Seq<Shape>, net: Net, e: Shape) -> bool {
    exists|i: int|
        0 <= i < trees.len() && #[trigger] trees[i] == e && cheapest_at(trees, net, i)
}

/// Whether the tree at `i` is cheaper than those before it and no dearer than
/// those behind it.
pub open spec fn cheapest_at(trees: Seq<Shape>, net: Net, i: int) -> bool {
    forall|j: int|
        0 <= j < trees.len() ==> if j < i {
            trees[i].cost(net) < (#[trigger] trees[j]).cost(net)
        } else {
            trees[i].cost(net) <= trees[j].cost(net)
        }
}

/// Whether a run from `start` that writes the log `log` ends with the tree `e`:
/// the first of the cheapest trees on its course.
pub open spec fn annealed_by<F: Fn(&Uphill) -> bool>(
    rule: F,
    sched: Schedule,
    net: Net,
    start: Shape,
    log: Seq<Drawn>,
    e: Shape,
) -> bool {
    exists|draws: Seq<Draw>, trace: Seq<Shape>|
        #![trigger annealing_trace(rule, sched, net, draws, trace)]
        trace.len() == sched.nsteps + 1 && trace[0] == start && annealing_trace(
            rule,
            sched,
            net,
            draws,
            trace,
        ) && log == run_log(net, draws, trace, sched.nsteps as int) && first_cheapest(
            trace,
            net,
            e,
        )
}

/// Whether a run from `start` that draws from a source with the given seed ends
/// with the tree `e`.
pub open spec fn annealed<F: Fn(&Uphill) -> bool>(
    rule: F,
    sched: Schedule,
    net: Net,
    seed: u64,
    start: Shape,
    e: Shape,
) -> bool {
    exists|log: Seq<Drawn>|
        drawn_from(seed, log) && #[trigger] annealed_by(rule, sched, net, start, log, e)
}

/// Whether runs from `start`, one after the other, each with its own log, end
/// with the tree `e`: the first of the cheapest of their results, or `start`
/// without a run.
pub open spec fn multi_annealed_by<F: Fn(&Uphill) -> bool>(
    rule: F,
    sched: Schedule,
    net: Net,
    start: Shape,
    logs: Seq<Seq<Drawn>>,
    e: Shape,
) -> bool {
    if logs.len() == 0 {
        e == start
    } else {
        exists|ends: Seq<Shape>|
            #![trigger first_cheapest(ends, net, e)]
            ends.len() == logs.len() && (forall|i: int|
                0 <= i < logs.len() ==> annealed_by(
                    rule,
                    sched,
                    net,
                    start,
                    logs[i],
                    #[trigger] ends[i],
                )) && first_cheapest(ends, net, e)
    }
}

/// Whether runs from `start`, one per seed, each drawing from a source with its
/// seed, end with the tree `e`.
#[verifier::opaque]
pub open spec fn multi_annealed<F: Fn(&Uphill) -> bool>(
    rule: F,
    sched: Schedule,
    net: Net,
    seeds: Seq<u64>,
    start: Shape,
    e: Shape,
) -> bool {
    exists|logs: Seq<Seq<Drawn>>|
        logs.len() == seeds.len() && (forall|i: int|
            0 <= i < seeds.len() ==> drawn_from(seeds[i], #[trigger] logs[i]))
            && #[trigger] multi_annealed_by(rule, sched, net, start, logs, e)
}

proof fn lemma_multi_annealed<F: Fn(&Uphill) -> bool>(
    rule: F,
    sched: Schedule,
    net: Net,
    seeds: Seq<u64>,
    start: Shape,
    ends: Seq<Shape>,
    e: Shape,
)
    requires
        ends.len() == seeds.len(),
        forall|i: int|
            0 <= i < ends.len() ==> annealed(rule, sched, net, seeds[i], start, #[trigger] ends[i]),
        ends.len() > 0 ==> first_cheapest(ends, net, e),
        ends.len() == 0 ==> e == start,
    ensures
        multi_annealed(rule, sched, net, seeds, start, e),
{
    reveal(multi_annealed);
    let logs = Seq::new(
        ends.len(),
        |i: int|
            choose|log: Seq<Drawn>|
                drawn_from(seeds[i], log) && #[trigger] annealed_by(
                    rule,
                    sched,
                    net,
                    start,
                    log,
                    ends[i],
                ),
    );
    assert forall|i: int| 0 <= i < logs.len() implies annealed_by(
        rule,
        sched,
        net,
        start,
        logs[i],
        #[trigger] ends[i],
    ) && drawn_from(seeds[i], logs[i]) by {
        assert(annealed(rule, sched, net, seeds[i], start, ends[i]));
    }
    assert forall|i: int| 0 <= i < seeds.len() implies drawn_from(seeds[i], #[trigger] logs[i]) by {
        assert(annealed_by(rule, sched, net, start, logs[i], ends[i]));
    }
    assert(multi_annealed_by(rule, sched, net, start, logs, e));
}

proof fn lemma_run_log_push(
    net: Net,
    draws: Seq<Draw>,
    trace: Seq<Shape>,
    d: Draw,
    e: Shape,
    k: int,
)
    requires
        0 <= k <= draws.len(),
        trace.len() == draws.len() + 1,
    ensures
        run_log(net, draws.push(d), trace.push(e), k) == run_log(net, draws, trace, k),
    decreases k,
{
    if k > 0 {
        lemma_run_log_push(net, draws, trace, d, e, k - 1);
        assert(draws.push(d)[k - 1] == draws[k - 1]);
        assert(trace.push(e)[k - 1] == trace[k - 1]);
    }
}

/// The cheapest tree of a longer sequence.
proof fn lemma_cheapest_push(trees: Seq<Shape>, net: Net, i: int, e: Shape)
    requires
        0 <= i < trees.len(),
        cheapest_at(trees, net, i),
    ensures
        e.cost(net) < trees[i].cost(net) ==> cheapest_at(trees.push(e), net, trees.len() as int),
        e.cost(net) >= trees[i].cost(net) ==> cheapest_at(trees.push(e), net, i),
{
    let t = trees.push(e);
    assert(t[trees.len() as int] == e);
    assert(t[i] == trees[i]);
    assert forall|j: int| 0 <= j < trees.len() implies #[trigger] t[j] == trees[j] by {}
    if e.cost(net) < trees[i].cost(net) {
        let m = trees.len() as int;
        assert forall|j: int| 0 <= j < t.len() implies if j < m {
            t[m].cost(net) < (#[trigger] t[j]).cost(net)
        } else {
            t[m].cost(net) <= t[j].cost(net)
        } by {
            if j < m {
                assert(t[j] == trees[j]);
                assert(trees[i].cost(net) <= trees[j].cost(net));
            }
        }
    } else {
        assert forall|j: int| 0 <= j < t.len() implies if j < i {
            t[i].cost(net) < (#[trigger] t[j]).cost(net)
        } else {
            t[i].cost(net) <= t[j].cost(net)
        } by {
            if j < trees.len() {
                assert(t[j] == trees[j]);
            }
        }
    }
}

/// The course of a longer run.
proof fn lemma_trace_push<F: Fn(&Uphill) -> bool>(
    rule: F,
    sched: Schedule,
    net: Net,
    draws: Seq<Draw>,
    trace: Seq<Shape>,
    d: Draw,
    e: Shape,
)
    requires
        annealing_trace(rule, sched, net, draws, trace),
        annealing_step(rule, sched, net, trace.len() as int, trace.last(), d, e),
    ensures
        annealing_trace(rule, sched, net, draws.push(d), trace.push(e)),
        run_log(net, draws.push(d), trace.push(e), trace.len() as int) == run_log(
            net,
            draws,
            trace,
            draws.len() as int,
        ) + step_log(trace.last(), net, d),
{
    let t = trace.push(e);
    let ds = draws.push(d);
    lemma_run_log_push(net, draws, trace, d, e, draws.len() as int);
    assert(t[draws.len() as int] == trace.last());
    assert forall|k: int|
        #![trigger t[k]]
        1 <= k < t.len() implies annealing_step(
        rule,
        sched,
        net,
        k,
        t[k - 1],
        ds[k - 1],
        t[k],
    ) by {
        assert(t[k - 1] == trace[k - 1]);
        if k < trace.len() {
            assert(t[k] == trace[k]);
        }
    }
}

/// Where a run stands: the cost of its tree, and the cheapest tree so far.
pub struct Course {
    /// The cost of the tree.
    pub cur: Natural,
    /// The cost of the cheapest tree so far.
    pub best: Natural,
    /// The cheapest tree so far.
    pub best_snap: TreeSnapshot,
}

impl GreenTree {
    /// Ends a step whose rotation has been made: keeps the tree where the
    /// rotation is accepted, and notes it where it is cheaper than all before;
    /// else puts the tree back.
    pub fn conclude(
        &mut self,
        course: &mut Course,
        next: Natural,
        rot: &Rotation,
        scratch: &mut RotationScratch,
        accepted: bool,
    )
        requires
            rot.in_range(old(self)@),
            old(scratch).old_counts_c@.len() == old(self).net.nlabels,
        ensures
            final(self).tensoridx == old(self).tensoridx,
            final(self).net == old(self).net,
            *final(scratch) == *old(scratch),
            accepted ==> {
                &&& *final(self) == *old(self)
                &&& final(course).cur@ == next@
                &&& if next@ < old(course).best@ {
                    final(course).best@ == next@ && final(course).best_snap@ == old(self)@.links
                } else {
                    final(course).best@ == old(course).best@ && final(course).best_snap@ == old(
                        course,
                    ).best_snap@
                }
            },
            !accepted ==> {
                &&& final(self)@ == rot.undone(old(scratch).old_counts_c@, old(self)@)
                &&& final(course).cur@ == old(course).cur@
                &&& final(course).best@ == old(course).best@
                &&& final(course).best_snap@ == old(course).best_snap@
            },
    {
        if accepted {
            if next.less_than(&course.best) {
                course.best = next.clone();
                course.best_snap = self.snapshot();
            }
            course.cur = next;
        } else {
            self.undo(rot, scratch);
        }
    }

    /// Decides on a rotation that has been made, with the drawn word, and ends
    /// the step: a rotation that does not raise the cost is accepted, any other
    /// is put to the rule `uphill`. Tells whether it was accepted.
    pub fn settle<F: Fn(&Uphill) -> bool>(
        &mut self,
        course: &mut Course,
        rot: &Rotation,
        scratch: &mut RotationScratch,
        step: usize,
        nsteps: usize,
        t0: Ratio,
        t1: Ratio,
        word: u64,
        uphill: &F,
    ) -> (accepted: bool)
        requires
            old(self).wf(),
            rot.in_range(old(self)@),
            old(scratch).old_counts_c@.len() == old(self).net.nlabels,
            rot.undone(old(scratch).old_counts_c@, old(self)@).wf(old(self).net@),
            rot.delta@ == old(self)@.shape().cost(old(self).net@) - rot.before@.cost(
                old(self).net@,
            ),
            old(course).cur@ == rot.before@.cost(old(self).net@),
            forall|u: Uphill| #[trigger] call_requires(*uphill, (&u,)),
        ensures
            final(self).wf(),
            final(self).tensoridx == old(self).tensoridx,
            final(self).net == old(self).net,
            *final(scratch) == *old(scratch),
            verdict(
                *uphill,
                (Schedule { nsteps, t0, t1 }),
                old(self).net@,
                step as int,
                rot.before@,
                old(self)@.shape(),
                word,
                accepted,
            ),
            old(self)@.shape().cost(old(self).net@) <= rot.before@.cost(old(self).net@) ==> accepted,
            old(self)@.shape().cost(old(self).net@) > rot.before@.cost(old(self).net@) ==> exists|
                u: Uphill,
            |
                u.step == step && u.nsteps == nsteps && u.t0 == t0 && u.t1 == t1 && u.current@
                    == rot.before@.cost(old(self).net@) && u.proposed@ == old(self)@.shape().cost(
                    old(self).net@,
                ) && u.draw == word && #[trigger] call_ensures(*uphill, (&u,), accepted),
            decided(
                *uphill,
                (Schedule { nsteps, t0, t1 }),
                old(self).net@,
                step as int,
                rot.before@,
                old(self)@.shape(),
                word,
                final(self)@.shape(),
            ),
            final(self)@ == if accepted {
                old(self)@
            } else {
                rot.undone(old(scratch).old_counts_c@, old(self)@)
            },
            final(course).cur@ == final(self)@.shape().cost(old(self).net@),
            if accepted && final(course).cur@ < old(course).best@ {
                &&& final(course).best@ == final(course).cur@
                &&& final(course).best_snap@ == final(self)@.links
            } else {
                &&& final(course).best@ == old(course).best@
                &&& final(course).best_snap@ == old(course).best_snap@
            },
    {
        let ghost sched = Schedule { nsteps, t0, t1 };
        let ghost net = self.net@;
        let ghost a = rot.before@;
        let ghost b = self@.shape();
        let mut next: Natural = rot.delta.applied_to(&course.cur);
        let mut accepted: bool = true;
        if rot.delta.is_positive() {
            let put = Uphill {
                step,
                nsteps,
                t0,
                t1,
                current: course.cur.clone(),
                proposed: next,
                draw: word,
            };
            assert(puts(put, sched, net, step as int, a, b, word));
            accepted = uphill(&put);
            assert(call_ensures(*uphill, (&put,), accepted));
            next = put.proposed;
        }
        assert(verdict(*uphill, sched, net, step as int, a, b, word, accepted));
        self.conclude(course, next, rot, scratch, accepted);
        accepted
    }

    /// One annealing run over `nsteps` steps with the temperature falling from
    /// `t0` to `t1`; ends at the cheapest tree on its course and gives its cost.
    ///
    /// Each step proposes a rotation drawn from the source. One that does not
    /// raise the cost is taken; any other is put to the rule `uphill` with a
    /// drawn word, and undone where the rule says no.
    pub fn anneal_with<F: Fn(&Uphill) -> bool>(
        &mut self,
        nsteps: usize,
        t0: Ratio,
        t1: Ratio,
        source: &mut Source,
        uphill: &F,
    ) -> (r: Natural)
        requires
            old(self).wf(),
            old(self)@.shape() is Node,
            forall|u: Uphill| #[trigger] call_requires(*uphill, (&u,)),
        ensures
            final(self).wf(),
            final(self).tensoridx == old(self).tensoridx,
            final(self).net == old(self).net,
            final(source).seed() == old(source).seed(),
            drawn_from(final(source).seed(), final(source).log()),
            final(source).log() == old(source).log() + final(source).log().skip(
                old(source).log().len() as int,
            ),
            annealed_by(
                *uphill,
                (Schedule { nsteps, t0, t1 }),
                old(self).net@,
                old(self)@.shape(),
                final(source).log().skip(old(source).log().len() as int),
                final(self)@.shape(),
            ),
            r@ == final(self)@.shape().cost(final(self).net@),
            r@ <= old(self)@.shape().cost(old(self).net@),
            old(self).net@.positive() ==> r@ > 0,
    {
        let ghost sched = Schedule { nsteps, t0, t1 };
        let ghost net = self.net@;
        let ghost fixed = self.net;
        let ghost tens = self.tensoridx;
        let ghost start = self.shape@;
        let ghost seed = source.seed();
        let ghost log0 = source.log();
        source.vouch();
        let mut scratch = RotationScratch::new(self.net.nlabels);
        let cost: Natural = self.total_cost();
        let mut course = Course { cur: cost.clone(), best: cost, best_snap: self.snapshot() };
        let ghost mut draws: Seq<Draw> = Seq::empty();
        let ghost mut trace: Seq<Shape> = seq![start];
        let ghost mut at: int = 0;
        let mut k: usize = 0;
        assert(log0 + run_log(net, draws, trace, 0) =~= log0);
        while k < nsteps
            invariant
                k <= nsteps,
                sched == (Schedule { nsteps, t0, t1 }),
                forall|u: Uphill| #[trigger] call_requires(*uphill, (&u,)),
                self.wf(),
                self.net == fixed,
                self.net@ == net,
                self.tensoridx == tens,
                course.best_snap@.wf(tens@, net),
                source.seed() == seed,
                drawn_from(seed, source.log()),
                source.log() == log0 + run_log(net, draws, trace, k as int),
                trace.len() == k + 1,
                trace[0] == start,
                trace.last() == self.shape@,
                annealing_trace(*uphill, sched, net, draws, trace),
                0 <= at < trace.len(),
                trace[at] == course.best_snap@.shape,
                cheapest_at(trace, net, at),
                course.cur@ == self.shape@.cost(net),
                course.best@ == course.best_snap@.shape.cost(net),
            decreases nsteps - k,
        {
            let ghost a = self.shape@;
            let ghost before = source.log();
            let ghost done = run_log(net, draws, trace, k as int);
            k += 1;
            let proposed: Option<Rotation> = self.try_rotation(source, &mut scratch);
            let ghost b = self.shape@;
            let ghost new = source.log().skip(before.len() as int);
            let ghost mut d = rotation_draw(new);
            let ghost mut cheaper = false;
            if let Some(rot) = proposed {
                let word: u64 = if rot.delta.is_positive() {
                    source.word()
                } else {
                    0
                };
                proof {
                    d = Draw { word, ..d };
                }
                let ghost best0 = course.best@;
                let accepted: bool = self.settle(
                    &mut course,
                    &rot,
                    &mut scratch,
                    k,
                    nsteps,
                    t0,
                    t1,
                    word,
                    uphill,
                );
                proof {
                    cheaper = accepted && course.cur@ < best0;
                    assert(proposal(a, d) == Some(b));
                    assert(decided(*uphill, sched, net, k as int, a, b, d.word, self.shape@));
                }
            }
            proof {
                let e = self.shape@;
                assert(rotation_log(a, d) == new);
                assert(drawable(a, d));
                assert(annealing_step(*uphill, sched, net, k as int, a, d, e));
                lemma_trace_push(*uphill, sched, net, draws, trace, d, e);
                assert(trace[at].cost(net) <= trace.last().cost(net));
                lemma_cheapest_push(trace, net, at, e);
                assert(source.log() =~= before + step_log(a, net, d));
                assert(source.log() =~= log0 + (done + step_log(a, net, d)));
                draws = draws.push(d);
                trace = trace.push(e);
                if cheaper {
                    at = k as int;
                }
            }
        }
        proof {
            let e = course.best_snap@.shape;
            let new = source.log().skip(log0.len() as int);
            assert(new =~= run_log(net, draws, trace, nsteps as int));
            assert(source.log() =~= log0 + new);
            assert(first_cheapest(trace, net, e));
            assert(annealed_by(*uphill, sched, net, start, new, e));
            assert(trace[0].cost(net) == start.cost(net));
            if net.positive() {
                law_annealed_cost_is_positive(*uphill, sched, net, start, new, e);
            }
        }
        self.restore(&course.best_snap);
        course.best
    }

    /// One annealing run, as [`Self::anneal_with`], that draws from a source set
    /// up from the seed.
    pub fn anneal<F: Fn(&Uphill) -> bool>(
        &mut self,
        nsteps: usize,
        t0: Ratio,
        t1: Ratio,
        seed: u64,
        uphill: &F,
    ) -> (r: Natural)
        requires
            old(self).wf(),
            old(self)@.shape() is Node,
            forall|u: Uphill| #[trigger] call_requires(*uphill, (&u,)),
        ensures
            final(self).wf(),
            final(self).tensoridx == old(self).tensoridx,
            final(self).net == old(self).net,
            annealed(
                *uphill,
                (Schedule { nsteps, t0, t1 }),
                old(self).net@,
                seed,
                old(self)@.shape(),
                final(self)@.shape(),
            ),
            r@ == final(self)@.shape().cost(final(self).net@),
            r@ <= old(self)@.shape().cost(old(self).net@),
            old(self).net@.positive() ==> r@ > 0,
    {
        let mut source = Source::seeded(seed);
        let r: Natural = self.anneal_with(nsteps, t0, t1, &mut source, uphill);
        proof {
            assert(source.log().skip(0) =~= source.log());
        }
        r
    }

    /// One annealing run per seed, each from the tree `start`; ends at the
    /// cheapest of their results and gives its cost, if there is any seed.
    pub fn multi_anneal<F: Fn(&Uphill) -> bool>(
        &mut self,
        start: &TreeSnapshot,
        nsteps: usize,
        t0: Ratio,
        t1: Ratio,
        seeds: &[u64],
        uphill: &F,
    ) -> (r: Option<Natural>)
        requires
            old(self).net.wf(),
            start@.wf(old(self).tensoridx@, old(self).net@),
            seeds@.len() > 0 ==> start@.shape is Node,
            forall|u: Uphill| #[trigger] call_requires(*uphill, (&u,)),
        ensures
            final(self).wf(),
            final(self).tensoridx == old(self).tensoridx,
            final(self).net == old(self).net,
            multi_annealed(
                *uphill,
                (Schedule { nsteps, t0, t1 }),
                old(self).net@,
                seeds@,
                start@.shape,
                final(self)@.shape(),
            ),
            match r {
                None => seeds@.len() == 0,
                Some(v) => {
                    &&& seeds@.len() > 0
                    &&& v@ == final(self)@.shape().cost(final(self).net@)
                    &&& v@ <= start@.shape.cost(old(self).net@)
                },
            },
    {
        let ghost sched = Schedule { nsteps, t0, t1 };
        let ghost net = self.net@;
        let ghost fixed = self.net;
        let ghost tens = self.tensoridx;
        let mut bestv: Option<Natural> = None;
        let mut best_snap: TreeSnapshot = start.clone();
        let ghost mut ends: Seq<Shape> = Seq::empty();
        let ghost mut at: int = 0;
        let mut k: usize = 0;
        while k < seeds.len()
            invariant
                k <= seeds@.len(),
                sched == (Schedule { nsteps, t0, t1 }),
                forall|u: Uphill| #[trigger] call_requires(*uphill, (&u,)),
                self.net.wf(),
                self.net == fixed,
                self.net@ == net,
                self.tensoridx == tens,
                start@.wf(tens@, net),
                seeds@.len() > 0 ==> start@.shape is Node,
                best_snap@.wf(tens@, net),
                ends.len() == k,
                forall|i: int|
                    0 <= i < k ==> annealed(
                        *uphill,
                        sched,
                        net,
                        seeds@[i],
                        start@.shape,
                        #[trigger] ends[i],
                    ),
                k == 0 ==> bestv is None && best_snap@ == start@,
                k > 0 ==> {
                    &&& bestv is Some
                    &&& bestv->0@ == best_snap@.shape.cost(net)
                    &&& bestv->0@ <= start@.shape.cost(net)
                    &&& 0 <= at < ends.len()
                    &&& ends[at] == best_snap@.shape
                    &&& cheapest_at(ends, net, at)
                },
            decreases seeds@.len() - k,
        {
            self.restore(start);
            let v: Natural = self.anneal(nsteps, t0, t1, seeds[k], uphill);
            let ghost e = self.shape@;
            let better: bool = match &bestv {
                None => true,
                Some(b) => v.less_than(b),
            };
            proof {
                if k > 0 {
                    lemma_cheapest_push(ends, net, at, e);
                } else {
                    assert(cheapest_at(ends.push(e), net, 0));
                }
                ends = ends.push(e);
            }
            if better {
                bestv = Some(v);
                best_snap = self.snapshot();
                proof {
                    at = k as int;
                }
            }
            k += 1;
        }
        proof {
            if k > 0 {
                assert(first_cheapest(ends, net, best_snap@.shape));
            }
            lemma_multi_annealed(
                *uphill,
                sched,
                net,
                seeds@,
                start@.shape,
                ends,
                best_snap@.shape,
            );
        }
        self.restore(&best_snap);
        bestv
    }
}

} // verus!
