//! What the annealer and the pipeline make of their configuration.

use crate::anneal::{multi_annealed, Schedule, Uphill};
use crate::annealer::{workable, GreenAnnealer, GreenReport};
use crate::export::exported;
use crate::labels::{label_degree, label_uses, labels_of};
use crate::nested::{label_lists, EinCode, NestedEinsum};
use crate::network::StepKind;
use crate::pipeline::GreenPipeOutcome;
use crate::problem::code_net;
use crate::price_laws::lemma_label_degree_flatten;
use crate::ratio::Ratio;
use crate::run_laws::{answer_alike, law_runs_ask_on_their_schedule};
use crate::shape::Shape;
use vstd::prelude::*;

verus! {

/// Whether `e` is what the annealer's runs make of the order `x`, one run per
/// seed with the configured steps, temperatures and factors, and `nested` and the
/// report tell of it.
pub open spec fn told_optimization<L, F: Fn(&Uphill) -> bool>(
    annealer: GreenAnnealer,
    rule: F,
    code: EinCode<L>,
    dict: Map<L, usize>,
    is_complex: Seq<bool>,
    x: NestedEinsum<L>,
    nested: NestedEinsum<L>,
    report: Option<GreenReport>,
    e: Shape,
) -> bool {
    let net = code_net(code, dict, is_complex, annealer.merge_factor, annealer.ride_factor);
    &&& multi_annealed(
        rule,
        (Schedule { nsteps: annealer.nsteps, t0: annealer.t0, t1: annealer.t1 }),
        net,
        annealer.seeds@,
        x.preorder(0),
        e,
    )
    &&& nested.binary()
    &&& nested.model() == exported(
        e,
        net,
        label_lists(code.ixs@),
        labels_of(code),
        Some(code.iy@),
    )
    &&& report matches Some(p) ==> {
        &&& p.start_cost@ == x.preorder(0).cost(net)
        &&& p.final_cost@ == e.cost(net)
        &&& p.pass_volume@ == e.volume_of_kind(net, StepKind::Pass)
        &&& p.ride_volume@ == e.volume_of_kind(net, StepKind::Ride)
        &&& p.merge_volume@ == e.volume_of_kind(net, StepKind::Merge)
    }
}

/// An optimization anneals the network under the configured factors on the
/// configured schedule, once per seed, and reports the cost of the start and of
/// the best tree; a single tensor stays as it is and costs nothing.
pub proof fn law_optimizing_follows_the_configuration<L, F: Fn(&Uphill) -> bool>(
    annealer: GreenAnnealer,
    rule: F,
    code: EinCode<L>,
    dict: Map<L, usize>,
    is_complex: Seq<bool>,
    x: NestedEinsum<L>,
    nested: NestedEinsum<L>,
    report: Option<GreenReport>,
)
    requires
        annealer.optimizes(rule, code, dict, is_complex, x, nested, report),
    ensures
        x is Leaf ==> {
            &&& nested == x
            &&& report matches Some(p) ==> p.start_cost@ == 0 && p.final_cost@ == 0
                && p.pass_volume@ == 0 && p.ride_volume@ == 0 && p.merge_volume@ == 0
        },
        x is Node ==> exists|e: Shape| #[trigger]
            told_optimization(
                annealer,
                rule,
                code,
                dict,
                is_complex,
                x,
                nested,
                report,
                e,
            ),
{
    if x is Node {
        let net = annealer.net(code, dict, is_complex);
        let e = choose|e: Shape|
            {
                &&& #[trigger] multi_annealed(
                    rule,
                    annealer.schedule(),
                    net,
                    annealer.seeds@,
                    x.preorder(0),
                    e,
                )
                &&& nested.model() == crate::problem::code_exported(e, net, code)
                &&& report matches Some(p) ==> p.reports(net, x.preorder(0), e)
            };
        assert(told_optimization(
            annealer,
            rule,
            code,
            dict,
            is_complex,
            x,
            nested,
            report,
            e,
        ));
    }
}

/// Whether `b`, `a` and `p` are what the three passes make of the order `x`, and
/// the outcome tells of them. The blind pass prices every step at its volume and
/// runs on the full schedule; the aware pass has the configured factors and the
/// same schedule and start; the polish has the configured factors, starts from
/// `b`, and runs half the steps between the polishing temperatures.
pub open spec fn told_passes<L, F: Fn(&Uphill) -> bool>(
    config: GreenAnnealer,
    rule: F,
    code: EinCode<L>,
    dict: Map<L, usize>,
    is_complex: Seq<bool>,
    x: NestedEinsum<L>,
    o: GreenPipeOutcome<L>,
    b: Shape,
    a: Shape,
    p: Shape,
) -> bool {
    let one = Ratio { num: 1, den: 1 };
    let blind = code_net(code, dict, is_complex, one, one);
    let aware = code_net(code, dict, is_complex, config.merge_factor, config.ride_factor);
    let full = Schedule { nsteps: config.nsteps, t0: config.t0, t1: config.t1 };
    let low = Schedule {
        nsteps: (config.nsteps / 2) as usize,
        t0: config.polish_t0,
        t1: config.polish_t1,
    };
    let s = x.preorder(0);
    let (ixs, labels, iy) = (label_lists(code.ixs@), labels_of(code), Some(code.iy@));
    &&& multi_annealed(rule, full, blind, config.seeds@, s, b)
    &&& multi_annealed(rule, full, aware, config.seeds@, s, a)
    &&& multi_annealed(rule, low, aware, config.seeds@, b, p)
    &&& o.start == x
    &&& o.best_blind.binary()
    &&& o.full_anneal.binary()
    &&& o.polished.binary()
    &&& o.best_blind.model() == exported(b, blind, ixs, labels, iy)
    &&& o.full_anneal.model() == exported(a, aware, ixs, labels, iy)
    &&& o.polished.model() == exported(p, aware, ixs, labels, iy)
    &&& o.start_volume@ == s.real_cost(blind)
    &&& o.green_blind_cost@ == s.cost(aware)
    &&& o.best_real_cost@ == b.real_cost(blind)
    &&& o.convert_only_cost@ == b.cost(aware)
    &&& o.full_anneal_cost@ == a.cost(aware)
    &&& o.polished_cost@ == p.cost(aware)
    &&& o.full_anneal_pass_volume@ == a.volume_of_kind(aware, StepKind::Pass)
    &&& o.full_anneal_ride_volume@ == a.volume_of_kind(aware, StepKind::Ride)
    &&& o.full_anneal_merge_volume@ == a.volume_of_kind(aware, StepKind::Merge)
}

/// The pipeline makes its three passes as configured and reports their costs and
/// volumes; a single tensor stays as it is, costs nothing and takes no time.
pub proof fn law_pipeline_follows_the_configuration<L, F: Fn(&Uphill) -> bool>(
    config: GreenAnnealer,
    rule: F,
    code: EinCode<L>,
    dict: Map<L, usize>,
    is_complex: Seq<bool>,
    x: NestedEinsum<L>,
    o: GreenPipeOutcome<L>,
)
    requires
        config.pipes(rule, code, dict, is_complex, x, o),
    ensures
        x is Leaf ==> {
            &&& o.start == x && o.best_blind == x && o.polished == x && o.full_anneal == x
            &&& o.green_blind_cost@ == 0 && o.best_real_cost@ == 0 && o.convert_only_cost@ == 0
            &&& o.polished_cost@ == 0 && o.full_anneal_cost@ == 0 && o.start_volume@ == 0
            &&& o.full_anneal_pass_volume@ == 0 && o.full_anneal_ride_volume@ == 0
            &&& o.full_anneal_merge_volume@ == 0
            &&& o.nanos.1 == 0 && o.nanos.2 == 0 && o.nanos.3 == 0
        },
        x is Node ==> exists|b: Shape, a: Shape, p: Shape| #[trigger]
            told_passes(config, rule, code, dict, is_complex, x, o, b, a, p),
{
    if x is Node {
        let blind = config.blind_net(code, dict, is_complex);
        let aware = config.net(code, dict, is_complex);
        let s = x.preorder(0);
        let (b, a, p) = choose|b: Shape, a: Shape, p: Shape| #[trigger]
            config.passes(rule, blind, aware, s, b, a, p) && o.tells(
                code,
                blind,
                aware,
                s,
                b,
                a,
                p,
            );
        crate::laws::law_blind_cost_is_volume(b, blind);
        assert(told_passes(config, rule, code, dict, is_complex, x, o, b, a, p));
    }
}

/// Polishing does not depend on the temperatures of the full schedule:
/// configurations that differ in these alone allow the same polishing results
/// from the same tree.
pub proof fn law_polish_ignores_the_full_schedule<L, F: Fn(&Uphill) -> bool>(
    config: GreenAnnealer,
    other: GreenAnnealer,
    rule: F,
    code: EinCode<L>,
    dict: Map<L, usize>,
    is_complex: Seq<bool>,
    b: Shape,
    p: Shape,
)
    requires
        other == (GreenAnnealer { t0: other.t0, t1: other.t1, ..config }),
    ensures
        multi_annealed(
            rule,
            config.polish_schedule(),
            config.net(code, dict, is_complex),
            config.seeds@,
            b,
            p,
        ) <==> multi_annealed(
            rule,
            other.polish_schedule(),
            other.net(code, dict, is_complex),
            other.seeds@,
            b,
            p,
        ),
        config.polish_schedule() == (Schedule {
            nsteps: (config.nsteps / 2) as usize,
            t0: config.polish_t0,
            t1: config.polish_t1,
        }),
        config.schedule() == (Schedule { nsteps: config.nsteps, t0: config.t0, t1: config.t1 }),
{
}

/// In the polish the rule is asked for steps from one to half the steps and
/// between the polishing temperatures alone: rules that answer alike there allow
/// the same polishing results.
pub proof fn law_polish_asks_at_polishing_temperatures<
    L,
    F: Fn(&Uphill) -> bool,
    G: Fn(&Uphill) -> bool,
>(
    config: GreenAnnealer,
    f: F,
    g: G,
    code: EinCode<L>,
    dict: Map<L, usize>,
    is_complex: Seq<bool>,
    b: Shape,
    p: Shape,
)
    requires
        answer_alike(f, g, (config.nsteps / 2) as usize, config.polish_t0, config.polish_t1),
    ensures
        multi_annealed(
            f,
            config.polish_schedule(),
            config.net(code, dict, is_complex),
            config.seeds@,
            b,
            p,
        ) <==> multi_annealed(
            g,
            config.polish_schedule(),
            config.net(code, dict, is_complex),
            config.seeds@,
            b,
            p,
        ),
{
    law_runs_ask_on_their_schedule(
        f,
        g,
        (config.nsteps / 2) as usize,
        config.polish_t0,
        config.polish_t1,
        config.net(code, dict, is_complex),
        config.seeds@,
        b,
        p,
    );
}

proof fn lemma_pipes_by_answers<L, F: Fn(&Uphill) -> bool, G: Fn(&Uphill) -> bool>(
    config: GreenAnnealer,
    f: F,
    g: G,
    code: EinCode<L>,
    dict: Map<L, usize>,
    is_complex: Seq<bool>,
    x: NestedEinsum<L>,
    o: GreenPipeOutcome<L>,
)
    requires
        answer_alike(f, g, config.nsteps, config.t0, config.t1),
        answer_alike(f, g, (config.nsteps / 2) as usize, config.polish_t0, config.polish_t1),
        config.pipes(f, code, dict, is_complex, x, o),
    ensures
        config.pipes(g, code, dict, is_complex, x, o),
{
    if x is Node {
        let blind = config.blind_net(code, dict, is_complex);
        let aware = config.net(code, dict, is_complex);
        let s = x.preorder(0);
        let seeds = config.seeds@;
        let (b, a, p) = choose|b: Shape, a: Shape, p: Shape| #[trigger]
            config.passes(f, blind, aware, s, b, a, p) && o.tells(code, blind, aware, s, b, a, p);
        let (n, t0, t1) = (config.nsteps, config.t0, config.t1);
        law_runs_ask_on_their_schedule(f, g, n, t0, t1, blind, seeds, s, b);
        law_runs_ask_on_their_schedule(f, g, n, t0, t1, aware, seeds, s, a);
        law_polish_asks_at_polishing_temperatures(config, f, g, code, dict, is_complex, b, p);
        assert(config.passes(g, blind, aware, s, b, a, p));
    }
}

/// The pipeline asks the rule on the full schedule and on the polishing schedule
/// alone: rules that answer alike on these allow the same outcomes.
pub proof fn law_pipeline_asks_on_its_schedules<
    L,
    F: Fn(&Uphill) -> bool,
    G: Fn(&Uphill) -> bool,
>(
    config: GreenAnnealer,
    f: F,
    g: G,
    code: EinCode<L>,
    dict: Map<L, usize>,
    is_complex: Seq<bool>,
    x: NestedEinsum<L>,
    o: GreenPipeOutcome<L>,
)
    requires
        answer_alike(f, g, config.nsteps, config.t0, config.t1),
        answer_alike(f, g, (config.nsteps / 2) as usize, config.polish_t0, config.polish_t1),
    ensures
        config.pipes(f, code, dict, is_complex, x, o) <==> config.pipes(
            g,
            code,
            dict,
            is_complex,
            x,
            o,
        ),
{
    if config.pipes(f, code, dict, is_complex, x, o) {
        lemma_pipes_by_answers(config, f, g, code, dict, is_complex, x, o);
    }
    if config.pipes(g, code, dict, is_complex, x, o) {
        lemma_pipes_by_answers(config, g, f, code, dict, is_complex, x, o);
    }
}

/// The annealer can work from every binary order over the tensors of an einsum
/// that has a dimension for every label and whose labels occur at most 32767
/// times, in the einsum and in the leaves of the order; from a single tensor, and
/// without an order, in any case.
pub proof fn law_workable_orders<L>(
    code: EinCode<L>,
    dict: Map<L, usize>,
    start: Option<NestedEinsum<L>>,
)
    ensures
        start is None || start->0 is Leaf ==> workable(code, dict, start),
        start is Some && start->0 is Node ==> (workable(code, dict, start) <==> {
            &&& start->0.binary()
            &&& start->0.tensors_below(code.ixs@.len() as int)
            &&& forall|l: L| #[trigger]
                labels_of(code).contains(l) ==> {
                    &&& dict.dom().contains(l)
                    &&& label_lists(code.ixs@).flatten().to_multiset().count(l) <= 32767
                    &&& label_uses(start->0, label_lists(code.ixs@), l) <= 32767
                }
        }),
{
    let ixs = label_lists(code.ixs@);
    assert forall|l: L| #[trigger] labels_of(code).contains(l) implies label_degree(ixs, l)
        == ixs.flatten().to_multiset().count(l) by {
        lemma_label_degree_flatten(ixs, l);
    }
}

} // verus!
