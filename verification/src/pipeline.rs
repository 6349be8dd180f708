//! The three-pass optimization pipeline.

use crate::anneal::{multi_annealed, Uphill};
use crate::annealer::{workable, GreenAnnealer};
use crate::clock::{measured, nanos_since};
use crate::labels::{build_label_map, SizeDict};
use crate::laws::{law_blind_cost_is_volume, law_multi_annealing_improves};
use crate::natural::Natural;
use crate::nested::{lemma_preorder, EinCode, Label, NestedEinsum};
use crate::network::{Net, StepKind};
use crate::problem::{
    code_exported, code_net, flat_tree, lemma_arrays_by_shape, lemma_links_carry,
};
use crate::ratio::Ratio;
use crate::shape::Shape;
use crate::tree::TreeSnapshot;
use std::time::Instant;
use vstd::prelude::*;

verus! {

/// What the pipeline found.
#[derive(Debug)]
pub struct GreenPipeOutcome<L> {
    /// The starting tree that all passes share.
    pub start: NestedEinsum<L>,
    /// The result of the green-blind anneal: the best real skeleton.
    pub best_blind: NestedEinsum<L>,
    /// The result of the green-aware polish of `best_blind`.
    pub polished: NestedEinsum<L>,
    /// The result of the full green-aware anneal.
    pub full_anneal: NestedEinsum<L>,
    /// The green-aware cost of the starting tree.
    pub green_blind_cost: Natural,
    /// The volume of `best_blind`.
    pub best_real_cost: Natural,
    /// The green-aware cost of `best_blind`.
    pub convert_only_cost: Natural,
    /// The green-aware cost of `polished`.
    pub polished_cost: Natural,
    /// The green-aware cost of `full_anneal`.
    pub full_anneal_cost: Natural,
    /// The volume of the starting tree.
    pub start_volume: Natural,
    /// The volume of the pass steps of `full_anneal`.
    pub full_anneal_pass_volume: Natural,
    /// The volume of the ride steps of `full_anneal`.
    pub full_anneal_ride_volume: Natural,
    /// The volume of the merge steps of `full_anneal`.
    pub full_anneal_merge_volume: Natural,
    /// The wall time of each stage in nanoseconds: the search for the starting
    /// tree, the blind anneal, the aware anneal, the polish.
    pub nanos: (u128, u128, u128, u128),
}

impl<L: Label> Clone for GreenPipeOutcome<L> {
    fn clone(&self) -> (r: GreenPipeOutcome<L>)
        ensures
            self.start.same_order(r.start),
            self.best_blind.same_order(r.best_blind),
            self.polished.same_order(r.polished),
            self.full_anneal.same_order(r.full_anneal),
            r.green_blind_cost@ == self.green_blind_cost@,
            r.best_real_cost@ == self.best_real_cost@,
            r.convert_only_cost@ == self.convert_only_cost@,
            r.polished_cost@ == self.polished_cost@,
            r.full_anneal_cost@ == self.full_anneal_cost@,
            r.start_volume@ == self.start_volume@,
            r.full_anneal_pass_volume@ == self.full_anneal_pass_volume@,
            r.full_anneal_ride_volume@ == self.full_anneal_ride_volume@,
            r.full_anneal_merge_volume@ == self.full_anneal_merge_volume@,
            r.nanos == self.nanos,
    {
        GreenPipeOutcome {
            start: self.start.clone(),
            best_blind: self.best_blind.clone(),
            polished: self.polished.clone(),
            full_anneal: self.full_anneal.clone(),
            green_blind_cost: self.green_blind_cost.clone(),
            best_real_cost: self.best_real_cost.clone(),
            convert_only_cost: self.convert_only_cost.clone(),
            polished_cost: self.polished_cost.clone(),
            full_anneal_cost: self.full_anneal_cost.clone(),
            start_volume: self.start_volume.clone(),
            full_anneal_pass_volume: self.full_anneal_pass_volume.clone(),
            full_anneal_ride_volume: self.full_anneal_ride_volume.clone(),
            full_anneal_merge_volume: self.full_anneal_merge_volume.clone(),
            nanos: self.nanos,
        }
    }
}

impl<L> GreenPipeOutcome<L> {
    /// Whether this is the outcome for a single tensor, which takes no step.
    pub open spec fn idle(self, x: NestedEinsum<L>) -> bool {
        &&& self.start == x
        &&& self.best_blind == x
        &&& self.polished == x
        &&& self.full_anneal == x
        &&& self.green_blind_cost@ == 0
        &&& self.best_real_cost@ == 0
        &&& self.convert_only_cost@ == 0
        &&& self.polished_cost@ == 0
        &&& self.full_anneal_cost@ == 0
        &&& self.start_volume@ == 0
        &&& self.full_anneal_pass_volume@ == 0
        &&& self.full_anneal_ride_volume@ == 0
        &&& self.full_anneal_merge_volume@ == 0
        &&& self.nanos.1 == 0
        &&& self.nanos.2 == 0
        &&& self.nanos.3 == 0
    }

    /// Whether the outcome tells of the trees that the passes found: `b` the
    /// blind one, `a` the aware one, `p` the polished one, all from `s`.
    pub open spec fn tells(
        self,
        code: EinCode<L>,
        blind: Net,
        aware: Net,
        s: Shape,
        b: Shape,
        a: Shape,
        p: Shape,
    ) -> bool {
        &&& self.best_blind.binary()
        &&& self.best_blind.model() == code_exported(b, blind, code)
        &&& self.full_anneal.binary()
        &&& self.full_anneal.model() == code_exported(a, aware, code)
        &&& self.polished.binary()
        &&& self.polished.model() == code_exported(p, aware, code)
        &&& self.start_volume@ == s.real_cost(blind)
        &&& self.green_blind_cost@ == s.cost(aware)
        &&& self.best_real_cost@ == b.cost(blind)
        &&& self.convert_only_cost@ == b.cost(aware)
        &&& self.full_anneal_cost@ == a.cost(aware)
        &&& self.polished_cost@ == p.cost(aware)
        &&& self.full_anneal_pass_volume@ == a.volume_of_kind(aware, StepKind::Pass)
        &&& self.full_anneal_ride_volume@ == a.volume_of_kind(aware, StepKind::Ride)
        &&& self.full_anneal_merge_volume@ == a.volume_of_kind(aware, StepKind::Merge)
    }

    /// Whether no pass ends dearer than it began, each in its own measure.
    pub open spec fn ordered(self) -> bool {
        &&& self.best_real_cost@ <= self.start_volume@
        &&& self.full_anneal_cost@ <= self.green_blind_cost@
        &&& self.polished_cost@ <= self.convert_only_cost@
    }
}

impl GreenAnnealer {
    /// The network of an einsum with both factors one.
    pub open spec fn blind_net<L>(
        self,
        code: EinCode<L>,
        dict: Map<L, usize>,
        is_complex: Seq<bool>,
    ) -> Net {
        code_net(code, dict, is_complex, Ratio { num: 1, den: 1 }, Ratio { num: 1, den: 1 })
    }

    /// Whether the three passes can lead from the tree `s` to `b`, `a` and `p`:
    /// the blind anneal and the aware anneal start from `s`, the polish from the
    /// blind result.
    pub open spec fn passes<F: Fn(&Uphill) -> bool>(
        self,
        rule: F,
        blind: Net,
        aware: Net,
        s: Shape,
        b: Shape,
        a: Shape,
        p: Shape,
    ) -> bool {
        let seeds = self.seeds@;
        &&& multi_annealed(rule, self.schedule(), blind, seeds, s, b)
        &&& multi_annealed(rule, self.schedule(), aware, seeds, s, a)
        &&& multi_annealed(rule, self.polish_schedule(), aware, seeds, b, p)
    }

    /// Whether the pipeline can lead from the order `x` to the outcome.
    pub open spec fn pipes<L, F: Fn(&Uphill) -> bool>(
        self,
        rule: F,
        code: EinCode<L>,
        dict: Map<L, usize>,
        is_complex: Seq<bool>,
        x: NestedEinsum<L>,
        outcome: GreenPipeOutcome<L>,
    ) -> bool {
        let blind = self.blind_net(code, dict, is_complex);
        let aware = self.net(code, dict, is_complex);
        let s = x.preorder(0);
        match x {
            NestedEinsum::Leaf { .. } => outcome.idle(x),
            NestedEinsum::Node { .. } => {
                &&& outcome.start == x
                &&& exists|b: Shape, a: Shape, p: Shape| #[trigger]
                    self.passes(rule, blind, aware, s, b, a, p) && outcome.tells(
                        code,
                        blind,
                        aware,
                        s,
                        b,
                        a,
                        p,
                    )
            },
        }
    }
}

/// The outcome for a single tensor.
fn idle_outcome<L>(tensor_index: usize, init_nanos: u128) -> (r: GreenPipeOutcome<L>)
    ensures
        r.idle((NestedEinsum::<L>::Leaf { tensor_index })),
        r.nanos.0 == init_nanos,
{
    GreenPipeOutcome {
        start: NestedEinsum::leaf(tensor_index),
        best_blind: NestedEinsum::leaf(tensor_index),
        polished: NestedEinsum::leaf(tensor_index),
        full_anneal: NestedEinsum::leaf(tensor_index),
        green_blind_cost: Natural::zero(),
        best_real_cost: Natural::zero(),
        convert_only_cost: Natural::zero(),
        polished_cost: Natural::zero(),
        full_anneal_cost: Natural::zero(),
        start_volume: Natural::zero(),
        full_anneal_pass_volume: Natural::zero(),
        full_anneal_ride_volume: Natural::zero(),
        full_anneal_merge_volume: Natural::zero(),
        nanos: (init_nanos, 0, 0, 0),
    }
}

/// The three passes from one starting tree, which took `init_nanos` to find:
///
/// 1. a green-blind anneal (both factors one): the best real skeleton;
/// 2. a full green-aware anneal from the same start;
/// 3. a green-aware polish of the best real skeleton, with half the steps and
///    at low temperature.
///
/// Nothing comes out where there is no tree to start from. The wall times of the
/// passes are readings of the clock; nothing is said of how long they are.
pub fn green_pipeline<L: Label, F: Fn(&Uphill) -> bool>(
    code: &EinCode<L>,
    size_dict: &SizeDict<L>,
    is_complex: &[bool],
    config: &GreenAnnealer,
    start: Option<NestedEinsum<L>>,
    init_nanos: u128,
    uphill: &F,
) -> (r: Option<GreenPipeOutcome<L>>)
    requires
        is_complex@.len() == code.ixs@.len(),
        workable(*code, size_dict@, start),
        config.wf(),
        forall|u: Uphill| #[trigger] call_requires(*uphill, (&u,)),
    ensures
        r is Some == start is Some,
        r matches Some(o) ==> {
            &&& config.pipes(*uphill, *code, size_dict@, is_complex@, start->0, o)
            &&& o.ordered()
            &&& o.nanos.0 == init_nanos
            &&& start->0 is Node ==> measured(o.nanos.1) && measured(o.nanos.2) && measured(
                o.nanos.3,
            )
        },
{
    let start: NestedEinsum<L> = match start {
        None => {
            return None;
        },
        Some(x) => x,
    };
    if let NestedEinsum::Leaf { tensor_index } = &start {
        return Some(idle_outcome(*tensor_index, init_nanos));
    }
    let ghost s = start.preorder(0);
    let ghost blind = config.blind_net(*code, size_dict@, is_complex@);
    let ghost aware = config.net(*code, size_dict@, is_complex@);
    let labels: Vec<L> = build_label_map(code);

    let t_blind = Instant::now();
    assert(call_ensures(Instant::now, (), t_blind));
    let mut blind_tree = flat_tree(
        &start,
        code,
        size_dict,
        is_complex,
        Ratio::whole(1),
        Ratio::whole(1),
    );
    let ghost links0 = blind_tree@.links;
    let ghost tens = blind_tree.tensoridx@;
    let start_volume: Natural = blind_tree.total_real();
    let start_snap: TreeSnapshot = blind_tree.snapshot();
    let best_blind_run: Option<Natural> = blind_tree.multi_anneal(
        &start_snap,
        config.nsteps,
        config.t0,
        config.t1,
        config.seeds.as_slice(),
        uphill,
    );
    let best_real_cost: Natural = blind_tree.cost_of(best_blind_run);
    let blind_snap: TreeSnapshot = blind_tree.snapshot();
    let blind_nanos: u128 = nanos_since(&t_blind);
    let ghost b = blind_tree@.shape();
    proof {
        lemma_preorder(start, 0);
        law_multi_annealing_improves(*uphill, config.schedule(), blind, config.seeds@, s, b);
    }

    let t_aware = Instant::now();
    assert(call_ensures(Instant::now, (), t_aware));
    let mut aware_tree = flat_tree(
        &start,
        code,
        size_dict,
        is_complex,
        config.merge_factor,
        config.ride_factor,
    );
    proof {
        lemma_arrays_by_shape(links0, aware_tree@.links, tens, aware_tree.tensoridx@, blind, aware);
        lemma_links_carry(links0, tens, blind, aware);
    }
    let green_blind_cost: Natural = aware_tree.total_cost();
    let best_aware_run: Option<Natural> = aware_tree.multi_anneal(
        &start_snap,
        config.nsteps,
        config.t0,
        config.t1,
        config.seeds.as_slice(),
        uphill,
    );
    let full_anneal_cost: Natural = aware_tree.cost_of(best_aware_run);
    let (full_anneal_pass_volume, full_anneal_ride_volume, full_anneal_merge_volume) =
        aware_tree.breakdown();
    let aware_nanos: u128 = nanos_since(&t_aware);
    let ghost a = aware_tree@.shape();

    let t_polish = Instant::now();
    assert(call_ensures(Instant::now, (), t_polish));
    let mut polish_tree = flat_tree(
        &start,
        code,
        size_dict,
        is_complex,
        config.merge_factor,
        config.ride_factor,
    );
    proof {
        lemma_arrays_by_shape(links0, polish_tree@.links, tens, polish_tree.tensoridx@, blind, aware);
        lemma_links_carry(blind_snap@, tens, blind, aware);
    }
    polish_tree.restore(&blind_snap);
    let convert_only_cost: Natural = polish_tree.total_cost();
    let best_polish_run: Option<Natural> = polish_tree.multi_anneal(
        &blind_snap,
        config.nsteps / 2,
        config.polish_t0,
        config.polish_t1,
        config.seeds.as_slice(),
        uphill,
    );
    let polished_cost: Natural = polish_tree.cost_of(best_polish_run);
    let polish_nanos: u128 = nanos_since(&t_polish);
    let ghost p = polish_tree@.shape();

    let best_blind: NestedEinsum<L> = blind_tree.to_order(code, &labels);
    let full_anneal: NestedEinsum<L> = aware_tree.to_order(code, &labels);
    let polished: NestedEinsum<L> = polish_tree.to_order(code, &labels);
    let outcome = GreenPipeOutcome {
        start,
        best_blind,
        polished,
        full_anneal,
        green_blind_cost,
        best_real_cost,
        convert_only_cost,
        polished_cost,
        full_anneal_cost,
        start_volume,
        full_anneal_pass_volume,
        full_anneal_ride_volume,
        full_anneal_merge_volume,
        nanos: (init_nanos, blind_nanos, aware_nanos, polish_nanos),
    };
    proof {
        law_blind_cost_is_volume(s, blind);
        law_multi_annealing_improves(*uphill, config.schedule(), aware, config.seeds@, s, a);
        law_multi_annealing_improves(
            *uphill,
            config.polish_schedule(),
            aware,
            config.seeds@,
            b,
            p,
        );
        assert(config.passes(*uphill, blind, aware, s, b, a, p));
        assert(outcome.tells(*code, blind, aware, s, b, a, p));
    }
    Some(outcome)
}

} // verus!
