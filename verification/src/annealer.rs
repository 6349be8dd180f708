//! The green annealer: configuration and single optimization.

use crate::anneal::{multi_annealed, Schedule, Uphill};
use crate::labels::{build_label_map, SizeDict};
use crate::laws::law_multi_annealing_improves;
use crate::natural::Natural;
use crate::nested::{lemma_preorder, EinCode, Label, NestedEinsum};
use crate::network::{Net, StepKind};
use crate::problem::{
    code_exported, code_net, countable, flat_tree, orders, sized_labels,
};
use crate::ratio::Ratio;
use crate::shape::Shape;
use crate::tree::{GreenTree, TreeSnapshot};
use vstd::prelude::*;

verus! {

/// The budget of the search for a starting tree.
#[derive(Debug, Clone, Copy, PartialEq, Eq, Structural)]
pub struct TreeSA {
    /// The number of independent trials.
    pub ntrials: usize,
    /// The number of sweeps per temperature.
    pub niters: usize,
}

/// Configuration of the green-aware annealer.
#[derive(Debug)]
pub struct GreenAnnealer {
    /// The cost factor of a step with two green children.
    pub merge_factor: Ratio,
    /// The cost factor of a step with one green child.
    pub ride_factor: Ratio,
    /// The annealing steps per seed.
    pub nsteps: usize,
    /// The initial temperature.
    pub t0: Ratio,
    /// The final temperature.
    pub t1: Ratio,
    /// The seeds of the runs, all from the same starting tree.
    pub seeds: Vec<u64>,
    /// The initial temperature of a polish.
    pub polish_t0: Ratio,
    /// The final temperature of a polish.
    pub polish_t1: Ratio,
    /// The budget of the search for the starting tree.
    pub initializer: TreeSA,
}

impl GreenAnnealer {
    /// Whether this is the standard configuration with the given factors:
    /// 600 000 steps from temperature 1 to 0.005; the seeds 42, 7 and 2026; a
    /// polish from 0.03 to 0.002; one trial of 30 sweeps for the starting tree.
    pub open spec fn standard(self, merge_factor: Ratio, ride_factor: Ratio) -> bool {
        &&& self.merge_factor == merge_factor
        &&& self.ride_factor == ride_factor
        &&& self.nsteps == 600_000
        &&& self.t0 == (Ratio { num: 1, den: 1 })
        &&& self.t1 == (Ratio { num: 5, den: 1000 })
        &&& self.seeds@ == seq![42u64, 7u64, 2026u64]
        &&& self.polish_t0 == (Ratio { num: 3, den: 100 })
        &&& self.polish_t1 == (Ratio { num: 2, den: 1000 })
        &&& self.initializer == (TreeSA { ntrials: 1, niters: 30 })
    }
}

impl Default for GreenAnnealer {
    /// The standard configuration with the factors 3 (merge) and 2 (ride).
    fn default() -> (r: GreenAnnealer)
        ensures
            r.standard((Ratio { num: 3, den: 1 }), (Ratio { num: 2, den: 1 })),
    {
        GreenAnnealer {
            merge_factor: Ratio::whole(3),
            ride_factor: Ratio::whole(2),
            nsteps: 600_000,
            t0: Ratio::whole(1),
            t1: Ratio::new(5, 1000),
            seeds: vec![42, 7, 2026],
            polish_t0: Ratio::new(3, 100),
            polish_t1: Ratio::new(2, 1000),
            initializer: TreeSA { ntrials: 1, niters: 30 },
        }
    }
}

impl Clone for GreenAnnealer {
    fn clone(&self) -> (r: GreenAnnealer)
        ensures
            r.seeds@ == self.seeds@,
            r == (GreenAnnealer { seeds: r.seeds, ..*self }),
    {
        let seeds = self.seeds.clone();
        assert(seeds@ =~= self.seeds@);
        GreenAnnealer {
            merge_factor: self.merge_factor,
            ride_factor: self.ride_factor,
            nsteps: self.nsteps,
            t0: self.t0,
            t1: self.t1,
            seeds,
            polish_t0: self.polish_t0,
            polish_t1: self.polish_t1,
            initializer: self.initializer,
        }
    }
}

/// What one green anneal cost.
#[derive(Debug)]
pub struct GreenReport {
    /// The cost of the starting tree.
    pub start_cost: Natural,
    /// The cost of the best tree found.
    pub final_cost: Natural,
    /// The volume of the pass steps of the final tree.
    pub pass_volume: Natural,
    /// The volume of the ride steps of the final tree.
    pub ride_volume: Natural,
    /// The volume of the merge steps of the final tree.
    pub merge_volume: Natural,
}

impl Clone for GreenReport {
    fn clone(&self) -> (r: GreenReport)
        ensures
            r.start_cost@ == self.start_cost@,
            r.final_cost@ == self.final_cost@,
            r.pass_volume@ == self.pass_volume@,
            r.ride_volume@ == self.ride_volume@,
            r.merge_volume@ == self.merge_volume@,
    {
        GreenReport {
            start_cost: self.start_cost.clone(),
            final_cost: self.final_cost.clone(),
            pass_volume: self.pass_volume.clone(),
            ride_volume: self.ride_volume.clone(),
            merge_volume: self.merge_volume.clone(),
        }
    }
}

impl GreenReport {
    /// Whether this reports on the way from `start` to `end`.
    pub open spec fn reports(self, net: Net, start: Shape, end: Shape) -> bool {
        &&& self.start_cost@ == start.cost(net)
        &&& self.final_cost@ == end.cost(net)
        &&& self.pass_volume@ == end.volume_of_kind(net, StepKind::Pass)
        &&& self.ride_volume@ == end.volume_of_kind(net, StepKind::Ride)
        &&& self.merge_volume@ == end.volume_of_kind(net, StepKind::Merge)
    }

    /// Whether this reports on a single tensor, which takes no step.
    pub open spec fn reports_nothing(self) -> bool {
        &&& self.start_cost@ == 0
        &&& self.final_cost@ == 0
        &&& self.pass_volume@ == 0
        &&& self.ride_volume@ == 0
        &&& self.merge_volume@ == 0
    }
}

/// Whether the annealer can work from the tree `start`, if there is one: a
/// single tensor needs nothing; else `start` is an order over the tensors of
/// the einsum, every label has a dimension, and the counters suffice.
pub open spec fn workable<L>(
    code: EinCode<L>,
    dict: Map<L, usize>,
    start: Option<NestedEinsum<L>>,
) -> bool {
    start is Some && start->0 is Node ==> {
        &&& sized_labels(code, dict)
        &&& countable(code)
        &&& orders(start->0, code)
    }
}

impl GreenTree {
    /// The cost of the tree, which several runs gave where there was a run.
    pub(crate) fn cost_of(&self, best: Option<Natural>) -> (r: Natural)
        requires
            self.wf(),
            best matches Some(v) ==> v@ == self@.shape().cost(self.net@),
        ensures
            r@ == self@.shape().cost(self.net@),
    {
        match best {
            Some(v) => v,
            None => self.total_cost(),
        }
    }
}

impl GreenAnnealer {
    /// The factors are fractions.
    pub open spec fn wf(self) -> bool {
        &&& self.merge_factor.den > 0
        &&& self.ride_factor.den > 0
    }

    /// The schedule of a run.
    pub open spec fn schedule(self) -> Schedule {
        Schedule { nsteps: self.nsteps, t0: self.t0, t1: self.t1 }
    }

    /// The schedule of a polishing run: half the steps, from the one polishing
    /// temperature to the other.
    pub open spec fn polish_schedule(self) -> Schedule {
        Schedule {
            nsteps: (self.nsteps / 2) as usize,
            t0: self.polish_t0,
            t1: self.polish_t1,
        }
    }

    /// The network of an einsum under the annealer's factors.
    pub open spec fn net<L>(
        self,
        code: EinCode<L>,
        dict: Map<L, usize>,
        is_complex: Seq<bool>,
    ) -> Net {
        code_net(code, dict, is_complex, self.merge_factor, self.ride_factor)
    }

    /// Whether the annealer may turn the order `x` into `nested`, with that
    /// report if one is given: a single tensor stays; any other order is the
    /// export of what annealing makes of it, one run per seed.
    pub open spec fn optimizes<L, F: Fn(&Uphill) -> bool>(
        self,
        rule: F,
        code: EinCode<L>,
        dict: Map<L, usize>,
        is_complex: Seq<bool>,
        x: NestedEinsum<L>,
        nested: NestedEinsum<L>,
        report: Option<GreenReport>,
    ) -> bool {
        let net = self.net(code, dict, is_complex);
        match x {
            NestedEinsum::Leaf { .. } => {
                &&& nested == x
                &&& report matches Some(p) ==> p.reports_nothing()
            },
            NestedEinsum::Node { .. } => {
                &&& nested.binary()
                &&& exists|e: Shape|
                    {
                        &&& #[trigger] multi_annealed(
                            rule,
                            self.schedule(),
                            net,
                            self.seeds@,
                            x.preorder(0),
                            e,
                        )
                        &&& nested.model() == code_exported(e, net, code)
                        &&& report matches Some(p) ==> p.reports(net, x.preorder(0), e)
                    }
            },
        }
    }

    /// The annealer that knows green steps: factors 3 (merge) and 2 (ride).
    pub fn green_aware() -> (r: GreenAnnealer)
        ensures
            r.standard((Ratio { num: 3, den: 1 }), (Ratio { num: 2, den: 1 })),
    {
        GreenAnnealer::default()
    }

    /// The annealer that counts every step at its bare volume: both factors are
    /// one.
    pub fn green_blind() -> (r: GreenAnnealer)
        ensures
            r.standard((Ratio { num: 1, den: 1 }), (Ratio { num: 1, den: 1 })),
    {
        GreenAnnealer {
            merge_factor: Ratio::whole(1),
            ride_factor: Ratio::whole(1),
            ..GreenAnnealer::default()
        }
    }

    /// Sets the cost factors.
    pub fn with_factors(self, merge_factor: Ratio, ride_factor: Ratio) -> (r: GreenAnnealer)
        ensures
            r == (GreenAnnealer { merge_factor, ride_factor, ..self }),
    {
        GreenAnnealer { merge_factor, ride_factor, ..self }
    }

    /// Sets the number of annealing steps per seed.
    pub fn with_nsteps(self, nsteps: usize) -> (r: GreenAnnealer)
        ensures
            r == (GreenAnnealer { nsteps, ..self }),
    {
        GreenAnnealer { nsteps, ..self }
    }

    /// Sets the temperatures at the ends of the schedule.
    pub fn with_schedule(self, t0: Ratio, t1: Ratio) -> (r: GreenAnnealer)
        ensures
            r == (GreenAnnealer { t0, t1, ..self }),
    {
        GreenAnnealer { t0, t1, ..self }
    }

    /// Sets the seeds of the runs.
    pub fn with_seeds(self, seeds: Vec<u64>) -> (r: GreenAnnealer)
        ensures
            r == (GreenAnnealer { seeds, ..self }),
    {
        GreenAnnealer { seeds, ..self }
    }

    /// Sets the budget of the search for the starting tree.
    pub fn with_initializer(self, initializer: TreeSA) -> (r: GreenAnnealer)
        ensures
            r == (GreenAnnealer { initializer, ..self }),
    {
        GreenAnnealer { initializer, ..self }
    }

    /// Anneals the contraction order `start` once per seed and gives the best
    /// order found with a report of its cost; nothing where there is no order to
    /// start from.
    ///
    /// * `is_complex`: whether each tensor is structurally complex.
    /// * `uphill`: the rule that decides on moves that raise the cost.
    pub fn optimize_with_green<L: Label, F: Fn(&Uphill) -> bool>(
        &self,
        code: &EinCode<L>,
        size_dict: &SizeDict<L>,
        is_complex: &[bool],
        start: Option<NestedEinsum<L>>,
        uphill: &F,
    ) -> (r: Option<(NestedEinsum<L>, GreenReport)>)
        requires
            is_complex@.len() == code.ixs@.len(),
            workable(*code, size_dict@, start),
            self.wf(),
            forall|u: Uphill| #[trigger] call_requires(*uphill, (&u,)),
        ensures
            r is Some == start is Some,
            r matches Some(o) ==> self.optimizes(
                *uphill,
                *code,
                size_dict@,
                is_complex@,
                start->0,
                o.0,
                Some(o.1),
            ),
            r matches Some(o) ==> o.1.final_cost@ <= o.1.start_cost@,
    {
        let start: NestedEinsum<L> = match start {
            None => {
                return None;
            },
            Some(x) => x,
        };
        if start.is_leaf() {
            let report = GreenReport {
                start_cost: Natural::zero(),
                final_cost: Natural::zero(),
                pass_volume: Natural::zero(),
                ride_volume: Natural::zero(),
                merge_volume: Natural::zero(),
            };
            return Some((start, report));
        }
        let labels: Vec<L> = build_label_map(code);
        let mut tree = flat_tree(
            &start,
            code,
            size_dict,
            is_complex,
            self.merge_factor,
            self.ride_factor,
        );
        let start_cost: Natural = tree.total_cost();
        let start_snap: TreeSnapshot = tree.snapshot();
        let best: Option<Natural> = tree.multi_anneal(
            &start_snap,
            self.nsteps,
            self.t0,
            self.t1,
            self.seeds.as_slice(),
            uphill,
        );
        let final_cost: Natural = tree.cost_of(best);
        let (pass_volume, ride_volume, merge_volume) = tree.breakdown();
        let nested: NestedEinsum<L> = tree.to_order(code, &labels);
        let report = GreenReport {
            start_cost,
            final_cost,
            pass_volume,
            ride_volume,
            merge_volume,
        };
        proof {
            let net = self.net(*code, size_dict@, is_complex@);
            let s = start.preorder(0);
            let e = tree@.shape();
            assert(multi_annealed(*uphill, self.schedule(), net, self.seeds@, s, e));
            assert(report.reports(net, s, e));
            lemma_preorder(start, 0);
            law_multi_annealing_improves(*uphill, self.schedule(), net, self.seeds@, s, e);
            assert(nested.model() == code_exported(e, net, *code));
        }
        Some((nested, report))
    }

    /// Anneals the contraction order `start` with every tensor taken as complex.
    ///
    /// Every step then pays the merge factor, so that the anneal goes by volume
    /// alone.
    pub fn optimize<L: Label, F: Fn(&Uphill) -> bool>(
        &self,
        code: &EinCode<L>,
        size_dict: &SizeDict<L>,
        start: Option<NestedEinsum<L>>,
        uphill: &F,
    ) -> (r: Option<NestedEinsum<L>>)
        requires
            workable(*code, size_dict@, start),
            self.wf(),
            forall|u: Uphill| #[trigger] call_requires(*uphill, (&u,)),
        ensures
            r is Some == start is Some,
            r matches Some(nested) ==> self.optimizes(
                *uphill,
                *code,
                size_dict@,
                Seq::new(code.ixs@.len(), |t: int| true),
                start->0,
                nested,
                None,
            ),
    {
        let n: usize = code.num_tensors();
        let mut is_complex: Vec<bool> = Vec::with_capacity(n);
        let mut t: usize = 0;
        while t < n
            invariant
                t <= n,
                is_complex@ == Seq::new(t as nat, |j: int| true),
            decreases n - t,
        {
            is_complex.push(true);
            t += 1;
            assert(is_complex@ =~= Seq::new(t as nat, |j: int| true));
        }
        match self.optimize_with_green(code, size_dict, is_complex.as_slice(), start, uphill) {
            None => None,
            Some((nested, _)) => Some(nested),
        }
    }
}

} // verus!
