use greensa::anneal::Uphill;
use greensa::annealer::{GreenAnnealer, TreeSA};
use greensa::labels::SizeDict;
use greensa::natural::Natural;
use greensa::nested::{EinCode, NestedEinsum};
use greensa::pipeline::green_pipeline;
use greensa::random::Source;
use greensa::ratio::Ratio;
use greensa::rotation::RotationScratch;
use greensa::state::NONE;
use greensa::tree::GreenTree;
use rand::rngs::SmallRng;
use rand::{Rng, SeedableRng};
use std::collections::HashMap;

/// The base-two logarithm of an exact number.
fn log2(n: &Natural) -> f64 {
    let limbs = n.limbs();
    let mut mantissa = 0.0f64;
    for limb in limbs.iter().rev() {
        mantissa = mantissa * 2f64.powi(64) + *limb as f64;
    }
    mantissa.log2()
}

/// Acceptance by the ratio of the logarithms of the costs.
fn accepts(u: &Uphill) -> bool {
    let t0 = u.t0.num as f64 / u.t0.den as f64;
    let t1 = u.t1.num as f64 / u.t1.den as f64;
    let temp = t0 * (t1 / t0).powf(u.step as f64 / u.nsteps as f64);
    let draw = (u.draw >> 11) as f64 * 2f64.powi(-53);
    draw < (-(log2(&u.proposed) - log2(&u.current)) / temp).exp()
}

/// Ring of `nt` tensors (tensor i carries labels {i, (i+1) mod nt})
/// plus `chords` random extra labels shared by two distinct tensors.
/// Every label appears exactly twice -> valid scalar-output network.
fn ring_network(nt: usize, chords: usize, seed: u64) -> (Vec<Vec<usize>>, Vec<usize>, Vec<usize>) {
    let mut rng = SmallRng::seed_from_u64(seed);
    let mut ixs: Vec<Vec<usize>> = (0..nt).map(|i| vec![i, (i + 1) % nt]).collect();
    let mut next_label = nt;
    for _ in 0..chords {
        let a = rng.random_range(0..nt);
        let mut b = rng.random_range(0..nt);
        if a == b {
            b = (b + 1) % nt;
        }
        ixs[a].push(next_label);
        ixs[b].push(next_label);
        next_label += 1;
    }
    (ixs, vec![], vec![2; next_label])
}

/// Deterministic mixed complexity pattern (~40% complex).
fn mixed_complex(nt: usize) -> Vec<bool> {
    (0..nt).map(|i| (i * 7 + 3) % 5 < 2).collect()
}

/// Open-label volume of node `i`, computed by walking the subtree leaf sets
/// from scratch. Independent of the incremental machinery.
fn naive_real_cost(tree: &GreenTree, i: usize) -> u64 {
    fn collect_counts(tree: &GreenTree, i: usize, acc: &mut HashMap<usize, i16>) {
        if tree.is_leaf(i) {
            for &l in &tree.net.ixs[tree.tensoridx[i]] {
                *acc.entry(l).or_insert(0) += 1;
            }
        } else {
            collect_counts(tree, tree.left[i], acc);
            collect_counts(tree, tree.right[i], acc);
        }
    }
    let mut ca = HashMap::new();
    let mut cb = HashMap::new();
    collect_counts(tree, tree.left[i], &mut ca);
    collect_counts(tree, tree.right[i], &mut cb);
    let mut open = 1u64;
    for l in 0..tree.net.nlabels {
        let x = ca.get(&l).copied().unwrap_or(0);
        let y = cb.get(&l).copied().unwrap_or(0);
        let tot = tree.net.total[l];
        if (x > 0 && x < tot) || (y > 0 && y < tot) || (tree.net.is_output[l] && (x > 0 || y > 0)) {
            open *= tree.net.sizes[l] as u64;
        }
    }
    open
}

fn assert_tree_matches_naive(tree: &GreenTree) {
    for i in 0..tree.nnodes() {
        if tree.is_leaf(i) {
            continue;
        }
        assert_eq!(
            tree.realcost[i].to_u64(),
            Some(naive_real_cost(tree, i)),
            "realcost mismatch at node {i}"
        );
        let ga = tree.green[tree.left[i]];
        let gb = tree.green[tree.right[i]];
        let factor = if ga && gb {
            tree.net.merge_factor
        } else if ga || gb {
            tree.net.ride_factor
        } else {
            Ratio::whole(1)
        };
        assert_eq!(factor.den, 1);
        assert_eq!(
            tree.stepcost[i],
            tree.realcost[i].scaled(factor.num as u64),
            "stepcost mismatch at node {i}"
        );
    }
}

/// A starting order: joins the two tensors with the smallest result again and
/// again.
fn greedy_start(ixs: &[Vec<usize>], iy: &[usize], sizes: &[usize]) -> NestedEinsum<usize> {
    let mut open: Vec<(NestedEinsum<usize>, Vec<usize>)> = ixs
        .iter()
        .enumerate()
        .map(|(t, ix)| (NestedEinsum::leaf(t), ix.clone()))
        .collect();
    while open.len() > 1 {
        let mut best: Option<(f64, usize, usize, Vec<usize>)> = None;
        for a in 0..open.len() {
            for b in a + 1..open.len() {
                let mut out: Vec<usize> = Vec::new();
                for l in open[a].1.iter().chain(open[b].1.iter()) {
                    let elsewhere = iy.contains(l)
                        || open
                            .iter()
                            .enumerate()
                            .any(|(c, x)| c != a && c != b && x.1.contains(l));
                    if elsewhere && !out.contains(l) {
                        out.push(*l);
                    }
                }
                let size: f64 = out.iter().map(|l| sizes[*l] as f64).product();
                if best.as_ref().map_or(true, |x| size < x.0) {
                    best = Some((size, a, b, out));
                }
            }
        }
        let (_, a, b, out) = best.expect("two tensors are left");
        let (y, _) = open.remove(b);
        let (x, _) = open.remove(a);
        open.push((NestedEinsum::node(vec![x, y], EinCode::new(vec![], vec![])), out));
    }
    open.pop().expect("one tensor is left").0
}

/// The number of scalar multiplications of an order.
fn order_volume(nested: &NestedEinsum<usize>, sizes: &[usize]) -> u64 {
    match nested {
        NestedEinsum::Leaf { .. } => 0,
        NestedEinsum::Node { args, eins } => {
            let mut labels: Vec<usize> = Vec::new();
            for l in eins.ixs.iter().flatten().chain(eins.iy.iter()) {
                if !labels.contains(l) {
                    labels.push(*l);
                }
            }
            let step: u64 = labels.iter().map(|l| sizes[*l] as u64).product();
            step + args.iter().map(|x| order_volume(x, sizes)).sum::<u64>()
        }
    }
}

fn make_tree(
    ixs: &[Vec<usize>],
    iy: &[usize],
    sizes: &[usize],
    is_complex: &[bool],
    merge: u32,
    ride: u32,
) -> GreenTree {
    let start = greedy_start(ixs, iy, sizes);
    GreenTree::from_nested(
        &start,
        ixs.to_vec(),
        iy.to_vec(),
        sizes.to_vec(),
        is_complex.to_vec(),
        Ratio::whole(merge),
        Ratio::whole(ride),
    )
}

fn size_dict(sizes: &[usize]) -> SizeDict<usize> {
    let mut dict = SizeDict::new();
    for (l, size) in sizes.iter().enumerate() {
        dict.insert(l, *size);
    }
    dict
}

fn at_most(a: &Natural, b: &Natural) -> bool {
    !b.less_than(a)
}

#[test]
fn refresh_matches_naive_on_start_tree() {
    let (ixs, iy, sizes) = ring_network(24, 6, 5);
    let is_complex = mixed_complex(ixs.len());
    let tree = make_tree(&ixs, &iy, &sizes, &is_complex, 3, 2);
    assert_tree_matches_naive(&tree);
}

#[test]
fn incremental_cost_matches_full_recompute_after_rotations() {
    let (ixs, iy, sizes) = ring_network(24, 6, 11);
    let is_complex = mixed_complex(ixs.len());
    let mut tree = make_tree(&ixs, &iy, &sizes, &is_complex, 3, 2);
    let mut source = Source::seeded(99);
    let mut scratch = RotationScratch::new(tree.net.nlabels);
    for step in 0..300 {
        if tree.try_rotation(&mut source, &mut scratch).is_none() {
            continue;
        }
        // Accept every rotation. Now the incremental state must equal a
        // full recomputation from structure, exactly.
        let mut check = tree.clone();
        check.recompute_from_structure();
        assert_eq!(tree.counts, check.counts, "counts drift at step {step}");
        assert_eq!(tree.green, check.green, "green drift at step {step}");
        assert_eq!(tree.realcost, check.realcost, "realcost drift at step {step}");
        assert_eq!(tree.stepcost, check.stepcost, "stepcost drift at step {step}");
        // The tree must also stay a valid binary tree covering every node.
        let mut seen = vec![false; tree.nnodes()];
        let mut stack = vec![tree.root];
        let mut visited = 0;
        while let Some(i) = stack.pop() {
            assert!(i < tree.nnodes() && !seen[i], "structure corrupt at step {step}");
            seen[i] = true;
            visited += 1;
            if tree.is_leaf(i) {
                assert!(tree.tensoridx[i] != NONE, "leaf without tensor at step {step}");
            } else {
                stack.push(tree.left[i]);
                stack.push(tree.right[i]);
            }
        }
        assert_eq!(visited, tree.nnodes(), "tree fragmented at step {step}");
        if step % 50 == 0 {
            assert_tree_matches_naive(&tree);
        }
    }
}

#[test]
fn undo_restores_exact_state() {
    let (ixs, iy, sizes) = ring_network(16, 4, 17);
    let is_complex = mixed_complex(ixs.len());
    let mut tree = make_tree(&ixs, &iy, &sizes, &is_complex, 3, 2);
    let mut source = Source::seeded(7);
    let mut scratch = RotationScratch::new(tree.net.nlabels);
    let before = tree.snapshot();
    let counts_before = tree.counts.clone();
    let green_before = tree.green.clone();
    let step_before = tree.stepcost.clone();
    let real_before = tree.realcost.clone();
    let mut rotated = 0;
    while rotated < 50 {
        let Some(rot) = tree.try_rotation(&mut source, &mut scratch) else {
            continue;
        };
        tree.undo(&rot, &mut scratch);
        rotated += 1;
    }
    assert_eq!(tree.left, before.left);
    assert_eq!(tree.right, before.right);
    assert_eq!(tree.parent, before.parent);
    assert_eq!(tree.counts, counts_before);
    assert_eq!(tree.green, green_before);
    assert_eq!(tree.stepcost, step_before);
    assert_eq!(tree.realcost, real_before);
}

#[test]
fn known_four_tensor_tree_costs() {
    // Ring of 4: ixs = [[0,1],[1,2],[2,3],[3,0]], complex [T,F,T,T],
    // tree ((0,1),(2,3)).
    let ixs = vec![vec![0, 1], vec![1, 2], vec![2, 3], vec![3, 0]];
    let iy: Vec<usize> = vec![];
    let sizes = vec![2; 4];
    let is_complex = vec![true, false, true, true];
    let t01 = NestedEinsum::<usize>::node(
        vec![NestedEinsum::leaf(0), NestedEinsum::leaf(1)],
        EinCode::new(vec![], vec![]),
    );
    let t23 = NestedEinsum::<usize>::node(
        vec![NestedEinsum::leaf(2), NestedEinsum::leaf(3)],
        EinCode::new(vec![], vec![]),
    );
    let root = NestedEinsum::node(vec![t01, t23], EinCode::new(vec![], vec![]));

    let tree = GreenTree::from_nested(
        &root,
        ixs,
        iy,
        sizes,
        is_complex,
        Ratio::whole(3),
        Ratio::whole(2),
    );
    // Open sets use PER-CHILD counts (0 < count_in_child < total):
    // Node (0,1) contracts [0,1]x[1,2]: open {0,1,2} -> real 8, ride x2 -> 16.
    // Node (2,3) contracts [2,3]x[3,0]: open {0,2,3} -> real 8, merge x3 -> 24.
    // Root contracts [0,2]x[0,2]: open {0,2} -> real 4, merge x3 -> 12.
    assert_eq!(tree.total_real().to_u64(), Some(20));
    assert_eq!(tree.total_cost().to_u64(), Some(52));
    let (pass, ride, merge) = tree.breakdown();
    assert_eq!(
        (pass.to_u64(), ride.to_u64(), merge.to_u64()),
        (Some(0), Some(8), Some(12))
    );

    // Green-blind factors make step cost == real cost everywhere.
    let blind = GreenTree::from_nested(
        &root,
        vec![vec![0, 1], vec![1, 2], vec![2, 3], vec![3, 0]],
        vec![],
        vec![2; 4],
        vec![true, false, true, true],
        Ratio::whole(1),
        Ratio::whole(1),
    );
    assert_eq!(blind.stepcost, blind.realcost);
    assert_eq!(blind.total_cost().to_u64(), Some(20));
}

#[test]
fn green_blind_volume_matches_contraction_complexity() {
    // With factors (1, 1) and labels of dimension two, total_real must equal
    // 2^tc of the exported NestedEinsum (sum of per-step volumes).
    let (ixs, iy, sizes) = ring_network(20, 5, 23);
    let is_complex = mixed_complex(ixs.len());
    let code = EinCode::new(ixs.clone(), iy.clone());

    let mut tree = make_tree(&ixs, &iy, &sizes, &is_complex, 1, 1);
    let mut source = Source::seeded(31);
    let mut scratch = RotationScratch::new(tree.net.nlabels);
    for _ in 0..200 {
        let Some(rot) = tree.try_rotation(&mut source, &mut scratch) else {
            continue;
        };
        if rot.delta.is_positive() {
            tree.undo(&rot, &mut scratch);
        }
    }
    let labels: Vec<usize> = (0..sizes.len()).collect();
    let nested = tree.to_nested(&code.ixs, &code.iy, &labels);
    assert_eq!(
        tree.total_real().to_u64(),
        Some(order_volume(&nested, &sizes))
    );
}

#[test]
fn caterpillar_anneal_strictly_improves() {
    // A left-linear tree on a chorded ring is far from optimal; the
    // (1, 1) anneal must strictly improve it (deterministic seeds).
    // (A plain ring is a bad instance: every contraction step there
    // opens exactly 3 labels, so the caterpillar is already optimal.)
    let (ixs, iy, sizes) = ring_network(30, 8, 41);
    let is_complex = vec![false; ixs.len()];
    let mut start = NestedEinsum::<usize>::node(
        vec![NestedEinsum::leaf(0), NestedEinsum::leaf(1)],
        EinCode::new(vec![], vec![]),
    );
    for i in 2..ixs.len() {
        start = NestedEinsum::node(
            vec![start, NestedEinsum::leaf(i)],
            EinCode::new(vec![], vec![]),
        );
    }
    let mut tree = GreenTree::from_nested(
        &start,
        ixs,
        iy,
        sizes,
        is_complex,
        Ratio::whole(1),
        Ratio::whole(1),
    );
    let initial = tree.total_cost();
    let snap = tree.snapshot();
    let best = tree
        .multi_anneal(
            &snap,
            20_000,
            Ratio::whole(1),
            Ratio::new(5, 1000),
            &[42, 7, 2026],
            &accepts,
        )
        .expect("there are seeds");
    assert!(
        best.less_than(&initial),
        "anneal should improve a caterpillar: {best:?} vs {initial:?}"
    );
    assert!(at_most(&tree.total_cost(), &initial));
}

#[test]
fn anneal_is_deterministic_per_seed() {
    let (ixs, iy, sizes) = ring_network(20, 5, 43);
    let is_complex = mixed_complex(ixs.len());
    let run = || {
        let mut tree = make_tree(&ixs, &iy, &sizes, &is_complex, 3, 2);
        let snap = tree.snapshot();
        tree.multi_anneal(
            &snap,
            5_000,
            Ratio::whole(1),
            Ratio::new(5, 1000),
            &[42, 7, 2026],
            &accepts,
        )
    };
    assert_eq!(run(), run());
}

#[test]
fn to_nested_produces_consistent_labels() {
    fn check(
        nested: &NestedEinsum<usize>,
        original_ixs: &[Vec<usize>],
        iy: &[usize],
    ) -> Vec<usize> {
        match nested {
            NestedEinsum::Leaf { tensor_index } => original_ixs[*tensor_index].clone(),
            NestedEinsum::Node { args, eins } => {
                assert_eq!(args.len(), 2);
                assert_eq!(eins.ixs.len(), 2);
                let lo = check(&args[0], original_ixs, iy);
                let ro = check(&args[1], original_ixs, iy);
                assert_eq!(lo, eins.ixs[0], "left child output mismatch");
                assert_eq!(ro, eins.ixs[1], "right child output mismatch");
                eins.iy.clone()
            }
        }
    }
    let (ixs, iy, sizes) = ring_network(18, 4, 47);
    let is_complex = mixed_complex(ixs.len());
    let code = EinCode::new(ixs.clone(), iy.clone());
    let mut tree = make_tree(&ixs, &iy, &sizes, &is_complex, 3, 2);
    let snap = tree.snapshot();
    tree.multi_anneal(
        &snap,
        3_000,
        Ratio::whole(1),
        Ratio::new(5, 1000),
        &[42],
        &accepts,
    );
    let labels: Vec<usize> = (0..sizes.len()).collect();
    let nested = tree.to_nested(&code.ixs, &code.iy, &labels);
    assert!(nested.is_binary());
    assert_eq!(nested.leaf_count(), ixs.len());
    let root_out = check(&nested, &code.ixs, &code.iy);
    assert_eq!(root_out, code.iy, "root output must match code.iy exactly");
}

#[test]
fn optimize_with_green_end_to_end() {
    let (ixs, iy, sizes) = ring_network(24, 6, 53);
    let is_complex = mixed_complex(ixs.len());
    let start = greedy_start(&ixs, &iy, &sizes);
    let code = EinCode::new(ixs, iy);
    let annealer = GreenAnnealer::green_aware()
        .with_nsteps(4_000)
        .with_initializer(TreeSA { ntrials: 1, niters: 20 });
    let (nested, report) = annealer
        .optimize_with_green(&code, &size_dict(&sizes), &is_complex, Some(start), &accepts)
        .expect("green optimization");
    assert!(nested.is_binary());
    assert!(at_most(&report.final_cost, &report.start_cost));
    let total = report
        .pass_volume
        .plus(&report.ride_volume)
        .plus(&report.merge_volume);
    assert!(Natural::zero().less_than(&total));
    assert_eq!(total.to_u64(), Some(order_volume(&nested, &sizes)));
}

#[test]
fn green_pipeline_orders_passes() {
    let (ixs, iy, sizes) = ring_network(24, 6, 59);
    let is_complex = mixed_complex(ixs.len());
    let start = greedy_start(&ixs, &iy, &sizes);
    let code = EinCode::new(ixs, iy);
    let config = GreenAnnealer::default()
        .with_nsteps(4_000)
        .with_initializer(TreeSA { ntrials: 1, niters: 20 });
    let outcome = green_pipeline(
        &code,
        &size_dict(&sizes),
        &is_complex,
        &config,
        Some(start),
        0,
        &accepts,
    )
    .expect("green pipeline");
    // Acceptance invariants: annealed <= start (same measure).
    assert!(at_most(&outcome.best_real_cost, &outcome.start_volume));
    assert!(at_most(&outcome.full_anneal_cost, &outcome.green_blind_cost));
    assert!(at_most(&outcome.polished_cost, &outcome.convert_only_cost));
    // Volume bookkeeping of the full-anneal tree.
    let total = outcome
        .full_anneal_pass_volume
        .plus(&outcome.full_anneal_ride_volume)
        .plus(&outcome.full_anneal_merge_volume);
    assert!(Natural::zero().less_than(&total));
    // The exported trees are valid binary trees.
    assert!(outcome.best_blind.is_binary());
    assert!(outcome.polished.is_binary());
    assert!(outcome.full_anneal.is_binary());
}

#[test]
fn output_labels_stay_open_when_inside_one_child() {
    // Non-scalar output: label 2 is in iy and occurs only in tensor 1.
    // It must remain open (and priced) at every ancestor step even
    // though 0 < count < total never holds for it.
    let ixs = vec![vec![0, 1], vec![1, 2]];
    let iy = vec![2];
    let sizes = vec![2; 3];
    let is_complex = vec![false, false];
    let start = NestedEinsum::<usize>::node(
        vec![NestedEinsum::leaf(0), NestedEinsum::leaf(1)],
        EinCode::new(vec![], vec![]),
    );
    let tree = GreenTree::from_nested(
        &start,
        ixs,
        iy,
        sizes,
        is_complex,
        Ratio::whole(1),
        Ratio::whole(1),
    );
    // Root step: open labels {1, 2} -> real cost 4.
    assert_eq!(tree.total_real().to_u64(), Some(4));
    let labels: Vec<usize> = vec![0, 1, 2];
    let nested = tree.to_nested(&[vec![0usize, 1], vec![1, 2]], &[2], &labels);
    match &nested {
        NestedEinsum::Node { eins, .. } => assert_eq!(eins.iy, vec![2]),
        _ => panic!("expected internal root"),
    }
}
