use greensa::anneal::Uphill;
use greensa::annealer::{GreenAnnealer, TreeSA};
use greensa::guard::is_workable;
use greensa::labels::{
    build_label_map, convert_to_int_indices, copy_labels, find, numbers_of, SizeDict,
};
use greensa::nested::{EinCode, Label, NestedEinsum};
use greensa::pipeline::green_pipeline;
use greensa::problem::flat_tree;
use greensa::random::Source;
use greensa::ratio::Ratio;
use greensa::rotation::RotationScratch;
use greensa::tree::GreenTree;

fn join(a: NestedEinsum<char>, b: NestedEinsum<char>) -> NestedEinsum<char> {
    NestedEinsum::node(vec![a, b], EinCode::new(vec![], vec![]))
}

fn leaf(t: usize) -> NestedEinsum<char> {
    NestedEinsum::leaf(t)
}

/// ab, bc, cd -> ad.
fn chain_code() -> EinCode<char> {
    EinCode::new(
        vec![vec!['a', 'b'], vec!['b', 'c'], vec!['c', 'd']],
        vec!['a', 'd'],
    )
}

fn chain_dict() -> SizeDict<char> {
    let mut dict = SizeDict::new();
    dict.insert('a', 2);
    dict.insert('b', 3);
    dict.insert('c', 5);
    dict.insert('d', 7);
    dict
}

fn never(_: &Uphill) -> bool {
    false
}

#[test]
fn labels_are_numbered_by_first_occurrence() {
    let code = EinCode::new(vec![vec!['c', 'a'], vec!['a', 'b', 'c']], vec!['b', 'z']);
    let labels = build_label_map(&code);
    assert_eq!(labels, vec!['c', 'a', 'b', 'z']);
    assert_eq!(
        convert_to_int_indices(&code.ixs, &labels),
        vec![vec![0, 1], vec![1, 2, 0]]
    );
    assert_eq!(numbers_of(&code.iy, &labels), vec![2, 3]);
    assert_eq!(copy_labels(&labels), labels);
}

#[test]
fn the_last_of_equal_labels_is_found() {
    assert_eq!(find(&['x', 'y', 'x'], &'x'), Some(2));
    assert_eq!(find(&['x', 'y', 'x'], &'y'), Some(1));
    assert_eq!(find(&['x', 'y', 'x'], &'q'), None);
}

#[test]
fn labels_compare_and_copy() {
    assert!(7usize.same(&7) && !7usize.same(&8));
    assert!(7u32.same(&7) && !7u32.same(&8));
    assert!('x'.same(&'x') && !'x'.same(&'y'));
    assert_eq!(7usize.duplicate(), 7);
    assert_eq!(7u32.duplicate(), 7);
    assert_eq!('x'.duplicate(), 'x');
}

#[test]
fn the_last_entered_dimension_counts() {
    let mut dict = chain_dict();
    assert_eq!(dict.get(&'b'), Some(3));
    dict.insert('b', 11);
    assert_eq!(dict.get(&'b'), Some(11));
    assert_eq!(dict.get(&'a'), Some(2));
    assert_eq!(dict.get(&'q'), None);
}

#[test]
fn flat_trees_price_the_einsum() {
    let start = join(join(leaf(0), leaf(1)), leaf(2));
    let tree = flat_tree(
        &start,
        &chain_code(),
        &chain_dict(),
        &[false; 3],
        Ratio::whole(3),
        Ratio::whole(2),
    );
    // (0, 1) opens a, b, c; the root opens a, c, d.
    assert_eq!(tree.net.sizes, vec![2, 3, 5, 7]);
    assert_eq!(tree.net.is_output, vec![true, false, false, true]);
    assert_eq!(tree.realcost[1].to_u64(), Some(2 * 3 * 5));
    assert_eq!(tree.realcost[0].to_u64(), Some(2 * 5 * 7));
}

#[test]
fn open_labels_leave_the_subtree_or_are_outputs() {
    let start = join(join(leaf(0), leaf(1)), leaf(2));
    let tree = flat_tree(
        &start,
        &chain_code(),
        &chain_dict(),
        &[false; 3],
        Ratio::whole(3),
        Ratio::whole(2),
    );
    let open = |i: usize| (0..4).map(|l| tree.is_open_at(i, l)).collect::<Vec<bool>>();
    assert_eq!(open(1), vec![true, false, true, false]);
    // The whole tree keeps the output labels alone.
    assert_eq!(open(0), tree.net.is_output);
}

#[test]
fn exports_pass_labels_up_in_order() {
    let code = chain_code();
    let start = join(leaf(0), join(leaf(2), leaf(1)));
    let tree = flat_tree(
        &start,
        &code,
        &chain_dict(),
        &[false; 3],
        Ratio::whole(3),
        Ratio::whole(2),
    );
    let nested = tree.to_nested(&code.ixs, &code.iy, &build_label_map(&code));
    let inner = NestedEinsum::node(
        vec![leaf(2), leaf(1)],
        EinCode::new(vec![vec!['c', 'd'], vec!['b', 'c']], vec!['d', 'b']),
    );
    let expected = NestedEinsum::node(
        vec![leaf(0), inner],
        EinCode::new(vec![vec!['a', 'b'], vec!['d', 'b']], vec!['a', 'd']),
    );
    assert_eq!(nested, expected);
    assert_eq!(nested.clone(), expected);
    assert_eq!(tree.to_order(&code, &build_label_map(&code)), expected);
    assert_eq!(nested.leaf_count(), 3);
}

#[test]
fn exports_of_imports_keep_the_structure() {
    fn structure(x: &NestedEinsum<char>) -> String {
        match x {
            NestedEinsum::Leaf { tensor_index } => format!("{tensor_index}"),
            NestedEinsum::Node { args, .. } => {
                format!("({} {})", structure(&args[0]), structure(&args[1]))
            }
        }
    }
    let code = chain_code();
    for start in [
        join(join(leaf(0), leaf(1)), leaf(2)),
        join(leaf(1), join(leaf(2), leaf(0))),
    ] {
        let tree = flat_tree(
            &start,
            &code,
            &chain_dict(),
            &[false; 3],
            Ratio::whole(3),
            Ratio::whole(2),
        );
        let nested = tree.to_order(&code, &build_label_map(&code));
        assert_eq!(structure(&nested), structure(&start));
    }
}

#[test]
fn repeated_labels_pass_up_once() {
    // The trace over the doubled label a: aa, ab, b -> (nothing).
    let code = EinCode::new(vec![vec!['a', 'a'], vec!['a', 'b'], vec!['b']], vec![]);
    let start = join(join(leaf(0), leaf(2)), leaf(1));
    let mut dict = SizeDict::new();
    dict.insert('a', 2);
    dict.insert('b', 3);
    let tree = flat_tree(&start, &code, &dict, &[false; 3], Ratio::whole(1), Ratio::whole(1));
    match tree.to_order(&code, &build_label_map(&code)) {
        NestedEinsum::Node { eins, .. } => {
            assert_eq!(eins.ixs, vec![vec!['a', 'b'], vec!['a', 'b']]);
        }
        NestedEinsum::Leaf { .. } => panic!("expected an inner root"),
    }
    assert_eq!(tree.total_real().to_u64(), Some(6 + 6));
}

#[test]
fn equal_names_take_the_last_number() {
    // Both numbers have the name x; the export looks at the last.
    let tree = GreenTree::from_nested(
        &join(join(leaf(0), leaf(1)), leaf(2)),
        vec![vec![0], vec![0, 1], vec![1]],
        vec![],
        vec![2, 2],
        vec![false; 3],
        Ratio::whole(1),
        Ratio::whole(1),
    );
    let nested = tree.to_nested(&[vec!['x'], vec!['x', 'x'], vec!['x']], &[], &['x', 'x']);
    match nested {
        NestedEinsum::Node { eins, .. } => assert_eq!(eins.ixs[0], vec!['x']),
        NestedEinsum::Leaf { .. } => panic!("expected an inner root"),
    }
}

#[test]
fn unshared_labels_are_not_priced() {
    // The label a occurs in one tensor alone and is no output: the step does
    // not open it, though the einsum still lists it.
    let code = EinCode::new(vec![vec!['a', 'b'], vec!['b']], vec![]);
    let mut dict = SizeDict::new();
    dict.insert('a', 5);
    dict.insert('b', 3);
    let tree = flat_tree(
        &join(leaf(0), leaf(1)),
        &code,
        &dict,
        &[false; 2],
        Ratio::whole(1),
        Ratio::whole(1),
    );
    assert_eq!(tree.total_real().to_u64(), Some(3));
}

#[test]
fn orders_know_their_form() {
    let binary = join(leaf(0), leaf(1));
    assert!(binary.is_binary());
    assert!(!binary.is_leaf());
    assert!(leaf(0).is_binary());
    assert!(leaf(0).is_leaf());
    let wide = NestedEinsum::node(
        vec![leaf(0), leaf(1), leaf(2)],
        EinCode::new(vec![], vec![]),
    );
    assert!(!wide.is_binary());
    assert!(!join(wide.clone(), leaf(3)).is_binary());
    assert_eq!(wide.clone(), wide);
    assert_eq!(chain_code().num_tensors(), 3);
    assert_eq!(chain_code().clone(), chain_code());
}

#[test]
fn the_default_annealer_has_the_standard_configuration() {
    let d = GreenAnnealer::default();
    assert_eq!(d.merge_factor, Ratio::whole(3));
    assert_eq!(d.ride_factor, Ratio::whole(2));
    assert_eq!(d.nsteps, 600_000);
    assert_eq!(d.t0, Ratio::whole(1));
    assert_eq!(d.t1, Ratio::new(5, 1000));
    assert_eq!(d.seeds, vec![42, 7, 2026]);
    assert_eq!(d.polish_t0, Ratio::new(3, 100));
    assert_eq!(d.polish_t1, Ratio::new(2, 1000));
    assert_eq!(d.initializer, TreeSA { ntrials: 1, niters: 30 });
    assert_eq!(GreenAnnealer::green_aware().merge_factor, Ratio::whole(3));
    let blind = GreenAnnealer::green_blind();
    assert_eq!(blind.merge_factor, Ratio::whole(1));
    assert_eq!(blind.ride_factor, Ratio::whole(1));
    assert_eq!(blind.nsteps, 600_000);
    assert_eq!(blind.seeds, vec![42, 7, 2026]);
}

#[test]
fn builders_set_their_fields() {
    let a = GreenAnnealer::default()
        .with_factors(Ratio::new(5, 2), Ratio::new(3, 2))
        .with_nsteps(10)
        .with_schedule(Ratio::whole(2), Ratio::new(1, 10))
        .with_seeds(vec![1, 2])
        .with_initializer(TreeSA { ntrials: 4, niters: 9 });
    assert_eq!(a.merge_factor, Ratio::new(5, 2));
    assert_eq!(a.ride_factor, Ratio::new(3, 2));
    assert_eq!(a.nsteps, 10);
    assert_eq!(a.t0, Ratio::whole(2));
    assert_eq!(a.t1, Ratio::new(1, 10));
    assert_eq!(a.seeds, vec![1, 2]);
    assert_eq!(a.initializer, TreeSA { ntrials: 4, niters: 9 });
    assert_eq!(a.polish_t0, Ratio::new(3, 100));
    let b = a.clone();
    assert_eq!(b.seeds, a.seeds);
    assert_eq!(b.nsteps, a.nsteps);
}

#[test]
fn without_a_start_nothing_comes_out() {
    let annealer = GreenAnnealer::default().with_nsteps(10);
    let (code, dict) = (chain_code(), chain_dict());
    assert!(annealer
        .optimize_with_green(&code, &dict, &[false; 3], None, &never)
        .is_none());
    assert!(annealer.optimize(&code, &dict, None, &never).is_none());
    assert!(green_pipeline(&code, &dict, &[false; 3], &annealer, None, 5, &never).is_none());
}

#[test]
fn a_single_tensor_stays_as_it_is() {
    let code = EinCode::new(vec![vec!['a']], vec!['a']);
    let dict = SizeDict::new();
    let annealer = GreenAnnealer::default();
    let (nested, report) = annealer
        .optimize_with_green(&code, &dict, &[true], Some(leaf(0)), &never)
        .expect("there is a start");
    assert_eq!(nested, leaf(0));
    assert_eq!(report.start_cost.to_u64(), Some(0));
    assert_eq!(report.final_cost.to_u64(), Some(0));
    assert_eq!(report.pass_volume.to_u64(), Some(0));
    assert_eq!(report.ride_volume.to_u64(), Some(0));
    assert_eq!(report.merge_volume.to_u64(), Some(0));
    assert_eq!(annealer.optimize(&code, &dict, Some(leaf(0)), &never), Some(leaf(0)));
    let outcome = green_pipeline(&code, &dict, &[true], &annealer, Some(leaf(0)), 17, &never)
        .expect("there is a start");
    assert_eq!(outcome.start, leaf(0));
    assert_eq!(outcome.best_blind, leaf(0));
    assert_eq!(outcome.polished, leaf(0));
    assert_eq!(outcome.full_anneal, leaf(0));
    assert_eq!(outcome.start_volume.to_u64(), Some(0));
    assert_eq!(outcome.nanos, (17, 0, 0, 0));
}

#[test]
fn optimizing_finds_the_cheaper_chain() {
    // Joining 0 with 2 first costs 2*3*5*7 twice; the descent leaves it.
    let (code, dict) = (chain_code(), chain_dict());
    let bad = || join(join(leaf(0), leaf(2)), leaf(1));
    let annealer = GreenAnnealer::default().with_nsteps(200);
    let (nested, report) = annealer
        .optimize_with_green(&code, &dict, &[true, false, false], Some(bad()), &never)
        .expect("there is a start");
    // (0, 2) rides at 210, and so does the root.
    assert_eq!(report.start_cost.to_u64(), Some(2 * 210 + 2 * 210));
    // Best: ((0, 1), 2) with 30 + 70, both rides, or ((1, 2), 0) with a pass
    // of 105 and a ride of 42.
    assert_eq!(report.final_cost.to_u64(), Some(105 + 2 * 42));
    assert_eq!(report.pass_volume.to_u64(), Some(105));
    assert_eq!(report.ride_volume.to_u64(), Some(42));
    assert_eq!(report.merge_volume.to_u64(), Some(0));
    assert!(nested.is_binary());
    assert_eq!(nested.leaf_count(), 3);
    // With every tensor complex the volume decides: 30 + 70 against 105 + 42.
    let by_volume = annealer
        .optimize(&code, &dict, Some(bad()), &never)
        .expect("there is a start");
    let tree = flat_tree(&by_volume, &code, &dict, &[true; 3], Ratio::whole(1), Ratio::whole(1));
    assert_eq!(tree.total_real().to_u64(), Some(100));
}

#[test]
fn the_pipeline_reports_all_passes() {
    let (code, dict) = (chain_code(), chain_dict());
    let start = join(join(leaf(0), leaf(2)), leaf(1));
    let config = GreenAnnealer::default().with_nsteps(400);
    let outcome = green_pipeline(
        &code,
        &dict,
        &[true, false, false],
        &config,
        Some(start.clone()),
        99,
        &never,
    )
    .expect("there is a start")
    .clone();
    assert_eq!(outcome.start, start);
    assert_eq!(outcome.start_volume.to_u64(), Some(420));
    assert_eq!(outcome.green_blind_cost.to_u64(), Some(840));
    // The best skeleton is ((0, 1), 2); both its steps are rides.
    assert_eq!(outcome.best_real_cost.to_u64(), Some(100));
    assert_eq!(outcome.convert_only_cost.to_u64(), Some(200));
    // The aware passes end at ((1, 2), 0).
    assert_eq!(outcome.full_anneal_cost.to_u64(), Some(189));
    assert_eq!(outcome.polished_cost.to_u64(), Some(189));
    assert_eq!(outcome.full_anneal_pass_volume.to_u64(), Some(105));
    assert_eq!(outcome.full_anneal_ride_volume.to_u64(), Some(42));
    assert_eq!(outcome.full_anneal_merge_volume.to_u64(), Some(0));
    assert_eq!(outcome.nanos.0, 99);
    for x in [&outcome.best_blind, &outcome.full_anneal, &outcome.polished] {
        match x {
            NestedEinsum::Node { eins, .. } => assert_eq!(eins.iy, vec!['a', 'd']),
            NestedEinsum::Leaf { .. } => panic!("expected an inner root"),
        }
    }
}

#[test]
fn without_seeds_the_start_is_exported() {
    let (code, dict) = (chain_code(), chain_dict());
    let start = join(join(leaf(0), leaf(1)), leaf(2));
    let annealer = GreenAnnealer::default().with_seeds(vec![]);
    let (nested, report) = annealer
        .optimize_with_green(&code, &dict, &[false; 3], Some(start), &never)
        .expect("there is a start");
    assert_eq!(report.final_cost.to_u64(), Some(100));
    assert_eq!(report.start_cost.to_u64(), Some(100));
    assert_eq!(report.pass_volume.to_u64(), Some(100));
    assert_eq!(report.clone().start_cost, report.start_cost);
    let inner = NestedEinsum::node(
        vec![leaf(0), leaf(1)],
        EinCode::new(vec![vec!['a', 'b'], vec!['b', 'c']], vec!['a', 'c']),
    );
    let expected = NestedEinsum::node(
        vec![inner, leaf(2)],
        EinCode::new(vec![vec!['a', 'c'], vec!['c', 'd']], vec!['a', 'd']),
    );
    assert_eq!(nested, expected);
}

#[test]
fn a_tensor_may_be_a_leaf_twice() {
    let code = EinCode::new(vec![vec!['a']], vec![]);
    let mut dict = SizeDict::new();
    dict.insert('a', 2);
    let mut tree = flat_tree(
        &join(join(leaf(0), leaf(0)), leaf(0)),
        &code,
        &dict,
        &[true],
        Ratio::whole(3),
        Ratio::whole(2),
    );
    assert_eq!(tree.counts[0], vec![3]);
    // The label never leaves a subtree, so that no step opens it.
    assert_eq!(tree.total_cost().to_u64(), Some(6));
    let mut scratch = RotationScratch::new(1);
    tree.rotate(0, 1, true, &mut scratch);
    assert_eq!(tree.total_cost().to_u64(), Some(6));
}

#[test]
fn the_guard_admits_what_the_annealer_can_take() {
    let (code, dict) = (chain_code(), chain_dict());
    let good = || join(join(leaf(0), leaf(1)), leaf(2));
    assert!(is_workable(&code, &dict, &Some(good())));
    assert!(is_workable(&code, &dict, &None));
    // A single tensor needs no dimensions.
    assert!(is_workable(&code, &SizeDict::new(), &Some(leaf(9))));
    // A label without a dimension.
    assert!(!is_workable(&code, &SizeDict::new(), &Some(good())));
    // A leaf that names no tensor.
    assert!(!is_workable(&code, &dict, &Some(join(leaf(0), leaf(3)))));
    // A node that is not binary.
    let wide = NestedEinsum::node(
        vec![leaf(0), leaf(1), leaf(2)],
        EinCode::new(vec![], vec![]),
    );
    assert!(!is_workable(&code, &dict, &Some(wide)));
    // A label that occurs more often than the counters can hold.
    let often = EinCode::new(vec![vec!['a'; 40_000], vec!['a']], vec![]);
    assert!(!is_workable(&often, &dict, &Some(join(leaf(0), leaf(1)))));
    let twice = EinCode::new(vec![vec!['a'; 20_000], vec!['a']], vec![]);
    assert!(is_workable(&twice, &dict, &Some(join(leaf(0), leaf(1)))));
    assert!(!is_workable(&twice, &dict, &Some(join(leaf(0), leaf(0)))));
}

#[test]
fn optimized_orders_are_sound() {
    fn tensors(x: &NestedEinsum<char>, out: &mut Vec<usize>) {
        match x {
            NestedEinsum::Leaf { tensor_index } => out.push(*tensor_index),
            NestedEinsum::Node { args, .. } => {
                for arg in args {
                    tensors(arg, out);
                }
            }
        }
    }
    let (code, dict) = (chain_code(), chain_dict());
    let start = join(leaf(2), join(leaf(0), leaf(1)));
    let annealer = GreenAnnealer::green_blind().with_nsteps(300);
    let rule = |u: &Uphill| u.draw % 3 == 0;
    let (nested, report) = annealer
        .optimize_with_green(&code, &dict, &[true, false, true], Some(start), &rule)
        .expect("there is a start");
    let mut found = Vec::new();
    tensors(&nested, &mut found);
    found.sort();
    assert_eq!(found, vec![0, 1, 2]);
    // The best chain has 30 + 70 multiplications, blind factors price just that.
    assert_eq!(report.final_cost.to_u64(), Some(100));
    let total = report
        .pass_volume
        .plus(&report.ride_volume)
        .plus(&report.merge_volume);
    assert_eq!(total.to_u64(), Some(100));
}

#[test]
fn equal_draws_give_equal_runs() {
    let (code, dict) = (chain_code(), chain_dict());
    let run = || {
        let mut tree = flat_tree(
            &join(leaf(2), join(leaf(0), leaf(1))),
            &code,
            &dict,
            &[true, false, true],
            Ratio::whole(3),
            Ratio::whole(2),
        );
        let mut source = Source::seeded(12);
        let rule = |u: &Uphill| u.draw % 2 == 0;
        let best = tree.anneal_with(77, Ratio::whole(1), Ratio::new(1, 2), &mut source, &rule);
        (best, tree.left, tree.right, tree.parent)
    };
    assert_eq!(run(), run());
}

#[test]
fn without_seeds_the_start_is_the_best_tree() {
    let code = EinCode::new(vec![vec![0usize, 1], vec![1, 2]], vec![0, 2]);
    let mut dict = SizeDict::new();
    for l in 0..3 {
        dict.insert(l, 2);
    }
    let start = || {
        NestedEinsum::<usize>::node(
            vec![NestedEinsum::leaf(0), NestedEinsum::leaf(1)],
            EinCode::new(vec![], vec![]),
        )
    };
    let config = GreenAnnealer::default().with_seeds(vec![]);
    let (_, report) = config
        .optimize_with_green(&code, &dict, &[true, true], Some(start()), &never)
        .expect("there is a start");
    assert_eq!(report.start_cost.to_u64(), Some(24));
    assert_eq!(report.final_cost.to_u64(), Some(24));
    let outcome = green_pipeline(
        &code,
        &dict,
        &[true, true],
        &config,
        Some(start()),
        0,
        &never,
    )
    .expect("there is a start");
    assert_eq!(outcome.best_real_cost.to_u64(), Some(8));
    assert_eq!(outcome.full_anneal_cost.to_u64(), Some(24));
    assert_eq!(outcome.polished_cost.to_u64(), Some(24));
}

#[test]
fn start_volumes_ignore_complexity_and_factors() {
    let (code, dict) = (chain_code(), chain_dict());
    let volume = |is_complex: &[bool], merge: u32, ride: u32| {
        let config = GreenAnnealer::default()
            .with_factors(Ratio::whole(merge), Ratio::whole(ride))
            .with_nsteps(3);
        let inner = NestedEinsum::node(
            vec![leaf(0), leaf(1)],
            EinCode::new(vec![vec!['a', 'b'], vec!['b', 'c']], vec!['c', 'a']),
        );
        let start = NestedEinsum::node(
            vec![inner, leaf(2)],
            EinCode::new(vec![vec!['c', 'a'], vec!['c', 'd']], vec!['a', 'd']),
        );
        green_pipeline(&code, &dict, is_complex, &config, Some(start), 0, &never)
            .expect("there is a start")
            .start_volume
    };
    // The einsums of the start multiply 2*3*5 and 2*5*7 times.
    assert_eq!(volume(&[true; 3], 3, 2).to_u64(), Some(30 + 70));
    assert_eq!(volume(&[true, false, false], 3, 2), volume(&[false; 3], 7, 5));
}

#[test]
fn reimported_exports_are_priced_alike() {
    let (code, dict) = (chain_code(), chain_dict());
    let is_complex = [true, false, true];
    let mut tree = flat_tree(
        &join(leaf(2), join(leaf(0), leaf(1))),
        &code,
        &dict,
        &is_complex,
        Ratio::whole(3),
        Ratio::whole(2),
    );
    let mut scratch = RotationScratch::new(4);
    tree.rotate(0, 2, false, &mut scratch);
    let nested = tree.to_order(&code, &build_label_map(&code));
    let again = flat_tree(&nested, &code, &dict, &is_complex, Ratio::whole(3), Ratio::whole(2));
    assert_eq!(again.total_cost(), tree.total_cost());
    assert_eq!(again.total_real(), tree.total_real());
}

#[test]
fn optimizing_without_flags_flags_every_tensor() {
    let (code, dict) = (chain_code(), chain_dict());
    let start = || join(join(leaf(0), leaf(2)), leaf(1));
    let annealer = GreenAnnealer::default().with_nsteps(50);
    let rule = |u: &Uphill| u.draw % 2 == 0;
    let plain = annealer
        .optimize(&code, &dict, Some(start()), &rule)
        .expect("there is a start");
    let (flagged, _) = annealer
        .optimize_with_green(&code, &dict, &[true; 3], Some(start()), &rule)
        .expect("there is a start");
    assert_eq!(plain, flagged);
}
