use greensa::anneal::{Course, Uphill};
use greensa::nested::{EinCode, NestedEinsum};
use greensa::network::{Network, StepKind};
use greensa::random::Source;
use greensa::ratio::Ratio;
use greensa::rotation::RotationScratch;
use greensa::state::NONE;
use greensa::tree::GreenTree;

fn leaf(t: usize) -> NestedEinsum<usize> {
    NestedEinsum::leaf(t)
}

fn join(a: NestedEinsum<usize>, b: NestedEinsum<usize>) -> NestedEinsum<usize> {
    NestedEinsum::node(vec![a, b], EinCode::new(vec![], vec![]))
}

/// The order ((0, 1), (2, 3)).
fn square() -> NestedEinsum<usize> {
    join(join(leaf(0), leaf(1)), join(leaf(2), leaf(3)))
}

fn ring_of_four() -> Vec<Vec<usize>> {
    vec![vec![0, 1], vec![1, 2], vec![2, 3], vec![3, 0]]
}

fn square_tree(is_complex: Vec<bool>, merge: Ratio, ride: Ratio) -> GreenTree {
    GreenTree::from_nested(
        &square(),
        ring_of_four(),
        vec![],
        vec![2; 4],
        is_complex,
        merge,
        ride,
    )
}

/// The chain 0 - 1 - 2 with the order ((0, 1), 2).
fn chain(sizes: Vec<usize>) -> GreenTree {
    GreenTree::from_nested(
        &join(join(leaf(0), leaf(1)), leaf(2)),
        vec![vec![0], vec![0, 1], vec![1]],
        vec![],
        sizes,
        vec![false; 3],
        Ratio::whole(3),
        Ratio::whole(2),
    )
}

fn never(_: &Uphill) -> bool {
    false
}

fn always(_: &Uphill) -> bool {
    true
}

fn number(n: u64) -> greensa::natural::Natural {
    greensa::natural::Natural::from_u64(n)
}

#[test]
fn import_numbers_nodes_in_preorder() {
    let tree = square_tree(vec![false; 4], Ratio::whole(3), Ratio::whole(2));
    assert_eq!(tree.nnodes(), 7);
    assert_eq!(tree.root(), 0);
    assert_eq!(tree.left, vec![1, 2, NONE, NONE, 5, NONE, NONE]);
    assert_eq!(tree.right, vec![4, 3, NONE, NONE, 6, NONE, NONE]);
    assert_eq!(tree.parent, vec![NONE, 0, 1, 1, 0, 4, 4]);
    assert_eq!(tree.tensoridx, vec![NONE, NONE, 0, 1, NONE, 2, 3]);
    for i in 0..tree.nnodes() {
        assert_eq!(tree.is_leaf(i), tree.tensoridx[i] != NONE);
        if !tree.is_leaf(i) {
            assert!(i < tree.left[i] && i < tree.right[i]);
        }
    }
}

#[test]
fn a_single_tensor_takes_no_step() {
    let tree = GreenTree::from_nested(
        &leaf(0),
        vec![vec![0, 1]],
        vec![0],
        vec![2, 3],
        vec![true],
        Ratio::whole(3),
        Ratio::whole(2),
    );
    assert_eq!(tree.nnodes(), 1);
    assert_eq!(tree.total_cost().to_u64(), Some(0));
    assert_eq!(tree.total_real().to_u64(), Some(0));
    assert_eq!(tree.to_nested(&[vec![0, 1]], &[0], &[0, 1]), leaf(0));
}

#[test]
fn books_hold_counts_and_greenness() {
    let tree = square_tree(vec![true, false, true, true], Ratio::whole(3), Ratio::whole(2));
    assert_eq!(tree.counts[1], vec![1, 2, 1, 0]);
    assert_eq!(tree.counts[4], vec![1, 0, 1, 2]);
    assert_eq!(tree.counts[0], vec![2, 2, 2, 2]);
    assert_eq!(tree.green, vec![true, true, true, false, true, true, true]);
    assert_eq!(tree.net.total, vec![2, 2, 2, 2]);
}

#[test]
fn greenness_comes_from_the_leaves() {
    let tree = square_tree(vec![false, false, false, true], Ratio::whole(3), Ratio::whole(2));
    assert!(tree.green[0]);
    assert!(!tree.green[1]);
    assert!(tree.green[4]);
}

#[test]
fn fractional_factors_are_counted_in_common_units() {
    // Factors 5/2 and 3/2: units of a quarter, weights 4, 6 and 10.
    let tree = square_tree(vec![true, false, true, true], Ratio::new(5, 2), Ratio::new(3, 2));
    assert_eq!(tree.net.weight(StepKind::Pass), 4);
    assert_eq!(tree.net.weight(StepKind::Ride), 6);
    assert_eq!(tree.net.weight(StepKind::Merge), 10);
    assert_eq!(tree.total_real().to_u64(), Some(20));
    assert_eq!(tree.total_cost().to_u64(), Some(8 * 6 + 12 * 10));
}

#[test]
fn factors_of_one_price_the_bare_volume() {
    let tree = square_tree(vec![true, false, true, false], Ratio::whole(1), Ratio::whole(1));
    assert_eq!(tree.total_cost(), tree.total_real());
}

#[test]
fn all_complex_trees_cost_merges_alone() {
    let tree = square_tree(vec![true; 4], Ratio::whole(3), Ratio::whole(2));
    assert_eq!(tree.total_cost(), tree.total_real().scaled(3));
}

#[test]
fn kinds_make_up_volume_and_cost() {
    // (0, 1) real, (2, 3) with one complex tensor, root with one green child.
    let tree = square_tree(vec![false, false, true, false], Ratio::whole(3), Ratio::whole(2));
    let (pass, ride, merge) = tree.breakdown();
    assert_eq!(pass.to_u64(), Some(8));
    assert_eq!(ride.to_u64(), Some(12));
    assert_eq!(merge.to_u64(), Some(0));
    assert_eq!(pass.plus(&ride).plus(&merge), tree.total_real());
    assert_eq!(pass.plus(&ride.scaled(2)).plus(&merge.scaled(3)), tree.total_cost());
}

#[test]
fn volumes_multiply_the_dimensions_of_open_labels() {
    // ((0, 1), 2): both labels are open in the inner step, the second at the root.
    let tree = chain(vec![8, 4]);
    assert_eq!(tree.realcost[1].to_u64(), Some(32));
    assert_eq!(tree.realcost[0].to_u64(), Some(4));
    assert_eq!(tree.total_real().to_u64(), Some(36));
    let tree = chain(vec![3, 5]);
    assert_eq!(tree.total_real().to_u64(), Some(20));
}

#[test]
fn volumes_outgrow_machine_words() {
    let n = 40usize;
    let shared: Vec<usize> = (0..n).collect();
    let tree = GreenTree::from_nested(
        &join(leaf(0), leaf(1)),
        vec![shared.clone(), shared],
        vec![],
        vec![1 << 16; n],
        vec![true; 2],
        Ratio::whole(3),
        Ratio::whole(2),
    );
    let mut limbs = vec![0; 10];
    limbs.push(3);
    assert_eq!(*tree.total_cost().limbs(), limbs);
}

#[test]
fn rotation_rewires_two_nodes() {
    let mut tree = chain(vec![8, 4]);
    let mut scratch = RotationScratch::new(2);
    assert_eq!(tree.inner_children(0), vec![1]);
    assert!(tree.inner_children(1).is_empty());
    assert!(tree.inner_children(4).is_empty());
    // Keep the left grandchild (tensor 0): the tree becomes ((2, 0), 1).
    let rot = tree.rotate(0, 1, true, &mut scratch);
    assert_eq!(tree.left, vec![1, 4, NONE, NONE, NONE]);
    assert_eq!(tree.right, vec![3, 2, NONE, NONE, NONE]);
    assert_eq!(tree.parent, vec![NONE, 0, 1, 0, 1]);
    // (2, 0) opens both labels, and so does the root: 32 + 32.
    assert_eq!(tree.total_real().to_u64(), Some(64));
    assert!(rot.delta.is_positive());
    assert_eq!(rot.delta.applied_to(&number(36)).to_u64(), Some(64));
    tree.undo(&rot, &mut scratch);
    assert_eq!(tree.left, vec![1, 2, NONE, NONE, NONE]);
    assert_eq!(tree.right, vec![4, 3, NONE, NONE, NONE]);
    assert_eq!(tree.parent, vec![NONE, 0, 1, 1, 0]);
    assert_eq!(tree.total_real().to_u64(), Some(36));
    // Keep the right grandchild (tensor 1): the tree becomes ((2, 1), 0).
    let rot = tree.rotate(0, 1, false, &mut scratch);
    assert_eq!(tree.left, vec![1, 4, NONE, NONE, NONE]);
    assert_eq!(tree.right, vec![2, 3, NONE, NONE, NONE]);
    assert_eq!(tree.total_real().to_u64(), Some(32 + 8));
    assert_eq!(rot.delta.applied_to(&number(36)).to_u64(), Some(40));
}

#[test]
fn a_copied_rotation_undoes_too() {
    let mut tree = square_tree(vec![true, false, true, true], Ratio::whole(3), Ratio::whole(2));
    let mut scratch = RotationScratch::new(4);
    let before = tree.clone();
    let rot = tree.rotate(0, 4, true, &mut scratch);
    assert_ne!(tree.left, before.left);
    tree.undo(&rot.clone(), &mut scratch.clone());
    assert_eq!(tree.left, before.left);
    assert_eq!(tree.right, before.right);
    assert_eq!(tree.parent, before.parent);
    assert_eq!(tree.counts, before.counts);
    assert_eq!(tree.stepcost, before.stepcost);
}

#[test]
fn rotation_touches_the_books_of_two_nodes() {
    let mut tree = square_tree(vec![true, false, true, true], Ratio::whole(3), Ratio::whole(2));
    let before = tree.clone();
    let mut scratch = RotationScratch::new(4);
    tree.rotate(0, 1, false, &mut scratch);
    for i in 2..tree.nnodes() {
        assert_eq!(tree.counts[i], before.counts[i]);
        assert_eq!(tree.green[i], before.green[i]);
        assert_eq!(tree.realcost[i], before.realcost[i]);
        assert_eq!(tree.stepcost[i], before.stepcost[i]);
    }
    assert_eq!(tree.counts[0], before.counts[0]);
    assert_eq!(tree.tensoridx, before.tensoridx);
}

#[test]
fn recomputing_changes_nothing() {
    let mut tree = square_tree(vec![true, false, false, true], Ratio::whole(3), Ratio::whole(2));
    let before = tree.clone();
    tree.recompute_from_structure();
    assert_eq!(tree.counts, before.counts);
    assert_eq!(tree.green, before.green);
    assert_eq!(tree.realcost, before.realcost);
    assert_eq!(tree.stepcost, before.stepcost);
}

#[test]
fn snapshots_carry_over_to_trees_of_the_same_order() {
    let is_complex = vec![true, false, true, true];
    let mut blind = square_tree(is_complex.clone(), Ratio::whole(1), Ratio::whole(1));
    let mut aware = square_tree(is_complex, Ratio::whole(3), Ratio::whole(2));
    let mut scratch = RotationScratch::new(4);
    blind.rotate(0, 1, true, &mut scratch);
    aware.rotate(0, 1, true, &mut scratch);
    let expected = aware.total_cost();
    aware.rotate(0, 1, true, &mut scratch);
    aware.restore(&blind.snapshot().clone());
    assert_eq!(aware.left, blind.left);
    assert_eq!(aware.right, blind.right);
    assert_eq!(aware.parent, blind.parent);
    assert_eq!(aware.total_cost(), expected);
}

#[test]
fn drawn_rotations_stay_in_the_tree() {
    let mut tree = square_tree(vec![true, false, true, true], Ratio::whole(3), Ratio::whole(2));
    let mut source = Source::seeded(3);
    let mut scratch = RotationScratch::new(4);
    let (mut some, mut none) = (0, 0);
    for _ in 0..500 {
        match tree.try_rotation(&mut source, &mut scratch) {
            Some(rot) => {
                assert!(rot.n < tree.nnodes() && rot.c < tree.nnodes());
                some += 1;
            }
            None => none += 1,
        }
    }
    assert!(some > 0 && none > 0);
}

#[test]
fn annealing_keeps_the_best_tree() {
    // ((2, 0), 1) costs 64, ((0, 1), 2) costs 36 and is the cheapest order.
    let mut tree = chain(vec![8, 4]);
    let mut scratch = RotationScratch::new(2);
    tree.rotate(0, 1, true, &mut scratch);
    assert_eq!(tree.total_cost().to_u64(), Some(64));
    let best = tree.anneal(200, Ratio::whole(1), Ratio::new(5, 1000), 42, &always);
    assert_eq!(best.to_u64(), Some(36));
    assert_eq!(tree.total_cost().to_u64(), Some(36));
}

#[test]
fn the_rule_sees_only_moves_that_raise_the_cost() {
    let mut tree = chain(vec![8, 4]);
    let mut source = Source::seeded(1);
    let rule = |u: &Uphill| {
        assert!(u.current.less_than(&u.proposed));
        assert!(1 <= u.step && u.step <= u.nsteps);
        assert_eq!(u.nsteps, 50);
        assert_eq!(u.t0, Ratio::whole(1));
        assert_eq!(u.t1, Ratio::new(1, 100));
        u.draw % 2 == 0
    };
    let best = tree.anneal_with(50, Ratio::whole(1), Ratio::new(1, 100), &mut source, &rule);
    assert_eq!(best.to_u64(), Some(36));
}

#[test]
fn a_rule_that_never_accepts_only_descends() {
    let mut tree = chain(vec![8, 4]);
    let before = tree.snapshot();
    let best = tree.anneal(300, Ratio::whole(1), Ratio::new(5, 1000), 7, &never);
    assert_eq!(best.to_u64(), Some(36));
    assert_eq!(tree.left, before.left);
    assert_eq!(tree.right, before.right);
}

#[test]
fn no_steps_leave_the_tree() {
    let mut tree = square_tree(vec![true; 4], Ratio::whole(3), Ratio::whole(2));
    let before = tree.snapshot();
    let best = tree.anneal(0, Ratio::whole(1), Ratio::new(5, 1000), 42, &always);
    assert_eq!(best.to_u64(), Some(60));
    assert_eq!(tree.left, before.left);
    assert_eq!(tree.right, before.right);
}

#[test]
fn no_seeds_give_no_cost_and_the_start() {
    let mut tree = chain(vec![8, 4]);
    let start = tree.snapshot();
    let mut scratch = RotationScratch::new(2);
    tree.rotate(0, 1, true, &mut scratch);
    let best = tree.multi_anneal(&start, 100, Ratio::whole(1), Ratio::new(5, 1000), &[], &always);
    assert!(best.is_none());
    assert_eq!(tree.left, start.left);
    assert_eq!(tree.total_cost().to_u64(), Some(36));
}

#[test]
fn a_step_concludes_by_keeping_or_undoing() {
    let mut tree = chain(vec![8, 4]);
    let mut scratch = RotationScratch::new(2);
    let cost = tree.total_cost();
    let mut course = Course { cur: cost.clone(), best: cost, best_snap: tree.snapshot() };
    let rot = tree.rotate(0, 1, true, &mut scratch);
    tree.conclude(&mut course, number(64), &rot, &mut scratch, true);
    assert_eq!(course.cur.to_u64(), Some(64));
    assert_eq!(course.best.to_u64(), Some(36));
    assert_eq!(tree.total_cost().to_u64(), Some(64));
    let rot = tree.rotate(0, 1, true, &mut scratch);
    tree.conclude(&mut course, number(40), &rot, &mut scratch, false);
    assert_eq!(course.cur.to_u64(), Some(64));
    assert_eq!(tree.total_cost().to_u64(), Some(64));
    course.best = number(50);
    let rot = tree.rotate(0, 1, false, &mut scratch);
    let next = rot.delta.applied_to(&course.cur);
    tree.conclude(&mut course, next.clone(), &rot, &mut scratch, true);
    assert_eq!(course.cur, next);
    assert_eq!(course.best, next);
    assert_eq!(course.best_snap.left, tree.left);
}

#[test]
fn networks_count_their_labels() {
    let net = Network::new(
        vec![vec![0, 0, 2], vec![2, 1]],
        vec![1, 1],
        vec![2, 3, 4],
        vec![true, false],
        Ratio::new(7, 3),
        Ratio::new(5, 4),
    );
    assert_eq!(net.total, vec![2, 1, 2]);
    assert_eq!(net.is_output, vec![false, true, false]);
    assert_eq!(net.weight(StepKind::Pass), 12);
    assert_eq!(net.weight(StepKind::Ride), 15);
    assert_eq!(net.weight(StepKind::Merge), 28);
    let copy = net.clone();
    assert_eq!(copy.ixs, net.ixs);
    assert_eq!(copy.total, net.total);
}

#[test]
fn drawn_values_decide_the_rotation() {
    let mut tree = square_tree(vec![true, false, true, true], Ratio::whole(3), Ratio::whole(2));
    let before = tree.clone();
    let mut scratch = RotationScratch::new(4);
    // A leaf, and a node over two leaves: nothing comes out.
    assert!(tree.rotate_drawn(2, 0, true, &mut scratch).is_none());
    assert!(tree.rotate_drawn(1, 5, false, &mut scratch).is_none());
    assert_eq!(tree.left, before.left);
    assert_eq!(tree.counts, before.counts);
    // The root has two inner children; the second one is node 4.
    let rot = tree.rotate_drawn(0, 1, false, &mut scratch).expect("an inner child");
    assert_eq!((rot.n, rot.c), (0, 4));
    assert_eq!(tree.left, vec![4, 2, NONE, NONE, 1, NONE, NONE]);
    assert_eq!(tree.right, vec![5, 3, NONE, NONE, 6, NONE, NONE]);
    assert_eq!(tree.parent, vec![NONE, 4, 1, 1, 0, 0, 4]);
    tree.undo(&rot, &mut scratch);
    assert_eq!(tree.left, before.left);
    assert_eq!(tree.parent, before.parent);
}

#[test]
fn a_word_settles_an_uphill_move() {
    let by_word = |u: &Uphill| u.draw == 11;
    let mut tree = chain(vec![8, 4]);
    let mut scratch = RotationScratch::new(2);
    let cost = tree.total_cost();
    let mut course = Course { cur: cost.clone(), best: cost, best_snap: tree.snapshot() };
    let (t0, t1) = (Ratio::whole(1), Ratio::new(1, 100));
    // From 36 to 64: the rule says no to one word and yes to another.
    let rot = tree.rotate(0, 1, true, &mut scratch);
    assert!(!tree.settle(&mut course, &rot, &mut scratch, 1, 9, t0, t1, 10, &by_word));
    assert_eq!(tree.total_cost().to_u64(), Some(36));
    assert_eq!(course.cur.to_u64(), Some(36));
    let rot = tree.rotate(0, 1, true, &mut scratch);
    assert!(tree.settle(&mut course, &rot, &mut scratch, 2, 9, t0, t1, 11, &by_word));
    assert_eq!(tree.total_cost().to_u64(), Some(64));
    assert_eq!(course.cur.to_u64(), Some(64));
    assert_eq!(course.best.to_u64(), Some(36));
    // From 64 down: no word matters.
    let rot = tree.rotate(0, 1, false, &mut scratch);
    assert!(!rot.delta.is_positive());
    assert!(tree.settle(&mut course, &rot, &mut scratch, 3, 9, t0, t1, 10, &never));
    assert_eq!(tree.total_cost(), course.cur);
}

#[test]
fn sources_draw_what_they_are_asked_for() {
    let mut source = Source::seeded(5);
    let mut seen = vec![false; 6];
    let (mut heads, mut tails) = (0, 0);
    for _ in 0..200 {
        seen[source.index(6)] = true;
        if source.coin() {
            heads += 1;
        } else {
            tails += 1;
        }
    }
    assert_eq!(seen, vec![true; 6]);
    assert!(heads > 0 && tails > 0);
    assert_ne!(source.word(), source.word());
    assert_ne!(Source::seeded(5).word(), Source::seeded(6).word());
    assert_eq!(Source::seeded(5).word(), Source::seeded(5).word());
}

#[test]
fn more_seeds_never_cost_more() {
    let run = |seeds: &[u64]| {
        let mut tree = square_tree(vec![true, false, true, true], Ratio::whole(3), Ratio::whole(2));
        let start = tree.snapshot();
        tree.multi_anneal(&start, 5, Ratio::whole(1), Ratio::new(1, 100), seeds, &always)
            .expect("there are seeds")
    };
    let few = run(&[1, 2]);
    assert_eq!(run(&[2, 1, 1]), few);
    assert!(!few.less_than(&run(&[1, 2, 3, 4])));
}

#[test]
fn blind_runs_do_not_see_complexity() {
    let run = |is_complex: Vec<bool>| {
        let mut tree = square_tree(is_complex, Ratio::whole(1), Ratio::whole(1));
        let rule = |u: &Uphill| u.draw % 2 == 0;
        let best = tree.anneal(60, Ratio::whole(1), Ratio::new(1, 100), 9, &rule);
        assert_eq!(best, tree.total_real());
        assert!(number(0).less_than(&best));
        (best, tree.left, tree.right)
    };
    assert_eq!(run(vec![true, false, true, false]), run(vec![false, false, false, true]));
}
