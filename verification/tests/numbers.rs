use greensa::natural::{Natural, Signed};
use greensa::ratio::Ratio;

fn two_to_the_64() -> Natural {
    Natural::from_u64(1 << 32).scaled(1 << 32)
}

#[test]
fn small_numbers_are_exact() {
    assert_eq!(Natural::zero().to_u64(), Some(0));
    assert_eq!(Natural::from_u64(7).to_u64(), Some(7));
    assert_eq!(Natural::from_u64(7).scaled(6).to_u64(), Some(42));
    assert_eq!(Natural::from_u64(7).scaled(0), Natural::zero());
    assert_eq!(Natural::from_u64(7).plus(&Natural::from_u64(5)).to_u64(), Some(12));
    assert_eq!(Natural::from_u64(7).minus(&Natural::from_u64(5)).to_u64(), Some(2));
    assert_eq!(Natural::from_u64(7).minus(&Natural::from_u64(7)), Natural::zero());
}

#[test]
fn products_carry_into_new_limbs() {
    let square = Natural::from_u64(u64::MAX).scaled(u64::MAX);
    assert_eq!(*square.limbs(), vec![1, u64::MAX - 1]);
    assert_eq!(square.to_u64(), None);
    let cube = square.scaled(u64::MAX);
    assert_eq!(*cube.limbs(), vec![u64::MAX, 2, u64::MAX - 2]);
}

#[test]
fn sums_carry_and_differences_borrow() {
    let x = Natural::from_u64(u64::MAX).plus(&Natural::from_u64(1));
    assert_eq!(x, two_to_the_64());
    assert_eq!(*x.limbs(), vec![0, 1]);
    let y = x.minus(&Natural::from_u64(1));
    assert_eq!(y.to_u64(), Some(u64::MAX));
    assert_eq!(*y.limbs(), vec![u64::MAX]);
}

#[test]
fn order_compares_all_limbs() {
    let big = two_to_the_64();
    assert!(Natural::from_u64(u64::MAX).less_than(&big));
    assert!(!big.less_than(&Natural::from_u64(u64::MAX)));
    assert!(!big.less_than(&big));
    assert!(big.less_than(&big.plus(&Natural::from_u64(1))));
    assert!(big.less_than(&big.scaled(2)));
    assert!(Natural::zero().less_than(&Natural::from_u64(1)));
}

#[test]
fn clones_are_equal() {
    let big = two_to_the_64().scaled(12345);
    assert_eq!(big.clone(), big);
    let step = Signed::difference(&Natural::from_u64(3), &big);
    assert_eq!(step.clone(), step);
}

#[test]
fn signed_differences_apply_both_ways() {
    let five = Natural::from_u64(5);
    let nine = Natural::from_u64(9);
    let up = Signed::difference(&nine, &five);
    let down = Signed::difference(&five, &nine);
    let level = Signed::difference(&nine, &nine);
    assert!(up.is_positive());
    assert!(!down.is_positive());
    assert!(!level.is_positive());
    assert_eq!(up.applied_to(&Natural::from_u64(10)).to_u64(), Some(14));
    assert_eq!(down.applied_to(&Natural::from_u64(10)).to_u64(), Some(6));
    assert_eq!(level.applied_to(&Natural::from_u64(10)).to_u64(), Some(10));
}

#[test]
fn ratios_keep_their_terms() {
    assert_eq!(Ratio::new(5, 1000), Ratio { num: 5, den: 1000 });
    assert_eq!(Ratio::whole(3), Ratio { num: 3, den: 1 });
}
