//! Natural numbers of any size, for exact contraction costs.
//!
//! A contraction volume is a product of label sizes and soon outgrows every
//! machine integer. [`Natural`] holds it in base `2^64` limbs, lowest first,
//! without a leading zero limb.

use vstd::arithmetic::power::{lemma_pow0, lemma_pow_increases, lemma_pow_positive, pow};
use vstd::prelude::*;

verus! {

/// The base of the limbs: `2^64`.
pub open spec fn limb_base() -> int {
    0x1_0000_0000_0000_0000
}

/// The number that the limbs `s` stand for, lowest limb first.
pub open spec fn value_of(s: Seq<u64>) -> nat
    decreases s.len(),
{
    if s.len() == 0 {
        0
    } else {
        (value_of(s.drop_last()) + s.last() * pow(limb_base(), (s.len() - 1) as nat)) as nat
    }
}

/// A natural number of any size.
#[derive(Debug, PartialEq, Eq)]
pub struct Natural {
    limbs: Vec<u64>,
}

/// An integer of any size: a sign and a magnitude.
#[derive(Debug, PartialEq, Eq)]
pub struct Signed {
    /// Whether the number lies below zero.
    pub negative: bool,
    /// The distance from zero.
    pub magnitude: Natural,
}

impl View for Natural {
    type V = nat;

    closed spec fn view(&self) -> nat {
        value_of(self.limbs@)
    }
}

impl View for Signed {
    type V = int;

    open spec fn view(&self) -> int {
        if self.negative {
            -(self.magnitude@ as int)
        } else {
            self.magnitude@ as int
        }
    }
}

impl Clone for Natural {
    fn clone(&self) -> (r: Natural)
        ensures
            r@ == self@,
    {
        proof {
            use_type_invariant(self);
        }
        let v = self.limbs.clone();
        assert(v@ =~= self.limbs@);
        Natural { limbs: v }
    }
}

impl Clone for Signed {
    fn clone(&self) -> (r: Signed)
        ensures
            r@ == self@,
    {
        Signed { negative: self.negative, magnitude: self.magnitude.clone() }
    }
}

/// The weight of the next place.
pub proof fn lemma_pow_step(i: nat)
    ensures
        pow(limb_base(), i + 1) == limb_base() * pow(limb_base(), i),
        pow(limb_base(), i) > 0,
{
    reveal(pow);
    lemma_pow_positive(limb_base(), i);
}

/// Appending a limb adds it at the weight of its place.
proof fn lemma_value_push(s: Seq<u64>, x: u64)
    ensures
        value_of(s.push(x)) == value_of(s) + x * pow(limb_base(), s.len()),
{
    assert(s.push(x).drop_last() =~= s);
    lemma_pow_positive(limb_base(), s.len());
    assert(x * pow(limb_base(), s.len()) >= 0) by (nonlinear_arith)
        requires
            x >= 0,
            pow(limb_base(), s.len()) > 0,
    ;
}

proof fn lemma_value_take(s: Seq<u64>, i: int)
    requires
        0 <= i < s.len(),
    ensures
        value_of(s.take(i + 1)) == value_of(s.take(i)) + s[i] * pow(limb_base(), i as nat),
{
    assert(s.take(i + 1) =~= s.take(i).push(s[i]));
    lemma_value_push(s.take(i), s[i]);
}

proof fn lemma_value_bound(s: Seq<u64>)
    ensures
        value_of(s) < pow(limb_base(), s.len()),
    decreases s.len(),
{
    if s.len() == 0 {
        lemma_pow0(limb_base());
    } else {
        let n = (s.len() - 1) as nat;
        lemma_value_bound(s.drop_last());
        lemma_pow_step(n);
        let p = pow(limb_base(), n);
        let x = s.last() as int;
        assert(x * p + p <= limb_base() * p) by (nonlinear_arith)
            requires
                x + 1 <= limb_base(),
                p > 0,
        ;
    }
}

/// A leading limb other than zero bounds the number from below.
proof fn lemma_value_leading(s: Seq<u64>)
    requires
        s.len() > 0,
        s.last() != 0,
    ensures
        value_of(s) >= pow(limb_base(), (s.len() - 1) as nat),
{
    let p = pow(limb_base(), (s.len() - 1) as nat);
    lemma_pow_positive(limb_base(), (s.len() - 1) as nat);
    let x = s.last() as int;
    assert(x * p >= p) by (nonlinear_arith)
        requires
            x >= 1,
            p > 0,
    ;
}

/// The number without its leading zero limbs.
fn trimmed(limbs: Vec<u64>) -> (r: Natural)
    ensures
        r@ == value_of(limbs@),
{
    let mut v = limbs;
    while v.len() > 0 && v[v.len() - 1] == 0
        invariant
            value_of(v@) == value_of(limbs@),
        decreases v@.len(),
    {
        let ghost before = v@;
        v.pop();
        proof {
            assert(v@ =~= before.drop_last());
            assert(0 * pow(limb_base(), (before.len() - 1) as nat) == 0) by (nonlinear_arith);
        }
    }
    Natural { limbs: v }
}

/// Multiplies the limbs `v` by `m`.
fn scale_limbs(v: &Vec<u64>, m: u64) -> (r: Vec<u64>)
    ensures
        value_of(r@) == value_of(v@) * m,
{
    let mut r: Vec<u64> = Vec::new();
    let mut carry: u64 = 0;
    let mut i: usize = 0;
    proof {
        lemma_pow0(limb_base());
        assert(v@.take(0) =~= Seq::<u64>::empty());
        assert(0 * (m as int) == 0) by (nonlinear_arith);
    }
    while i < v.len()
        invariant
            i <= v.len(),
            r@.len() == i,
            value_of(r@) + carry * pow(limb_base(), i as nat) == value_of(v@.take(i as int)) * m,
        decreases v.len() - i,
    {
        let x: u64 = v[i];
        assert(x as int * m as int + carry as int <= 0xffff_ffff_ffff_ffff_ffff_ffff_ffff_ffff)
            by (nonlinear_arith)
            requires
                0 <= x <= 0xffff_ffff_ffff_ffff,
                0 <= m <= 0xffff_ffff_ffff_ffff,
                0 <= carry <= 0xffff_ffff_ffff_ffff,
        ;
        assert(x as int * m as int <= 0xffff_ffff_ffff_ffff_ffff_ffff_ffff_ffff);
        assert(x as int * m as int >= 0) by (nonlinear_arith)
            requires
                x >= 0,
                m >= 0,
        ;
        let t: u128 = (x as u128) * (m as u128) + (carry as u128);
        let low: u64 = (t % 0x1_0000_0000_0000_0000) as u64;
        let high: u64 = (t / 0x1_0000_0000_0000_0000) as u64;
        proof {
            let p = pow(limb_base(), i as nat);
            let a = value_of(v@.take(i as int)) as int;
            let b = value_of(r@) as int;
            lemma_value_take(v@, i as int);
            lemma_value_push(r@, low);
            lemma_pow_step(i as nat);
            assert(low + high * limb_base() == x * m + carry);
            assert(b + low * p + high * (limb_base() * p) == (a + x * p) * m) by (nonlinear_arith)
                requires
                    b + carry * p == a * m,
                    low + high * limb_base() == x * m + carry,
            ;
        }
        r.push(low);
        carry = high;
        i += 1;
    }
    proof {
        assert(v@.take(i as int) =~= v@);
        lemma_value_push(r@, carry);
    }
    if carry != 0 {
        r.push(carry);
    } else {
        assert(0 * pow(limb_base(), i as nat) == 0) by (nonlinear_arith);
    }
    r
}

impl Natural {
    /// No leading zero limb.
    #[verifier::type_invariant]
    spec fn canonical(self) -> bool {
        self.limbs@.len() > 0 ==> self.limbs@.last() != 0
    }

    /// Zero.
    pub fn zero() -> (r: Natural)
        ensures
            r@ == 0,
    {
        Natural { limbs: Vec::new() }
    }

    /// The natural number `x`.
    pub fn from_u64(x: u64) -> (r: Natural)
        ensures
            r@ == x,
    {
        let mut v: Vec<u64> = Vec::new();
        v.push(x);
        proof {
            lemma_pow0(limb_base());
            assert(v@ =~= Seq::<u64>::empty().push(x));
            lemma_value_push(Seq::<u64>::empty(), x);
        }
        trimmed(v)
    }

    /// The limbs, lowest first; the last one is not zero.
    pub fn limbs(&self) -> (r: &Vec<u64>)
        ensures
            value_of(r@) == self@,
            r@.len() > 0 ==> r@.last() != 0,
    {
        proof {
            use_type_invariant(self);
        }
        &self.limbs
    }

    /// The number as a machine integer, where it fits.
    pub fn to_u64(&self) -> (r: Option<u64>)
        ensures
            match r {
                Some(x) => self@ == x,
                None => self@ > u64::MAX,
            },
    {
        proof {
            use_type_invariant(self);
            lemma_pow0(limb_base());
            lemma_pow_step(0);
        }
        if self.limbs.len() == 0 {
            Some(0)
        } else if self.limbs.len() == 1 {
            proof {
                assert(self.limbs@ =~= Seq::<u64>::empty().push(self.limbs@[0]));
                lemma_value_push(Seq::<u64>::empty(), self.limbs@[0]);
                assert(self.limbs@[0] * pow(limb_base(), 0) == self.limbs@[0]) by (nonlinear_arith)
                    requires
                        pow(limb_base(), 0) == 1,
                ;
            }
            Some(self.limbs[0])
        } else {
            proof {
                lemma_value_leading(self.limbs@);
                lemma_pow_increases(limb_base() as nat, 1, (self.limbs@.len() - 1) as nat);
            }
            None
        }
    }

    /// The product with `m`.
    pub fn scaled(&self, m: u64) -> (r: Natural)
        ensures
            r@ == self@ * m,
    {
        trimmed(scale_limbs(&self.limbs, m))
    }

    /// The sum with `other`.
    pub fn plus(&self, other: &Natural) -> (r: Natural)
        ensures
            r@ == self@ + other@,
    {
        let mut r: Vec<u64> = Vec::new();
        let mut carry: u64 = 0;
        let mut i: usize = 0;
        let a = &self.limbs;
        let b = &other.limbs;
        let n: usize = if a.len() < b.len() {
            b.len()
        } else {
            a.len()
        };
        let ghost sa = a@ + Seq::new((n - a@.len()) as nat, |j: int| 0u64);
        let ghost sb = b@ + Seq::new((n - b@.len()) as nat, |j: int| 0u64);
        proof {
            lemma_pow0(limb_base());
            lemma_value_padded(a@, (n - a@.len()) as nat);
            lemma_value_padded(b@, (n - b@.len()) as nat);
            assert(sa.take(0) =~= Seq::<u64>::empty());
            assert(sb.take(0) =~= Seq::<u64>::empty());
        }
        while i < n
            invariant
                i <= n,
                r@.len() == i,
                carry <= 1,
                a == &self.limbs,
                b == &other.limbs,
                sa.len() == n,
                sb.len() == n,
                a@.len() <= n,
                b@.len() <= n,
                forall|j: int| 0 <= j < n ==> #[trigger] sa[j] == if j < a@.len() { a@[j] } else { 0 },
                forall|j: int| 0 <= j < n ==> #[trigger] sb[j] == if j < b@.len() { b@[j] } else { 0 },
                value_of(r@) + carry * pow(limb_base(), i as nat) == value_of(sa.take(i as int))
                    + value_of(sb.take(i as int)),
            decreases n - i,
        {
            let x: u64 = if i < a.len() {
                a[i]
            } else {
                0
            };
            let y: u64 = if i < b.len() {
                b[i]
            } else {
                0
            };
            let t: u128 = (x as u128) + (y as u128) + (carry as u128);
            let low: u64 = (t % 0x1_0000_0000_0000_0000) as u64;
            let high: u64 = (t / 0x1_0000_0000_0000_0000) as u64;
            proof {
                let p = pow(limb_base(), i as nat);
                lemma_value_take(sa, i as int);
                lemma_value_take(sb, i as int);
                lemma_value_push(r@, low);
                lemma_pow_step(i as nat);
                assert(low + high * limb_base() == x + y + carry);
                assert(low * p + high * (limb_base() * p) == x * p + y * p + carry * p)
                    by (nonlinear_arith)
                    requires
                        low + high * limb_base() == x + y + carry,
                ;
            }
            r.push(low);
            carry = high;
            i += 1;
        }
        proof {
            assert(sa.take(i as int) =~= sa);
            assert(sb.take(i as int) =~= sb);
            lemma_value_push(r@, carry);
        }
        r.push(carry);
        trimmed(r)
    }

    /// The difference to a number that is no greater.
    pub fn minus(&self, other: &Natural) -> (r: Natural)
        requires
            other@ <= self@,
        ensures
            r@ == self@ - other@,
    {
        proof {
            use_type_invariant(self);
            use_type_invariant(other);
            if other.limbs@.len() > self.limbs@.len() {
                lemma_value_leading(other.limbs@);
                lemma_value_bound(self.limbs@);
                lemma_pow_increases(
                    limb_base() as nat,
                    self.limbs@.len(),
                    (other.limbs@.len() - 1) as nat,
                );
            }
        }
        let mut r: Vec<u64> = Vec::new();
        let mut borrow: u64 = 0;
        let mut i: usize = 0;
        let a = &self.limbs;
        let b = &other.limbs;
        let n: usize = a.len();
        let ghost sb = b@ + Seq::new((n - b@.len()) as nat, |j: int| 0u64);
        proof {
            lemma_pow0(limb_base());
            lemma_value_padded(b@, (n - b@.len()) as nat);
            assert(a@.take(0) =~= Seq::<u64>::empty());
            assert(sb.take(0) =~= Seq::<u64>::empty());
        }
        while i < n
            invariant
                i <= n,
                r@.len() == i,
                borrow <= 1,
                a == &self.limbs,
                b == &other.limbs,
                sb.len() == n,
                a@.len() == n,
                b@.len() <= n,
                forall|j: int| 0 <= j < n ==> #[trigger] sb[j] == if j < b@.len() { b@[j] } else { 0 },
                value_of(r@) + value_of(sb.take(i as int)) == value_of(a@.take(i as int)) + borrow
                    * pow(limb_base(), i as nat),
            decreases n - i,
        {
            let x: u64 = a[i];
            let y: u64 = if i < b.len() {
                b[i]
            } else {
                0
            };
            let t: u128 = 0x1_0000_0000_0000_0000u128 + (x as u128) - (y as u128) - (borrow as u128);
            let low: u64 = (t % 0x1_0000_0000_0000_0000) as u64;
            let short: u64 = if t < 0x1_0000_0000_0000_0000 {
                1
            } else {
                0
            };
            proof {
                let p = pow(limb_base(), i as nat);
                lemma_value_take(a@, i as int);
                lemma_value_take(sb, i as int);
                lemma_value_push(r@, low);
                lemma_pow_step(i as nat);
                assert(low + y + borrow == x + short * limb_base());
                assert(low * p + y * p + borrow * p == x * p + short * (limb_base() * p))
                    by (nonlinear_arith)
                    requires
                        low + y + borrow == x + short * limb_base(),
                ;
            }
            r.push(low);
            borrow = short;
            i += 1;
        }
        proof {
            assert(a@.take(i as int) =~= a@);
            assert(sb.take(i as int) =~= sb);
            lemma_value_bound(r@);
            let p = pow(limb_base(), i as nat);
            if borrow == 1 {
                assert(1 * p == p);
                assert(false);
            }
            assert(0 * p == 0);
        }
        trimmed(r)
    }

    /// Whether the number is less than `other`.
    pub fn less_than(&self, other: &Natural) -> (r: bool)
        ensures
            r == (self@ < other@),
    {
        proof {
            use_type_invariant(self);
            use_type_invariant(other);
        }
        let a = &self.limbs;
        let b = &other.limbs;
        if a.len() != b.len() {
            proof {
                lemma_value_bound(a@);
                lemma_value_bound(b@);
                if a@.len() < b@.len() {
                    lemma_value_leading(b@);
                    lemma_pow_increases(limb_base() as nat, a@.len(), (b@.len() - 1) as nat);
                } else {
                    lemma_value_leading(a@);
                    lemma_pow_increases(limb_base() as nat, b@.len(), (a@.len() - 1) as nat);
                }
            }
            return a.len() < b.len();
        }
        let mut i: usize = a.len();
        assert(a@.take(i as int) =~= a@);
        assert(b@.take(i as int) =~= b@);
        while i > 0
            invariant
                a == &self.limbs,
                b == &other.limbs,
                i <= a@.len(),
                a@.len() == b@.len(),
                (value_of(a@) < value_of(b@)) == (value_of(a@.take(i as int)) < value_of(
                    b@.take(i as int),
                )),
            decreases i,
        {
            let x: u64 = a[i - 1];
            let y: u64 = b[i - 1];
            proof {
                lemma_value_take(a@, i - 1);
                lemma_value_take(b@, i - 1);
                lemma_value_bound(a@.take(i - 1));
                lemma_value_bound(b@.take(i - 1));
                let p = pow(limb_base(), (i - 1) as nat);
                if x < y {
                    assert(x * p + p <= y * p) by (nonlinear_arith)
                        requires
                            x + 1 <= y,
                            p >= 0,
                    ;
                }
                if y < x {
                    assert(y * p + p <= x * p) by (nonlinear_arith)
                        requires
                            y + 1 <= x,
                            p >= 0,
                    ;
                }
            }
            if x != y {
                return x < y;
            }
            i -= 1;
        }
        assert(a@.take(0) =~= b@.take(0));
        false
    }
}

/// Leading zero limbs do not change the number.
proof fn lemma_value_padded(s: Seq<u64>, k: nat)
    ensures
        value_of(s + Seq::new(k, |j: int| 0u64)) == value_of(s),
    decreases k,
{
    let z = |j: int| 0u64;
    if k == 0 {
        assert(s + Seq::new(k, z) =~= s);
    } else {
        lemma_value_padded(s, (k - 1) as nat);
        assert(s + Seq::new(k, z) =~= (s + Seq::new((k - 1) as nat, z)).push(0));
        lemma_value_push(s + Seq::new((k - 1) as nat, z), 0);
        assert(0 * pow(limb_base(), (s.len() + k - 1) as nat) == 0) by (nonlinear_arith);
    }
}

impl Signed {
    /// The difference `plus - minus` of two natural numbers.
    pub fn difference(plus: &Natural, minus: &Natural) -> (r: Signed)
        ensures
            r@ == plus@ - minus@,
    {
        if plus.less_than(minus) {
            Signed { negative: true, magnitude: minus.minus(plus) }
        } else {
            Signed { negative: false, magnitude: plus.minus(minus) }
        }
    }

    /// Whether the number lies above zero.
    pub fn is_positive(&self) -> (r: bool)
        ensures
            r == (self@ > 0),
    {
        !self.negative && Natural::zero().less_than(&self.magnitude)
    }

    /// The natural number `x` moved by this much.
    pub fn applied_to(&self, x: &Natural) -> (r: Natural)
        requires
            x@ + self@ >= 0,
        ensures
            r@ == x@ + self@,
    {
        if self.negative {
            x.minus(&self.magnitude)
        } else {
            x.plus(&self.magnitude)
        }
    }
}

} // verus!
