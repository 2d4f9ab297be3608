//! Exact decimal numbers: a signed 96-bit mantissa and a power-of-ten
//! scale between 0 and 28, the representation of `rust_decimal`.
use vstd::prelude::*;
use vstd::arithmetic::div_mod::lemma_fundamental_div_mod_converse;
use vstd::std_specs::cmp::PartialEqSpecImpl;

verus! {

/// The largest scale (number of fractional digits) a decimal can carry.
pub const MAX_SCALE: u32 = 28;

/// The largest magnitude of a mantissa: 2^96 - 1.
pub const MAX_MANTISSA: i128 = 0xFFFF_FFFF_FFFF_FFFF_FFFF_FFFF;

/// 10 to the power `n`.
pub open spec fn pow10(n: nat) -> nat
    decreases n,
{
    if n == 0 {
        1
    } else {
        10 * pow10((n - 1) as nat)
    }
}

/// A mantissa and a scale that together form a representable decimal.
pub open spec fn valid_parts(m: int, s: int) -> bool {
    &&& 0 <= s <= MAX_SCALE
    &&& -MAX_MANTISSA <= m <= MAX_MANTISSA
}

/// The numeric value of the decimal `(mantissa, scale)` times 10^28: an
/// integer for every valid decimal, so that decimals compare as integers.
pub open spec fn scaled_value(v: (int, nat)) -> int {
    v.0 * pow10((MAX_SCALE - v.1) as nat)
}

/// The key by which a price is ordered and found again: the floor of
/// its value and its fractional part in units of 10^-28.
pub open spec fn price_key(v: (int, nat)) -> (i128, u128) {
    let p = pow10(v.1) as int;
    ((v.0 / p) as i128, ((v.0 % p) * pow10((MAX_SCALE - v.1) as nat)) as u128)
}

/// Lexicographic order on price keys, the order std gives to tuples.
pub open spec fn key_lt(a: (i128, u128), b: (i128, u128)) -> bool {
    a.0 < b.0 || (a.0 == b.0 && a.1 < b.1)
}

/// What `rust_decimal` computes as `a - b` for the decimals `(a_mantissa,
/// a_scale)` and `(b_mantissa, b_scale)`, as `(mantissa, scale)`, or `None`
/// where the difference overflows.
pub uninterp spec fn decimal_difference(a_mantissa: int, a_scale: int, b_mantissa: int, b_scale: int) -> Option<(int, nat)>;

/// The difference of two decimals given by their views, as `rust_decimal`
/// computes it.
pub open spec fn difference(a: (int, nat), b: (int, nat)) -> Option<(int, nat)> {
    decimal_difference(a.0, a.1 as int, b.0, b.1 as int)
}

/// The exact difference `a - b` of two decimals, written at the larger of
/// their two scales.
pub open spec fn exact_difference(a: (int, nat), b: (int, nat)) -> (int, nat) {
    let s: nat = if a.1 >= b.1 { a.1 } else { b.1 };
    (a.0 * pow10((s - a.1) as nat) - b.0 * pow10((s - b.1) as nat), s)
}

/// Whether the exact difference `a - b` fits a mantissa at that scale.
pub open spec fn difference_fits(a: (int, nat), b: (int, nat)) -> bool {
    -MAX_MANTISSA <= exact_difference(a, b).0 <= MAX_MANTISSA
}

/// Whether two decimals have the same value, whatever their scales.
pub open spec fn same_value(x: (int, nat), y: (int, nat)) -> bool {
    x.0 * pow10(y.1) == y.0 * pow10(x.1)
}

/// An exact decimal number `mantissa / 10^scale`.
#[derive(Clone, Copy, Debug)]
pub struct Decimal {
    mantissa: i128,
    scale: u32,
}

impl View for Decimal {
    type V = (int, nat);

    closed spec fn view(&self) -> (int, nat) {
        (self.mantissa as int, self.scale as nat)
    }
}

pub proof fn lemma_pow10_positive(n: nat)
    ensures
        pow10(n) >= 1,
    decreases n,
{
    if n > 0 {
        lemma_pow10_positive((n - 1) as nat);
    }
}

pub proof fn lemma_pow10_monotonic(a: nat, b: nat)
    requires
        a <= b,
    ensures
        pow10(a) <= pow10(b),
    decreases b,
{
    if a < b {
        lemma_pow10_monotonic(a, (b - 1) as nat);
        lemma_pow10_positive((b - 1) as nat);
    }
}

pub proof fn lemma_pow10_add(a: nat, b: nat)
    ensures
        pow10(a + b) == pow10(a) * pow10(b),
    decreases a,
{
    let y = pow10(b);
    if a == 0 {
        assert(pow10(a) == 1);
        assert(1 * y == y);
    } else {
        lemma_pow10_add((a - 1) as nat, b);
        let x = pow10((a - 1) as nat);
        assert((a - 1 + b) as nat == (a + b - 1) as nat);
        assert(pow10(a + b) == 10 * pow10((a + b - 1) as nat));
        assert(pow10(a) == 10 * x);
        assert(10 * (x * y) == (10 * x) * y) by (nonlinear_arith);
    }
}

proof fn lemma_pow10_max()
    ensures
        pow10(28) == 10_000_000_000_000_000_000_000_000_000,
{
    reveal_with_fuel(pow10, 29);
}

/// Every valid decimal's scaled value splits into its key: the key's
/// first part counts whole units and the second the fraction below one.
pub proof fn lemma_key_splits_value(v: (int, nat))
    requires
        valid_parts(v.0, v.1 as int),
    ensures
        scaled_value(v) == price_key(v).0 * pow10(28) + price_key(v).1,
        0 <= price_key(v).1 < pow10(28),
{
    let p = pow10(v.1) as int;
    let f = pow10((28 - v.1) as nat) as int;
    lemma_pow10_positive(v.1);
    lemma_pow10_positive((28 - v.1) as nat);
    lemma_pow10_add(v.1, (28 - v.1) as nat);
    lemma_pow10_max();
    let q = v.0 / p;
    let r = v.0 % p;
    assert(v.0 == q * p + r && 0 <= r < p) by {
        vstd::arithmetic::div_mod::lemma_fundamental_div_mod(v.0, p);
    }
    assert(0 <= r * f < p * f) by (nonlinear_arith)
        requires
            0 <= r < p,
            f >= 1,
    ;
    assert(-MAX_MANTISSA <= q <= MAX_MANTISSA) by (nonlinear_arith)
        requires
            v.0 == q * p + r,
            0 <= r < p,
            p >= 1,
            -MAX_MANTISSA <= v.0 <= MAX_MANTISSA,
    ;
    assert(v.0 * f == q * (p * f) + r * f) by (nonlinear_arith)
        requires
            v.0 == q * p + r,
    ;
}

/// Keys order prices as their values do, and two valid prices have the
/// same key exactly when they are numerically equal.
pub proof fn lemma_key_order(a: (int, nat), b: (int, nat))
    requires
        valid_parts(a.0, a.1 as int),
        valid_parts(b.0, b.1 as int),
    ensures
        key_lt(price_key(a), price_key(b)) <==> scaled_value(a) < scaled_value(b),
        price_key(a) == price_key(b) <==> scaled_value(a) == scaled_value(b),
{
    lemma_key_splits_value(a);
    lemma_key_splits_value(b);
    let t = pow10(28) as int;
    let qa = price_key(a).0 as int;
    let ra = price_key(a).1 as int;
    let qb = price_key(b).0 as int;
    let rb = price_key(b).1 as int;
    assert((qa < qb || (qa == qb && ra < rb)) <==> qa * t + ra < qb * t + rb) by (nonlinear_arith)
        requires
            0 <= ra < t,
            0 <= rb < t,
    ;
    assert((qa == qb && ra == rb) <==> qa * t + ra == qb * t + rb) by (nonlinear_arith)
        requires
            0 <= ra < t,
            0 <= rb < t,
    ;
}

/// 10^n as an integer, for n up to the largest scale.
fn pow10_u128(n: u32) -> (r: u128)
    requires
        n <= MAX_SCALE,
    ensures
        r == pow10(n as nat),
{
    let mut r: u128 = 1;
    let mut i: u32 = 0;
    while i < n
        invariant
            i <= n <= MAX_SCALE,
            r == pow10(i as nat),
        decreases n - i,
    {
        proof {
            lemma_pow10_monotonic((i + 1) as nat, 28);
            lemma_pow10_max();
        }
        r = r * 10;
        i = i + 1;
    }
    r
}

impl Decimal {
    #[verifier::type_invariant]
    pub open spec fn wf(self) -> bool {
        valid_parts(self@.0, self@.1 as int)
    }

    /// The decimal `mantissa / 10^scale`, or `None` where the scale exceeds
    /// 28 or the mantissa needs more than 96 bits.
    pub fn from_parts(mantissa: i128, scale: u32) -> (r: Option<Decimal>)
        ensures
            r is Some <==> valid_parts(mantissa as int, scale as int),
            r matches Some(d) ==> d@ == (mantissa as int, scale as nat),
    {
        if scale > MAX_SCALE || mantissa > MAX_MANTISSA || mantissa < -MAX_MANTISSA {
            None
        } else {
            Some(Decimal { mantissa, scale })
        }
    }

    /// Zero, with scale zero.
    pub fn zero() -> (r: Decimal)
        ensures
            r@ == (0int, 0nat),
    {
        Decimal { mantissa: 0, scale: 0 }
    }

    pub fn mantissa(&self) -> (r: i128)
        ensures
            r == self@.0,
    {
        self.mantissa
    }

    pub fn scale(&self) -> (r: u32)
        ensures
            r == self@.1,
    {
        self.scale
    }

    /// Whether the value is zero (of any scale).
    pub fn is_zero(&self) -> (r: bool)
        ensures
            r == (self@.0 == 0),
    {
        self.mantissa == 0
    }

    /// The key of this price; see `price_key`.
    pub fn key(&self) -> (k: (i128, u128))
        ensures
            k == price_key(self@),
            valid_parts(self@.0, self@.1 as int),
    {
        proof {
            use_type_invariant(self);
        }
        let ghost v = self@;
        let p = pow10_u128(self.scale);
        let f = pow10_u128(MAX_SCALE - self.scale);
        proof {
            lemma_pow10_positive(v.1);
            lemma_pow10_positive((28 - v.1) as nat);
            lemma_pow10_add(v.1, (28 - v.1) as nat);
            lemma_pow10_max();
            lemma_key_splits_value(v);
        }
        let a: u128 = if self.mantissa < 0 {
            (-self.mantissa) as u128
        } else {
            self.mantissa as u128
        };
        let q: u128 = a / p;
        let r: u128 = a % p;
        proof {
            assert(a == q * p + r) by {
                vstd::arithmetic::div_mod::lemma_fundamental_div_mod(a as int, p as int);
            }
            assert(q <= a) by (nonlinear_arith)
                requires
                    a == q * p + r,
                    p >= 1,
                    r >= 0,
            ;
            assert(r * f < p * f) by (nonlinear_arith)
                requires
                    r < p,
                    f >= 1,
            ;
        }
        if self.mantissa >= 0 {
            proof {
                lemma_fundamental_div_mod_converse(v.0, p as int, q as int, r as int);
                assert(v.0 / (pow10(v.1) as int) == q);
                assert(v.0 % (pow10(v.1) as int) == r);
                assert(f == pow10((28 - v.1) as nat));
                assert(((v.0 % (pow10(v.1) as int)) * pow10((28 - v.1) as nat)) == r * f);
                assert(price_key(v) == (q as i128, (r * f) as u128));
            }
            (q as i128, r * f)
        } else if r == 0 {
            proof {
                assert(v.0 == (-(q as int)) * (p as int) + 0) by (nonlinear_arith)
                    requires
                        v.0 == -(a as int),
                        a == q * p,
                ;
                lemma_fundamental_div_mod_converse(v.0, p as int, -(q as int), 0);
                assert(v.0 / (pow10(v.1) as int) == -(q as int));
                assert(v.0 % (pow10(v.1) as int) == 0);
                assert(0 * pow10((28 - v.1) as nat) == 0);
                assert(price_key(v) == ((-(q as int)) as i128, 0u128));
            }
            (-(q as i128), 0)
        } else {
            proof {
                assert(v.0 == (-(q as int) - 1) * (p as int) + (p - r)) by (nonlinear_arith)
                    requires
                        v.0 == -(a as int),
                        a == q * p + r,
                ;
                lemma_fundamental_div_mod_converse(v.0, p as int, -(q as int) - 1, p - r);
                assert((p - r) * f < p * f) by (nonlinear_arith)
                    requires
                        0 < p - r < p,
                        f >= 1,
                ;
                assert(v.0 / (pow10(v.1) as int) == -(q as int) - 1);
                assert(v.0 % (pow10(v.1) as int) == p - r);
                assert(f == pow10((28 - v.1) as nat));
                assert(price_key(v) == ((-(q as int) - 1) as i128, ((p - r) * f) as u128));
            }
            (-(q as i128) - 1, (p - r) * f)
        }
    }

    /// `self - other` as `rust_decimal` computes it, or `None` where it
    /// overflows.
    pub fn checked_sub(&self, other: &Decimal) -> (r: Option<Decimal>)
        ensures
            r is Some <==> difference(self@, other@) is Some,
            r matches Some(d) ==> difference(self@, other@) == Some(d@),
            difference_fits(self@, other@) ==> (r is Some && same_value(r->0@, exact_difference(self@, other@))),
    {
        proof {
            use_type_invariant(self);
            use_type_invariant(other);
        }
        rust_decimal_checked_sub(self, other)
    }
}

/// Calls `rust_decimal::Decimal::checked_sub` on the two decimals. The
/// contract claims that the result is the one `decimal_difference` names
/// for these arguments, `None` standing for overflow, and that where the
/// exact difference fits a 96-bit mantissa at the larger scale the result
/// is `Some` decimal of exactly that value. What it is otherwise (rounded
/// to a smaller scale, or `None`) is left unsaid.
#[verifier::external_body]
fn rust_decimal_checked_sub(a: &Decimal, b: &Decimal) -> (r: Option<Decimal>)
    requires
        valid_parts(a@.0, a@.1 as int),
        valid_parts(b@.0, b@.1 as int),
    ensures
        r is Some <==> decimal_difference(a@.0, a@.1 as int, b@.0, b@.1 as int) is Some,
        r matches Some(d) ==> decimal_difference(a@.0, a@.1 as int, b@.0, b@.1 as int) == Some(d@),
        difference_fits(a@, b@) ==> (r is Some && same_value(r->0@, exact_difference(a@, b@))),
{
    let x = rust_decimal::Decimal::from_i128_with_scale(a.mantissa, a.scale);
    let y = rust_decimal::Decimal::from_i128_with_scale(b.mantissa, b.scale);
    match x.checked_sub(y) {
        Some(d) => Some(Decimal { mantissa: d.mantissa(), scale: d.scale() }),
        None => None,
    }
}

/// Decimals are equal where their values are, whatever their scales.
impl PartialEq for Decimal {
    fn eq(&self, other: &Decimal) -> (r: bool) {
        let a = self.key();
        let b = other.key();
        a.0 == b.0 && a.1 == b.1
    }
}

impl PartialEqSpecImpl for Decimal {
    open spec fn obeys_eq_spec() -> bool {
        true
    }

    open spec fn eq_spec(&self, other: &Decimal) -> bool {
        price_key(self@) == price_key(other@)
    }
}

} // verus!
