//! Decimal amounts (prices and quantities).
//!
//! An amount is held as the two plain parts of a `rust_decimal::Decimal`:
//! a signed 96-bit mantissa `m` and a scale `s` in `0..=28`, standing for the
//! number `m / 10^s`.  Arithmetic and comparison are done by `rust_decimal`
//! itself, behind the trusted items at the end of this file.
use rust_decimal::Decimal;
use vstd::prelude::*;

verus! {

/// The largest mantissa magnitude a `rust_decimal::Decimal` can hold (2^96 - 1).
pub const MAX_MANTISSA: i128 = 79228162514264337593543950335i128;

/// The largest scale a `rust_decimal::Decimal` can hold.
pub const MAX_SCALE: u32 = 28u32;

/// `10^n`.
pub open spec fn pow10(n: nat) -> int
    decreases n,
{
    if n == 0 {
        1
    } else {
        10 * pow10((n - 1) as nat)
    }
}

/// A decimal amount: the mantissa and scale of a `rust_decimal::Decimal`.
/// Two amounts are `==` when they stand for the same number, whatever their
/// scales (as `rust_decimal` compares).
#[derive(Clone, Copy, Debug)]
pub struct Dec {
    mantissa: i128,
    scale: u32,
}

impl Dec {
    /// The parts are those of a value that `rust_decimal` can hold.
    #[verifier::type_invariant]
    pub closed spec fn wf(self) -> bool {
        &&& self.scale <= MAX_SCALE
        &&& -MAX_MANTISSA <= self.mantissa <= MAX_MANTISSA
    }

    pub closed spec fn spec_mantissa(self) -> i128 {
        self.mantissa
    }

    pub closed spec fn spec_scale(self) -> u32 {
        self.scale
    }

    /// The number the amount stands for, multiplied by `10^28`: every amount is
    /// a whole number of these units, so two amounts compare as their units do.
    pub closed spec fn units(self) -> int {
        self.mantissa * pow10((MAX_SCALE - self.scale) as nat)
    }

    /// The amount with the given parts; `None` where `rust_decimal` cannot hold them.
    pub fn new(mantissa: i128, scale: u32) -> (r: Option<Dec>)
        ensures
            match r {
                Some(d) => d.spec_mantissa() == mantissa && d.spec_scale() == scale,
                None => !(scale <= MAX_SCALE && -MAX_MANTISSA <= mantissa <= MAX_MANTISSA),
            },
    {
        if scale <= MAX_SCALE && -MAX_MANTISSA <= mantissa && mantissa <= MAX_MANTISSA {
            Some(Dec { mantissa, scale })
        } else {
            None
        }
    }

    /// The whole number `v`.
    pub fn from_i64(v: i64) -> (r: Dec)
        ensures
            r == Dec::spec_from_int(v as int),
            r.spec_mantissa() == v,
            r.spec_scale() == 0,
            r.units() == v * pow10(28),
    {
        Dec { mantissa: v as i128, scale: 0 }
    }

    /// Zero, with scale 0.
    pub fn zero() -> (r: Dec)
        ensures
            r == Dec::spec_zero(),
            r.units() == 0,
            r.spec_mantissa() == 0,
            r.spec_scale() == 0,
    {
        Dec { mantissa: 0, scale: 0 }
    }

    pub open spec fn spec_zero() -> Dec {
        Dec::spec_from_int(0)
    }

    pub closed spec fn spec_from_int(v: int) -> Dec {
        Dec { mantissa: v as i128, scale: 0 }
    }

    pub fn mantissa(&self) -> (r: i128)
        ensures
            r == self.spec_mantissa(),
    {
        self.mantissa
    }

    pub fn scale(&self) -> (r: u32)
        ensures
            r == self.spec_scale(),
    {
        self.scale
    }

    pub proof fn lemma_wf(self)
        requires
            self.wf(),
        ensures
            self.spec_scale() <= MAX_SCALE,
            -MAX_MANTISSA <= self.spec_mantissa() <= MAX_MANTISSA,
    {
    }
}

/// An amount's units have the sign of its mantissa.
pub proof fn lemma_units_sign(a: Dec)
    requires
        a.spec_scale() <= MAX_SCALE,
    ensures
        a.spec_mantissa() == 0 ==> a.units() == 0,
        a.spec_mantissa() > 0 ==> a.units() > 0,
        a.spec_mantissa() >= 0 ==> a.units() >= 0,
        a.spec_mantissa() < 0 ==> a.units() < 0,
{
    let p = pow10((MAX_SCALE - a.scale) as nat);
    lemma_pow10_positive((MAX_SCALE - a.scale) as nat);
    assert(a.mantissa > 0 ==> a.mantissa * p > 0) by (nonlinear_arith)
        requires
            p > 0,
    ;
    assert(a.mantissa >= 0 ==> a.mantissa * p >= 0) by (nonlinear_arith)
        requires
            p > 0,
    ;
    assert(a.mantissa < 0 ==> a.mantissa * p < 0) by (nonlinear_arith)
        requires
            p > 0,
    ;
    assert(a.mantissa == 0 ==> a.mantissa * p == 0) by (nonlinear_arith);
}

pub proof fn lemma_pow10_positive(n: nat)
    ensures
        pow10(n) > 0,
    decreases n,
{
    if n > 0 {
        lemma_pow10_positive((n - 1) as nat);
    }
}

impl PartialEq for Dec {
    fn eq(&self, other: &Dec) -> (r: bool) {
        num_eq(*self, *other)
    }
}

impl vstd::std_specs::cmp::PartialEqSpecImpl for Dec {
    open spec fn obeys_eq_spec() -> bool {
        true
    }

    open spec fn eq_spec(&self, other: &Dec) -> bool {
        self.units() == other.units()
    }
}

/// `a + b` as `rust_decimal` computes it (`None` on overflow).
pub open spec fn spec_add(a: Dec, b: Dec) -> Option<Dec> {
    match decimal_checked_add(a.spec_mantissa(), a.spec_scale(), b.spec_mantissa(), b.spec_scale()) {
        Some(p) => Some(Dec::spec_from_parts(p.0, p.1)),
        None => None,
    }
}

/// `a - b` as `rust_decimal` computes it (`None` on overflow).
pub open spec fn spec_sub(a: Dec, b: Dec) -> Option<Dec> {
    match decimal_checked_sub(a.spec_mantissa(), a.spec_scale(), b.spec_mantissa(), b.spec_scale()) {
        Some(p) => Some(Dec::spec_from_parts(p.0, p.1)),
        None => None,
    }
}

impl Dec {
    pub closed spec fn spec_from_parts(mantissa: i128, scale: u32) -> Dec {
        Dec { mantissa, scale }
    }

    /// The mantissa of the amount written at the (not smaller) scale `s`.
    pub closed spec fn mantissa_at(self, s: u32) -> int {
        self.mantissa * pow10((s - self.scale) as nat)
    }
}

/// The larger of the two amounts' scales: the scale of their exact sum.
pub open spec fn max_scale(a: Dec, b: Dec) -> u32 {
    if a.spec_scale() < b.spec_scale() {
        b.spec_scale()
    } else {
        a.spec_scale()
    }
}

/// The largest number of units an amount of scale `s` can stand for.
pub open spec fn unit_limit(s: u32) -> int {
    MAX_MANTISSA * pow10((MAX_SCALE - s) as nat)
}

/// `10^(m + n) == 10^m * 10^n`.
pub proof fn lemma_pow10_add(m: nat, n: nat)
    ensures
        pow10(m + n) == pow10(m) * pow10(n),
    decreases m,
{
    if m > 0 {
        lemma_pow10_add((m - 1) as nat, n);
        assert(pow10(m + n) == 10 * pow10((m - 1 + n) as nat));
        assert(10 * (pow10((m - 1) as nat) * pow10(n)) == (10 * pow10((m - 1) as nat)) * pow10(n))
            by (nonlinear_arith);
    }
}

/// A larger scale has a smaller limit.
pub proof fn lemma_unit_limit_mono(s: u32, t: u32)
    requires
        s <= t <= MAX_SCALE,
    ensures
        0 < unit_limit(t) <= unit_limit(s),
{
    let d = (t - s) as nat;
    let lo = (MAX_SCALE - t) as nat;
    lemma_pow10_add(lo, d);
    assert((MAX_SCALE - s) as nat == lo + d);
    lemma_pow10_positive(lo);
    lemma_pow10_positive(d);
    let pl = pow10(lo);
    let pd = pow10(d);
    assert(MAX_MANTISSA * pl <= MAX_MANTISSA * (pl * pd)) by (nonlinear_arith)
        requires
            pl > 0,
            pd >= 1,
    ;
    assert(MAX_MANTISSA * pl > 0) by (nonlinear_arith)
        requires
            pl > 0,
    ;
}

/// An amount written at a scale `s` no smaller than its own stands for the
/// same units: `units == mantissa_at(s) * 10^(28 - s)`.
proof fn lemma_mantissa_at(d: Dec, s: u32)
    requires
        d.scale <= s <= MAX_SCALE,
    ensures
        d.units() == d.mantissa_at(s) * pow10((MAX_SCALE - s) as nat),
{
    let k = (s - d.scale) as nat;
    let lo = (MAX_SCALE - s) as nat;
    lemma_pow10_add(k, lo);
    assert((MAX_SCALE - d.scale) as nat == k + lo);
    let pk = pow10(k);
    let pl = pow10(lo);
    assert(d.mantissa * (pk * pl) == (d.mantissa * pk) * pl) by (nonlinear_arith);
}

/// A number of units that is a multiple `m * 10^(28 - s)` lies within the
/// limit of scale `s` exactly when `m` fits in 96 bits.
proof fn lemma_within_limit(m: int, s: u32)
    requires
        s <= MAX_SCALE,
    ensures
        (-unit_limit(s) <= m * pow10((MAX_SCALE - s) as nat) <= unit_limit(s)) == (-MAX_MANTISSA
            <= m <= MAX_MANTISSA),
{
    let p = pow10((MAX_SCALE - s) as nat);
    lemma_pow10_positive((MAX_SCALE - s) as nat);
    assert((-(MAX_MANTISSA * p) <= m * p <= MAX_MANTISSA * p) == (-MAX_MANTISSA <= m
        <= MAX_MANTISSA)) by (nonlinear_arith)
        requires
            p > 0,
    ;
}

/// The smaller of two amounts, the first one where they are equal (as
/// `std::cmp::min` chooses).
pub open spec fn spec_min(a: Dec, b: Dec) -> Dec {
    if b.units() < a.units() {
        b
    } else {
        a
    }
}

/// `a < b`.
pub fn lt(a: Dec, b: Dec) -> (r: bool)
    ensures
        r == (a.units() < b.units()),
{
    proof {
        use_type_invariant(&a);
        use_type_invariant(&b);
    }
    decimal_lt(a, b)
}

/// `a == b` as numbers (as `rust_decimal`'s `==` compares).
pub fn num_eq(a: Dec, b: Dec) -> (r: bool)
    ensures
        r == (a.units() == b.units()),
{
    !lt(a, b) && !lt(b, a)
}

/// `std::cmp::min(a, b)`.
pub fn min(a: Dec, b: Dec) -> (r: Dec)
    ensures
        r == spec_min(a, b),
{
    if lt(b, a) {
        b
    } else {
        a
    }
}

/// `a.checked_add(b)`.
pub fn checked_add(a: Dec, b: Dec) -> (r: Option<Dec>)
    ensures
        r == spec_add(a, b),
        a.spec_mantissa() == 0 ==> r == Some(b),
        a.spec_scale() == b.spec_scale() && -MAX_MANTISSA <= a.spec_mantissa() + b.spec_mantissa()
            <= MAX_MANTISSA ==> (r matches Some(d) && d.spec_mantissa() == a.spec_mantissa() + b.spec_mantissa()
            && d.spec_scale() == a.spec_scale()),
        b.spec_mantissa() == 0 ==> r == Some(if a.spec_mantissa() == 0 { b } else { a }),
        ({
            let s = max_scale(a, b);
            -unit_limit(s) <= a.units() + b.units() <= unit_limit(s) ==> (r matches Some(d)
                && d.units() == a.units() + b.units() && d.spec_scale() <= s && (a.spec_mantissa()
                != 0 && b.spec_mantissa() != 0 ==> d.spec_scale() == s))
        }),
        r matches Some(d) ==> (a.units() + b.units() >= 0 ==> d.units() >= 0),
{
    proof {
        use_type_invariant(&a);
        use_type_invariant(&b);
    }
    let r = decimal_add(a, b);
    proof {
        lemma_units_sign(a);
        lemma_units_sign(b);
        let s = max_scale(a, b);
        if -unit_limit(s) <= a.units() + b.units() <= unit_limit(s) && a.mantissa != 0 && b.mantissa
            != 0 {
            let m = a.mantissa_at(s) + b.mantissa_at(s);
            lemma_mantissa_at(a, s);
            lemma_mantissa_at(b, s);
            let p = pow10((MAX_SCALE - s) as nat);
            assert(a.units() + b.units() == m * p) by (nonlinear_arith)
                requires
                    a.units() == a.mantissa_at(s) * p,
                    b.units() == b.mantissa_at(s) * p,
                    m == a.mantissa_at(s) + b.mantissa_at(s),
            ;
            lemma_within_limit(m, s);
            let d = Dec { mantissa: m as i128, scale: s };
            assert(d.units() == m * p);
        }
    }
    r
}

/// `a.checked_sub(b)`.
pub fn checked_sub(a: Dec, b: Dec) -> (r: Option<Dec>)
    ensures
        r == spec_sub(a, b),
        b.spec_mantissa() == 0 ==> r == Some(if a.spec_mantissa() == 0 { b } else { a }),
        a.spec_scale() == b.spec_scale() && -MAX_MANTISSA <= a.spec_mantissa() - b.spec_mantissa()
            <= MAX_MANTISSA ==> (r matches Some(d) && d.spec_mantissa() == a.spec_mantissa() - b.spec_mantissa()
            && d.spec_scale() == a.spec_scale()),
        ({
            let s = max_scale(a, b);
            -unit_limit(s) <= a.units() - b.units() <= unit_limit(s) ==> (r matches Some(d)
                && d.units() == a.units() - b.units() && d.spec_scale() <= s && (a.spec_mantissa()
                != 0 && b.spec_mantissa() != 0 ==> d.spec_scale() == s))
        }),
        r matches Some(d) ==> (a.units() - b.units() >= 0 ==> d.units() >= 0),
{
    proof {
        use_type_invariant(&a);
        use_type_invariant(&b);
    }
    let r = decimal_sub(a, b);
    proof {
        lemma_units_sign(a);
        lemma_units_sign(b);
        let s = max_scale(a, b);
        if -unit_limit(s) <= a.units() - b.units() <= unit_limit(s) {
            if a.mantissa != 0 && b.mantissa != 0 {
                let m = a.mantissa_at(s) - b.mantissa_at(s);
                lemma_mantissa_at(a, s);
                lemma_mantissa_at(b, s);
                let p = pow10((MAX_SCALE - s) as nat);
                assert(a.units() - b.units() == m * p) by (nonlinear_arith)
                    requires
                        a.units() == a.mantissa_at(s) * p,
                        b.units() == b.mantissa_at(s) * p,
                        m == a.mantissa_at(s) - b.mantissa_at(s),
                ;
                lemma_within_limit(m, s);
                let d = Dec { mantissa: m as i128, scale: s };
                assert(d.units() == m * p);
            } else if a.mantissa == 0 && b.mantissa != 0 {
                let d = Dec { mantissa: -b.mantissa as i128, scale: b.scale };
                let p = pow10((MAX_SCALE - b.scale) as nat);
                assert(d.units() == -b.units()) by (nonlinear_arith)
                    requires
                        d.units() == d.mantissa * p,
                        b.units() == b.mantissa * p,
                        d.mantissa == -b.mantissa,
                ;
                assert(a.units() == 0);
            }
        }
    }
    r
}

/// What `rust_decimal`'s `Decimal::checked_add` returns for the decimals with
/// the given parts, as (mantissa, scale) of the sum.
pub uninterp spec fn decimal_checked_add(a_mantissa: i128, a_scale: u32, b_mantissa: i128, b_scale: u32) -> Option<(i128, u32)>;

/// What `rust_decimal`'s `Decimal::checked_sub` returns for the decimals with
/// the given parts, as (mantissa, scale) of the difference.
pub uninterp spec fn decimal_checked_sub(a_mantissa: i128, a_scale: u32, b_mantissa: i128, b_scale: u32) -> Option<(i128, u32)>;

/// Calls `rust_decimal::Decimal::checked_add`.  Claimed: the result is the named
/// result `decimal_checked_add` of the operands' parts (it depends on them
/// alone); a result holds parts that a `Decimal` can hold (the type's own
/// range); adding zero gives the other operand back unchanged; two operands
/// of one scale whose mantissas add up within 96 bits give that sum at that
/// scale; two non-zero operands whose exact sum, written at the larger of
/// their scales, has a mantissa within 96 bits give that mantissa at that
/// scale; a sum whose exact value is not negative is not negative (rounding
/// shrinks the magnitude and keeps the sign).  Not claimed: anything more of
/// the sum; where the exact sum needs more than 96 bits, `rust_decimal`
/// lowers the scale and rounds.
#[verifier::external_body]
fn decimal_add(a: Dec, b: Dec) -> (r: Option<Dec>)
    requires
        a.wf(),
        b.wf(),
    ensures
        r == (match decimal_checked_add(a.spec_mantissa(), a.spec_scale(), b.spec_mantissa(), b.spec_scale()) {
            Some(p) => Some(Dec::spec_from_parts(p.0, p.1)),
            None => None,
        }),
        r matches Some(d) ==> d.wf(),
        r matches Some(d) ==> (a.units() + b.units() >= 0 ==> d.units() >= 0),
        a.mantissa == 0 ==> r == Some(b),
        b.mantissa == 0 ==> r == Some(if a.mantissa == 0 { b } else { a }),
        a.scale == b.scale && -MAX_MANTISSA <= a.mantissa + b.mantissa <= MAX_MANTISSA ==> r == Some(
            Dec { mantissa: (a.mantissa + b.mantissa) as i128, scale: a.scale },
        ),
        ({
            let s = max_scale(a, b);
            let m = a.mantissa_at(s) + b.mantissa_at(s);
            a.mantissa != 0 && b.mantissa != 0 && -MAX_MANTISSA <= m <= MAX_MANTISSA ==> r == Some(
                Dec { mantissa: m as i128, scale: s },
            )
        }),
{
    let x = Decimal::from_i128_with_scale(a.mantissa, a.scale);
    let y = Decimal::from_i128_with_scale(b.mantissa, b.scale);
    match x.checked_add(y) {
        Some(d) => Some(Dec { mantissa: d.mantissa(), scale: d.scale() }),
        None => None,
    }
}

/// Calls `rust_decimal::Decimal::checked_sub`.  Claimed as for `decimal_add`,
/// with the named result `decimal_checked_sub`: subtracting zero from a
/// non-zero operand gives it back unchanged (from zero, the result is the
/// subtrahend, a zero); subtracting a non-zero operand from zero gives its
/// negation at its scale; two operands of one scale whose mantissas differ
/// within 96 bits give that difference at that scale; two non-zero operands
/// whose exact difference, written at the larger of their scales, has a
/// mantissa within 96 bits give that mantissa at that scale; a difference
/// whose exact value is not negative is not negative.
#[verifier::external_body]
fn decimal_sub(a: Dec, b: Dec) -> (r: Option<Dec>)
    requires
        a.wf(),
        b.wf(),
    ensures
        r == (match decimal_checked_sub(a.spec_mantissa(), a.spec_scale(), b.spec_mantissa(), b.spec_scale()) {
            Some(p) => Some(Dec::spec_from_parts(p.0, p.1)),
            None => None,
        }),
        r matches Some(d) ==> d.wf(),
        r matches Some(d) ==> (a.units() - b.units() >= 0 ==> d.units() >= 0),
        b.mantissa == 0 ==> r == Some(if a.mantissa == 0 { b } else { a }),
        a.mantissa == 0 && b.mantissa != 0 ==> r == Some(
            Dec { mantissa: -b.mantissa as i128, scale: b.scale },
        ),
        a.scale == b.scale && -MAX_MANTISSA <= a.mantissa - b.mantissa <= MAX_MANTISSA ==> r == Some(
            Dec { mantissa: (a.mantissa - b.mantissa) as i128, scale: a.scale },
        ),
        ({
            let s = max_scale(a, b);
            let m = a.mantissa_at(s) - b.mantissa_at(s);
            a.mantissa != 0 && b.mantissa != 0 && -MAX_MANTISSA <= m <= MAX_MANTISSA ==> r == Some(
                Dec { mantissa: m as i128, scale: s },
            )
        }),
{
    let x = Decimal::from_i128_with_scale(a.mantissa, a.scale);
    let y = Decimal::from_i128_with_scale(b.mantissa, b.scale);
    match x.checked_sub(y) {
        Some(d) => Some(Dec { mantissa: d.mantissa(), scale: d.scale() }),
        None => None,
    }
}

/// Calls `<` on two `rust_decimal::Decimal`s.  Claimed: the result is whether
/// the number `a` stands for is below the one `b` stands for (`Decimal`
/// orders by numeric value, whatever the scales).
#[verifier::external_body]
fn decimal_lt(a: Dec, b: Dec) -> (r: bool)
    requires
        a.wf(),
        b.wf(),
    ensures
        r == (a.units() < b.units()),
{
    let x = Decimal::from_i128_with_scale(a.mantissa, a.scale);
    let y = Decimal::from_i128_with_scale(b.mantissa, b.scale);
    x < y
}

} // verus!
