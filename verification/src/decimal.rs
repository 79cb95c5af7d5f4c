//! Fixed-point amounts: 192-bit signed integers counting units of 10^-18.
//!
//! The arithmetic itself is scrypto's. This module holds the value as three
//! plain limbs, says what number they stand for, and states for each
//! operation which number comes back.

use vstd::prelude::*;

verus! {

/// A signed 192-bit fixed-point number with 18 fractional digits, held as the
/// three little-endian 64-bit limbs of its two's-complement subunit count.
#[derive(Clone, Copy, Debug, PartialEq, Eq, Structural)]
pub struct Decimal {
    pub lo: u64,
    pub mid: u64,
    pub hi: u64,
}

/// Number of subunits in one whole unit: 10^18.
pub open spec fn unit() -> int {
    1_000_000_000_000_000_000
}

/// One past the largest subunit count a `Decimal` can hold: 2^191.
pub open spec fn bound() -> int {
    0x8000_0000_0000_0000_0000_0000_0000_0000_0000_0000_0000_0000int
}

/// Whether `v` is the subunit count of some `Decimal`.
pub open spec fn representable(v: int) -> bool {
    -bound() <= v < bound()
}

/// Whether `v` can come out of a multiplication or a division: these go
/// through a wider integer and narrow by magnitude, so the most negative
/// subunit count is never produced.
pub open spec fn narrowable(v: int) -> bool {
    -bound() < v < bound()
}

/// Quotient of `n` by `d` rounded toward zero, for `d != 0`.
pub open spec fn quotient_toward_zero(n: int, d: int) -> int {
    if n >= 0 && d > 0 {
        n / d
    } else if n >= 0 {
        -(n / (-d))
    } else if d > 0 {
        -((-n) / d)
    } else {
        (-n) / (-d)
    }
}

/// Subunit count of the fixed-point product of two subunit counts.
pub open spec fn product(a: int, b: int) -> int {
    quotient_toward_zero(a * b, unit())
}

/// Subunit count of the fixed-point quotient of two subunit counts, `b != 0`.
pub open spec fn ratio(a: int, b: int) -> int {
    quotient_toward_zero(a * unit(), b)
}

impl View for Decimal {
    type V = int;

    /// The subunit count.
    open spec fn view(&self) -> int {
        self.attos()
    }
}

impl Decimal {
    /// The subunit count this value stands for.
    pub open spec fn attos(self) -> int {
        let raw = self.lo as int + self.mid as int * 0x1_0000_0000_0000_0000int + self.hi as int
            * 0x1_0000_0000_0000_0000_0000_0000_0000_0000int;
        if self.hi >= 0x8000_0000_0000_0000u64 {
            raw - 2 * bound()
        } else {
            raw
        }
    }

    /// The amount zero.
    pub fn zero() -> (r: Decimal)
        ensures
            r.attos() == 0,
    {
        Decimal { lo: 0, mid: 0, hi: 0 }
    }

    /// The whole number `v` as an amount.
    pub fn from_int(v: i64) -> (r: Decimal)
        ensures
            r.attos() == v * unit(),
    {
        outside_from_i64(v)
    }

    /// Sum of two amounts, or `None` when it does not fit.
    pub fn checked_add(self, other: Decimal) -> (r: Option<Decimal>)
        ensures
            r.is_some() <==> representable(self.attos() + other.attos()),
            r.is_some() ==> r.unwrap().attos() == self.attos() + other.attos(),
    {
        outside_checked_add(self, other)
    }

    /// Difference of two amounts, or `None` when it does not fit.
    pub fn checked_sub(self, other: Decimal) -> (r: Option<Decimal>)
        ensures
            r.is_some() <==> representable(self.attos() - other.attos()),
            r.is_some() ==> r.unwrap().attos() == self.attos() - other.attos(),
    {
        outside_checked_sub(self, other)
    }

    /// Product of two amounts rounded toward zero at the 18th digit, or
    /// `None` when it does not fit.
    pub fn checked_mul(self, other: Decimal) -> (r: Option<Decimal>)
        ensures
            r.is_some() <==> narrowable(product(self.attos(), other.attos())),
            r.is_some() ==> r.unwrap().attos() == product(self.attos(), other.attos()),
    {
        outside_checked_mul(self, other)
    }

    /// Quotient of two amounts rounded toward zero at the 18th digit, or
    /// `None` when the divisor is zero or the quotient does not fit.
    pub fn checked_div(self, other: Decimal) -> (r: Option<Decimal>)
        ensures
            r.is_some() == (other.attos() != 0 && narrowable(ratio(self.attos(), other.attos()))),
            r.is_some() ==> r.unwrap().attos() == ratio(self.attos(), other.attos()),
    {
        outside_checked_div(self, other)
    }

    /// Whether this amount is strictly smaller than `other`.
    pub fn lt(self, other: Decimal) -> (r: bool)
        ensures
            r == (self.attos() < other.attos()),
    {
        outside_lt(self, other)
    }

    /// Whether this amount is strictly greater than zero.
    pub fn is_positive(self) -> (r: bool)
        ensures
            r == (self.attos() > 0),
    {
        Decimal::zero().lt(self)
    }

    /// Whether this amount is strictly smaller than zero.
    pub fn is_negative(self) -> (r: bool)
        ensures
            r == (self.attos() < 0),
    {
        self.lt(Decimal::zero())
    }
}

/// Every amount's subunit count is in the 192-bit signed range.
pub proof fn lemma_attos_in_range(a: Decimal)
    ensures
        representable(a.attos()),
{
}

/// Two amounts with the same subunit count are the same value.
pub proof fn lemma_attos_injective(a: Decimal, b: Decimal)
    requires
        a.attos() == b.attos(),
    ensures
        a == b,
{
    let w = 0x1_0000_0000_0000_0000int;
    let ra = a.lo as int + a.mid as int * w + a.hi as int * (w * w);
    let rb = b.lo as int + b.mid as int * w + b.hi as int * (w * w);
    assert(w * w == 0x1_0000_0000_0000_0000_0000_0000_0000_0000int) by (nonlinear_arith)
        requires
            w == 0x1_0000_0000_0000_0000int,
    ;
    assert(ra == rb || ra == rb + 2 * bound() || ra + 2 * bound() == rb);
    assert(0 <= ra < w * w * w && 0 <= rb < w * w * w) by (nonlinear_arith)
        requires
            w == 0x1_0000_0000_0000_0000int,
            ra == a.lo as int + a.mid as int * w + a.hi as int * (w * w),
            rb == b.lo as int + b.mid as int * w + b.hi as int * (w * w),
            0 <= a.lo < w,
            0 <= a.mid < w,
            0 <= a.hi < w,
            0 <= b.lo < w,
            0 <= b.mid < w,
            0 <= b.hi < w,
    ;
    assert(w * w * w == 2 * bound()) by (nonlinear_arith)
        requires
            w == 0x1_0000_0000_0000_0000int,
    ;
    assert(ra == rb);
    assert(a.hi == b.hi && a.mid == b.mid && a.lo == b.lo) by (nonlinear_arith)
        requires
            w == 0x1_0000_0000_0000_0000int,
            a.lo as int + a.mid as int * w + a.hi as int * (w * w) == b.lo as int + b.mid as int
                * w + b.hi as int * (w * w),
            0 <= a.lo < w,
            0 <= a.mid < w,
            0 <= a.hi < w,
            0 <= b.lo < w,
            0 <= b.mid < w,
            0 <= b.hi < w,
    ;
}

/// `From<i64>` of scrypto's `Decimal`: the whole number scaled by 10^18,
/// which always fits.
#[verifier::external_body]
fn outside_from_i64(v: i64) -> (r: Decimal)
    ensures
        r.attos() == v * unit(),
{
    let d = scrypto::math::Decimal::from(v).attos().to_digits();
    Decimal { lo: d[0], mid: d[1], hi: d[2] }
}

/// `CheckedAdd::checked_add` of scrypto's `Decimal`: the exact sum of the two
/// subunit counts when it lies in the 192-bit signed range, `None` otherwise.
#[verifier::external_body]
fn outside_checked_add(a: Decimal, b: Decimal) -> (r: Option<Decimal>)
    ensures
        r.is_some() <==> representable(a.attos() + b.attos()),
        r.is_some() ==> r.unwrap().attos() == a.attos() + b.attos(),
{
    let x = scrypto::math::Decimal::from_attos(
        scrypto::math::I192::from_digits([a.lo, a.mid, a.hi]),
    );
    let y = scrypto::math::Decimal::from_attos(
        scrypto::math::I192::from_digits([b.lo, b.mid, b.hi]),
    );
    match scrypto::math::CheckedAdd::checked_add(x, y) {
        Some(z) => {
            let d = z.attos().to_digits();
            Some(Decimal { lo: d[0], mid: d[1], hi: d[2] })
        },
        None => None,
    }
}

/// `CheckedSub::checked_sub` of scrypto's `Decimal`: the exact difference of
/// the two subunit counts when it lies in the 192-bit signed range, `None`
/// otherwise.
#[verifier::external_body]
fn outside_checked_sub(a: Decimal, b: Decimal) -> (r: Option<Decimal>)
    ensures
        r.is_some() <==> representable(a.attos() - b.attos()),
        r.is_some() ==> r.unwrap().attos() == a.attos() - b.attos(),
{
    let x = scrypto::math::Decimal::from_attos(
        scrypto::math::I192::from_digits([a.lo, a.mid, a.hi]),
    );
    let y = scrypto::math::Decimal::from_attos(
        scrypto::math::I192::from_digits([b.lo, b.mid, b.hi]),
    );
    match scrypto::math::CheckedSub::checked_sub(x, y) {
        Some(z) => {
            let d = z.attos().to_digits();
            Some(Decimal { lo: d[0], mid: d[1], hi: d[2] })
        },
        None => None,
    }
}

/// `CheckedMul::checked_mul` of scrypto's `Decimal`: the product of the two
/// subunit counts divided by 10^18 and rounded toward zero, when its
/// magnitude is below 2^191; `None` otherwise.
#[verifier::external_body]
fn outside_checked_mul(a: Decimal, b: Decimal) -> (r: Option<Decimal>)
    ensures
        r.is_some() <==> narrowable(product(a.attos(), b.attos())),
        r.is_some() ==> r.unwrap().attos() == product(a.attos(), b.attos()),
{
    let x = scrypto::math::Decimal::from_attos(
        scrypto::math::I192::from_digits([a.lo, a.mid, a.hi]),
    );
    let y = scrypto::math::Decimal::from_attos(
        scrypto::math::I192::from_digits([b.lo, b.mid, b.hi]),
    );
    match scrypto::math::CheckedMul::checked_mul(x, y) {
        Some(z) => {
            let d = z.attos().to_digits();
            Some(Decimal { lo: d[0], mid: d[1], hi: d[2] })
        },
        None => None,
    }
}

/// `CheckedDiv::checked_div` of scrypto's `Decimal`: the dividend's subunit
/// count times 10^18, divided by the divisor's and rounded toward zero, when
/// the divisor is not zero and the magnitude of the result is below 2^191;
/// `None` otherwise.
#[verifier::external_body]
fn outside_checked_div(a: Decimal, b: Decimal) -> (r: Option<Decimal>)
    ensures
        r.is_some() == (b.attos() != 0 && narrowable(ratio(a.attos(), b.attos()))),
        r.is_some() ==> r.unwrap().attos() == ratio(a.attos(), b.attos()),
{
    let x = scrypto::math::Decimal::from_attos(
        scrypto::math::I192::from_digits([a.lo, a.mid, a.hi]),
    );
    let y = scrypto::math::Decimal::from_attos(
        scrypto::math::I192::from_digits([b.lo, b.mid, b.hi]),
    );
    match scrypto::math::CheckedDiv::checked_div(x, y) {
        Some(z) => {
            let d = z.attos().to_digits();
            Some(Decimal { lo: d[0], mid: d[1], hi: d[2] })
        },
        None => None,
    }
}

/// `<` on scrypto's `Decimal`: the order of the subunit counts.
#[verifier::external_body]
fn outside_lt(a: Decimal, b: Decimal) -> (r: bool)
    ensures
        r == (a.attos() < b.attos()),
{
    let x = scrypto::math::Decimal::from_attos(
        scrypto::math::I192::from_digits([a.lo, a.mid, a.hi]),
    );
    let y = scrypto::math::Decimal::from_attos(
        scrypto::math::I192::from_digits([b.lo, b.mid, b.hi]),
    );
    x < y
}

} // verus!
