//! Checked dyadic interval arithmetic used by the proof predicates.
//!
//! A `FixedDomain` gives raw `i32` values the meaning `raw * 2^exponent`.
//! Every operation either returns the outward-rounded raw enclosure or an
//! explicit error; nothing saturates or wraps.
use vstd::prelude::*;
use crate::dyadic::{two_pow, scaled_floor, scaled_ceil, lemma_two_pow_pos, scale_by_pow2};

verus! {

pub const MIN_EXPONENT: i16 = -96;

pub const MAX_EXPONENT: i16 = 63;

#[derive(Clone, Copy, Debug, PartialEq, Eq, Structural)]
pub enum NumericError {
    InvalidDomain,
    InvalidInterval,
    DomainMismatch,
    Overflow,
    NonFinite,
    DivisionByZero,
    UnsupportedShape,
    CapacityExceeded,
}

/// The variant's name, as the error prints.
pub open spec fn numeric_error_name(e: NumericError) -> Seq<char> {
    match e {
        NumericError::InvalidDomain => "InvalidDomain"@,
        NumericError::InvalidInterval => "InvalidInterval"@,
        NumericError::DomainMismatch => "DomainMismatch"@,
        NumericError::Overflow => "Overflow"@,
        NumericError::NonFinite => "NonFinite"@,
        NumericError::DivisionByZero => "DivisionByZero"@,
        NumericError::UnsupportedShape => "UnsupportedShape"@,
        NumericError::CapacityExceeded => "CapacityExceeded"@,
    }
}

impl NumericError {
    /// The variant's name, as the error prints.
    pub fn describe(self) -> (r: String)
        ensures
            r@ == numeric_error_name(self),
    {
        match self {
            NumericError::InvalidDomain => "InvalidDomain".to_owned(),
            NumericError::InvalidInterval => "InvalidInterval".to_owned(),
            NumericError::DomainMismatch => "DomainMismatch".to_owned(),
            NumericError::Overflow => "Overflow".to_owned(),
            NumericError::NonFinite => "NonFinite".to_owned(),
            NumericError::DivisionByZero => "DivisionByZero".to_owned(),
            NumericError::UnsupportedShape => "UnsupportedShape".to_owned(),
            NumericError::CapacityExceeded => "CapacityExceeded".to_owned(),
        }
    }
}

#[derive(Clone, Copy, Debug, PartialEq, Eq, Structural)]
pub struct FixedDomain {
    pub exponent: i16,
    pub min_raw: i32,
    pub max_raw: i32,
}

#[derive(Clone, Copy, Debug, Default, PartialEq, Eq, Structural)]
pub struct Iv32 {
    pub lo: i32,
    pub hi: i32,
}

impl FixedDomain {
    /// The exponent lies in the sealed range and the raw bounds are ordered.
    pub open spec fn is_valid(self) -> bool {
        MIN_EXPONENT <= self.exponent <= MAX_EXPONENT && self.min_raw <= self.max_raw
    }

    /// `v` lies in the domain's raw range.
    pub open spec fn holds(self, v: int) -> bool {
        self.min_raw <= v <= self.max_raw
    }

    pub open spec fn check(self) -> Result<(), NumericError> {
        if self.is_valid() {
            Ok(())
        } else {
            Err(NumericError::InvalidDomain)
        }
    }

    pub fn new(exponent: i16, min_raw: i32, max_raw: i32) -> (r: Result<Self, NumericError>)
        ensures
            r == (match (FixedDomain { exponent, min_raw, max_raw }).check() {
                Ok(_) => Ok(FixedDomain { exponent, min_raw, max_raw }),
                Err(e) => Err(e),
            }),
    {
        let domain = FixedDomain { exponent, min_raw, max_raw };
        domain.validate()?;
        Ok(domain)
    }

    pub fn full(exponent: i16) -> (r: Self)
        ensures
            r == (FixedDomain { exponent, min_raw: i32::MIN, max_raw: i32::MAX }),
    {
        FixedDomain { exponent, min_raw: i32::MIN, max_raw: i32::MAX }
    }

    pub fn validate(self) -> (r: Result<(), NumericError>)
        ensures
            r == self.check(),
    {
        if self.exponent < MIN_EXPONENT || self.exponent > MAX_EXPONENT || self.min_raw
            > self.max_raw {
            return Err(NumericError::InvalidDomain);
        }
        Ok(())
    }

    fn contains(self, value: i32) -> (r: bool)
        ensures
            r == self.holds(value as int),
    {
        self.min_raw <= value && value <= self.max_raw
    }
}

/// The interval `[lo, hi]` if both ends lie in the domain, `Overflow` otherwise,
/// `InvalidInterval` when the ends are reversed.
pub open spec fn checked_pair_spec(lo: int, hi: int, domain: FixedDomain) -> Result<
    Iv32,
    NumericError,
> {
    if !(domain.holds(lo) && domain.holds(hi)) {
        Err(NumericError::Overflow)
    } else if lo > hi {
        Err(NumericError::InvalidInterval)
    } else {
        Ok(Iv32 { lo: lo as i32, hi: hi as i32 })
    }
}

/// The raw interval `[lo, hi]` scaled by `2^shift` and rounded outward.
/// Shifts of 128 or more are refused outright.
pub open spec fn scaled_pair_spec(lo: int, hi: int, shift: int, domain: FixedDomain) -> Result<
    Iv32,
    NumericError,
> {
    if shift >= 128 {
        Err(NumericError::Overflow)
    } else {
        checked_pair_spec(scaled_floor(lo, shift), scaled_ceil(hi, shift), domain)
    }
}

/// Chains a check before a result, keeping the first error.
pub open spec fn then<T>(first: Result<(), NumericError>, rest: Result<T, NumericError>) -> Result<
    T,
    NumericError,
> {
    match first {
        Err(e) => Err(e),
        Ok(_) => rest,
    }
}

pub open spec fn min_int(a: int, b: int) -> int {
    if a <= b {
        a
    } else {
        b
    }
}

pub open spec fn max_int(a: int, b: int) -> int {
    if a >= b {
        a
    } else {
        b
    }
}

pub open spec fn abs_int(a: int) -> int {
    if a < 0 {
        -a
    } else {
        a
    }
}

pub open spec fn min4(a: int, b: int, c: int, d: int) -> int {
    min_int(min_int(a, b), min_int(c, d))
}

pub open spec fn max4(a: int, b: int, c: int, d: int) -> int {
    max_int(max_int(a, b), max_int(c, d))
}

/// Sign field of a binary32 bit pattern.
pub open spec fn f32_is_negative(bits: u32) -> bool {
    bits >= 0x8000_0000
}

/// Biased exponent field of a binary32 bit pattern.
pub open spec fn f32_exponent_field(bits: u32) -> int {
    (bits as int / 0x80_0000) % 0x100
}

/// Fraction field of a binary32 bit pattern.
pub open spec fn f32_fraction_field(bits: u32) -> int {
    bits as int % 0x80_0000
}

/// Signed integer significand `m` such that the finite value is `m * 2^e`.
pub open spec fn f32_significand(bits: u32) -> int {
    let magnitude = if f32_exponent_field(bits) == 0 {
        f32_fraction_field(bits)
    } else {
        0x80_0000 + f32_fraction_field(bits)
    };
    if f32_is_negative(bits) {
        -magnitude
    } else {
        magnitude
    }
}

/// Binary exponent `e` such that the finite value is `m * 2^e`.
pub open spec fn f32_binary_exponent(bits: u32) -> int {
    if f32_exponent_field(bits) == 0 {
        -149
    } else {
        f32_exponent_field(bits) - 150
    }
}

impl Iv32 {
    /// `v` lies between the endpoints.
    pub open spec fn encloses(self, v: int) -> bool {
        self.lo <= v <= self.hi
    }

    /// The interval is ordered and both ends lie in the domain.
    pub open spec fn fits(self, domain: FixedDomain) -> bool {
        domain.is_valid() && self.lo <= self.hi && domain.holds(self.lo as int) && domain.holds(
            self.hi as int,
        )
    }

    pub open spec fn check_in(self, domain: FixedDomain) -> Result<(), NumericError> {
        if !domain.is_valid() {
            Err(NumericError::InvalidDomain)
        } else if self.lo > self.hi {
            Err(NumericError::InvalidInterval)
        } else if !(domain.holds(self.lo as int) && domain.holds(self.hi as int)) {
            Err(NumericError::DomainMismatch)
        } else {
            Ok(())
        }
    }

    pub open spec fn spec_add(self, other: Self, domain: FixedDomain) -> Result<Iv32, NumericError> {
        then(
            self.check_in(domain),
            then(
                other.check_in(domain),
                checked_pair_spec(self.lo + other.lo, self.hi + other.hi, domain),
            ),
        )
    }

    pub open spec fn spec_subtract(self, other: Self, domain: FixedDomain) -> Result<
        Iv32,
        NumericError,
    > {
        then(
            self.check_in(domain),
            then(
                other.check_in(domain),
                checked_pair_spec(self.lo - other.hi, self.hi - other.lo, domain),
            ),
        )
    }

    pub open spec fn spec_negate(self, domain: FixedDomain) -> Result<Iv32, NumericError> {
        then(self.check_in(domain), checked_pair_spec(-self.hi, -self.lo, domain))
    }

    /// Smallest of the four endpoint products.
    pub open spec fn product_lo(self, other: Self) -> int {
        min4(
            self.lo * other.lo,
            self.lo * other.hi,
            self.hi * other.lo,
            self.hi * other.hi,
        )
    }

    /// Largest of the four endpoint products.
    pub open spec fn product_hi(self, other: Self) -> int {
        max4(
            self.lo * other.lo,
            self.lo * other.hi,
            self.hi * other.lo,
            self.hi * other.hi,
        )
    }

    pub open spec fn spec_multiply(self, other: Self, domain: FixedDomain) -> Result<
        Iv32,
        NumericError,
    > {
        then(
            self.check_in(domain),
            then(
                other.check_in(domain),
                scaled_pair_spec(
                    self.product_lo(other),
                    self.product_hi(other),
                    domain.exponent as int,
                    domain,
                ),
            ),
        )
    }

    pub open spec fn square_lo(self) -> int {
        if self.lo <= 0 && self.hi >= 0 {
            0
        } else {
            min_int(abs_int(self.lo as int), abs_int(self.hi as int)) * min_int(
                abs_int(self.lo as int),
                abs_int(self.hi as int),
            )
        }
    }

    pub open spec fn square_hi(self) -> int {
        max_int(abs_int(self.lo as int), abs_int(self.hi as int)) * max_int(
            abs_int(self.lo as int),
            abs_int(self.hi as int),
        )
    }

    pub open spec fn spec_square(self, domain: FixedDomain) -> Result<Iv32, NumericError> {
        then(
            self.check_in(domain),
            scaled_pair_spec(self.square_lo(), self.square_hi(), domain.exponent as int, domain),
        )
    }

    pub open spec fn spec_scale_pow2(self, shift: i16, domain: FixedDomain) -> Result<
        Iv32,
        NumericError,
    > {
        then(
            self.check_in(domain),
            scaled_pair_spec(self.lo as int, self.hi as int, shift as int, domain),
        )
    }

    pub open spec fn spec_intersect(self, other: Self, domain: FixedDomain) -> Result<
        Option<Iv32>,
        NumericError,
    > {
        then(
            self.check_in(domain),
            then(
                other.check_in(domain),
                Ok(
                    if max_int(self.lo as int, other.lo as int) <= min_int(
                        self.hi as int,
                        other.hi as int,
                    ) {
                        Some(
                            Iv32 {
                                lo: max_int(self.lo as int, other.lo as int) as i32,
                                hi: min_int(self.hi as int, other.hi as int) as i32,
                            },
                        )
                    } else {
                        None
                    },
                ),
            ),
        )
    }

    pub open spec fn spec_hull(self, other: Self, domain: FixedDomain) -> Result<Iv32, NumericError> {
        then(
            self.check_in(domain),
            then(
                other.check_in(domain),
                Ok(
                    Iv32 {
                        lo: min_int(self.lo as int, other.lo as int) as i32,
                        hi: max_int(self.hi as int, other.hi as int) as i32,
                    },
                ),
            ),
        )
    }

    pub open spec fn spec_min(self, other: Self, domain: FixedDomain) -> Result<Iv32, NumericError> {
        then(
            self.check_in(domain),
            then(
                other.check_in(domain),
                Ok(
                    Iv32 {
                        lo: min_int(self.lo as int, other.lo as int) as i32,
                        hi: min_int(self.hi as int, other.hi as int) as i32,
                    },
                ),
            ),
        )
    }

    pub open spec fn spec_max(self, other: Self, domain: FixedDomain) -> Result<Iv32, NumericError> {
        then(
            self.check_in(domain),
            then(
                other.check_in(domain),
                Ok(
                    Iv32 {
                        lo: max_int(self.lo as int, other.lo as int) as i32,
                        hi: max_int(self.hi as int, other.hi as int) as i32,
                    },
                ),
            ),
        )
    }

    pub open spec fn spec_abs(self, domain: FixedDomain) -> Result<Iv32, NumericError> {
        let a = abs_int(self.lo as int);
        let b = abs_int(self.hi as int);
        then(
            self.check_in(domain),
            if self.lo <= 0 && self.hi >= 0 {
                checked_pair_spec(0, max_int(a, b), domain)
            } else {
                checked_pair_spec(min_int(a, b), max_int(a, b), domain)
            },
        )
    }

    pub open spec fn spec_convert(self, source: FixedDomain, destination: FixedDomain) -> Result<
        Iv32,
        NumericError,
    > {
        then(
            self.check_in(source),
            then(
                destination.check(),
                scaled_pair_spec(
                    self.lo as int,
                    self.hi as int,
                    source.exponent - destination.exponent,
                    destination,
                ),
            ),
        )
    }

    pub open spec fn spec_from_f32_bits(bits: u32, radius_raw: u32, domain: FixedDomain) -> Result<
        Iv32,
        NumericError,
    > {
        let shift = f32_binary_exponent(bits) - domain.exponent;
        let m = f32_significand(bits);
        then(
            domain.check(),
            if f32_exponent_field(bits) == 0xff {
                Err(NumericError::NonFinite)
            } else if shift >= 128 {
                Err(NumericError::Overflow)
            } else {
                checked_pair_spec(
                    scaled_floor(m, shift) - radius_raw,
                    scaled_ceil(m, shift) + radius_raw,
                    domain,
                )
            },
        )
    }

    pub fn new(lo: i32, hi: i32) -> (r: Result<Self, NumericError>)
        ensures
            r == (if lo > hi {
                Err(NumericError::InvalidInterval)
            } else {
                Ok(Iv32 { lo, hi })
            }),
    {
        if lo > hi {
            Err(NumericError::InvalidInterval)
        } else {
            Ok(Iv32 { lo, hi })
        }
    }

    pub fn point(raw: i32) -> (r: Self)
        ensures
            r == (Iv32 { lo: raw, hi: raw }),
    {
        Iv32 { lo: raw, hi: raw }
    }

    fn validate_in(self, domain: FixedDomain) -> (r: Result<(), NumericError>)
        ensures
            r == self.check_in(domain),
            r is Ok ==> self.fits(domain),
    {
        domain.validate()?;
        if self.lo > self.hi {
            return Err(NumericError::InvalidInterval);
        }
        if !domain.contains(self.lo) || !domain.contains(self.hi) {
            return Err(NumericError::DomainMismatch);
        }
        Ok(())
    }

    pub fn contains_zero(self) -> (r: bool)
        ensures
            r == (self.lo <= 0 && self.hi >= 0),
    {
        self.lo <= 0 && self.hi >= 0
    }

    pub fn strict_positive(self) -> (r: bool)
        ensures
            r == (self.lo > 0),
    {
        self.lo > 0
    }

    pub fn strict_negative(self) -> (r: bool)
        ensures
            r == (self.hi < 0),
    {
        self.hi < 0
    }

    pub fn add(self, other: Self, domain: FixedDomain) -> (r: Result<Self, NumericError>)
        ensures
            r == self.spec_add(other, domain),
    {
        self.validate_in(domain)?;
        other.validate_in(domain)?;
        checked_pair(
            self.lo as i128 + other.lo as i128,
            self.hi as i128 + other.hi as i128,
            domain,
        )
    }

    pub fn subtract(self, other: Self, domain: FixedDomain) -> (r: Result<Self, NumericError>)
        ensures
            r == self.spec_subtract(other, domain),
    {
        self.validate_in(domain)?;
        other.validate_in(domain)?;
        checked_pair(
            self.lo as i128 - other.hi as i128,
            self.hi as i128 - other.lo as i128,
            domain,
        )
    }

    pub fn negate(self, domain: FixedDomain) -> (r: Result<Self, NumericError>)
        ensures
            r == self.spec_negate(domain),
    {
        self.validate_in(domain)?;
        checked_pair(-(self.hi as i128), -(self.lo as i128), domain)
    }

    pub fn multiply(self, other: Self, domain: FixedDomain) -> (r: Result<Self, NumericError>)
        ensures
            r == self.spec_multiply(other, domain),
    {
        self.validate_in(domain)?;
        other.validate_in(domain)?;
        proof {
            lemma_i32_product_bounds(self.lo as int, other.lo as int);
            lemma_i32_product_bounds(self.lo as int, other.hi as int);
            lemma_i32_product_bounds(self.hi as int, other.lo as int);
            lemma_i32_product_bounds(self.hi as int, other.hi as int);
        }
        let a: i128 = self.lo as i128 * other.lo as i128;
        let b: i128 = self.lo as i128 * other.hi as i128;
        let c: i128 = self.hi as i128 * other.lo as i128;
        let d: i128 = self.hi as i128 * other.hi as i128;
        let lo = min_i128(min_i128(a, b), min_i128(c, d));
        let hi = max_i128(max_i128(a, b), max_i128(c, d));
        scaled_pair(lo, hi, domain.exponent as i32, domain)
    }

    pub fn square(self, domain: FixedDomain) -> (r: Result<Self, NumericError>)
        ensures
            r == self.spec_square(domain),
    {
        self.validate_in(domain)?;
        let a: i128 = abs_i128(self.lo as i128);
        let b: i128 = abs_i128(self.hi as i128);
        let big: i128 = max_i128(a, b);
        let small: i128 = min_i128(a, b);
        proof {
            lemma_i32_product_bounds(big as int, big as int);
            lemma_i32_product_bounds(small as int, small as int);
            let bi = big as int;
            let si = small as int;
            assert(0 <= si * si <= bi * bi) by (nonlinear_arith)
                requires
                    0 <= si <= bi,
            ;
        }
        let high: i128 = big * big;
        let low: i128 = if self.contains_zero() {
            0
        } else {
            small * small
        };
        scaled_pair(low, high, domain.exponent as i32, domain)
    }

    pub fn scale_pow2(self, shift: i16, domain: FixedDomain) -> (r: Result<Self, NumericError>)
        ensures
            r == self.spec_scale_pow2(shift, domain),
    {
        self.validate_in(domain)?;
        scaled_pair(self.lo as i128, self.hi as i128, shift as i32, domain)
    }

    pub fn intersect(self, other: Self, domain: FixedDomain) -> (r: Result<
        Option<Self>,
        NumericError,
    >)
        ensures
            r == self.spec_intersect(other, domain),
    {
        self.validate_in(domain)?;
        other.validate_in(domain)?;
        let lo = if self.lo >= other.lo {
            self.lo
        } else {
            other.lo
        };
        let hi = if self.hi <= other.hi {
            self.hi
        } else {
            other.hi
        };
        if lo <= hi {
            Ok(Some(Iv32 { lo, hi }))
        } else {
            Ok(None)
        }
    }

    pub fn hull(self, other: Self, domain: FixedDomain) -> (r: Result<Self, NumericError>)
        ensures
            r == self.spec_hull(other, domain),
    {
        self.validate_in(domain)?;
        other.validate_in(domain)?;
        Ok(
            Iv32 {
                lo: if self.lo <= other.lo {
                    self.lo
                } else {
                    other.lo
                },
                hi: if self.hi >= other.hi {
                    self.hi
                } else {
                    other.hi
                },
            },
        )
    }

    pub fn min(self, other: Self, domain: FixedDomain) -> (r: Result<Self, NumericError>)
        ensures
            r == self.spec_min(other, domain),
    {
        self.validate_in(domain)?;
        other.validate_in(domain)?;
        Ok(
            Iv32 {
                lo: if self.lo <= other.lo {
                    self.lo
                } else {
                    other.lo
                },
                hi: if self.hi <= other.hi {
                    self.hi
                } else {
                    other.hi
                },
            },
        )
    }

    pub fn max(self, other: Self, domain: FixedDomain) -> (r: Result<Self, NumericError>)
        ensures
            r == self.spec_max(other, domain),
    {
        self.validate_in(domain)?;
        other.validate_in(domain)?;
        Ok(
            Iv32 {
                lo: if self.lo >= other.lo {
                    self.lo
                } else {
                    other.lo
                },
                hi: if self.hi >= other.hi {
                    self.hi
                } else {
                    other.hi
                },
            },
        )
    }

    pub fn abs(self, domain: FixedDomain) -> (r: Result<Self, NumericError>)
        ensures
            r == self.spec_abs(domain),
    {
        self.validate_in(domain)?;
        let a = abs_i128(self.lo as i128);
        let b = abs_i128(self.hi as i128);
        if self.contains_zero() {
            checked_pair(0, max_i128(a, b), domain)
        } else {
            checked_pair(min_i128(a, b), max_i128(a, b), domain)
        }
    }

    pub fn affine(input: Self, scale: Self, bias: Self, domain: FixedDomain) -> (r: Result<
        Self,
        NumericError,
    >)
        ensures
            r == (match input.spec_multiply(scale, domain) {
                Ok(p) => p.spec_add(bias, domain),
                Err(e) => Err(e),
            }),
    {
        input.multiply(scale, domain)?.add(bias, domain)
    }

    pub fn convert(self, source: FixedDomain, destination: FixedDomain) -> (r: Result<
        Self,
        NumericError,
    >)
        ensures
            r == self.spec_convert(source, destination),
    {
        self.validate_in(source)?;
        destination.validate()?;
        let shift: i32 = source.exponent as i32 - destination.exponent as i32;
        scaled_pair(self.lo as i128, self.hi as i128, shift, destination)
    }

    pub fn from_f32_bits(bits: u32, radius_raw: u32, domain: FixedDomain) -> (r: Result<
        Self,
        NumericError,
    >)
        ensures
            r == Self::spec_from_f32_bits(bits, radius_raw, domain),
    {
        domain.validate()?;
        let exponent_field: u32 = (bits / 0x80_0000) % 0x100;
        if exponent_field == 0xff {
            return Err(NumericError::NonFinite);
        }
        let (numerator, binary_exponent) = exact_f32_integer(bits);
        let shift: i32 = binary_exponent - domain.exponent as i32;
        if shift >= 128 {
            return Err(NumericError::Overflow);
        }
        let floor = scale_by_pow2(numerator, shift, false);
        let ceil = scale_by_pow2(numerator, shift, true);
        match (floor, ceil) {
            (Some(f), Some(c)) => checked_pair(
                f - radius_raw as i128,
                c + radius_raw as i128,
                domain,
            ),
            _ => {
                proof {
                    lemma_scaled_floor_le_ceil(numerator as int, shift as int);
                }
                Err(NumericError::Overflow)
            },
        }
    }

    pub fn nearer_than(self, other: Self) -> (r: bool)
        ensures
            r == (self.lo > other.hi),
    {
        self.lo > other.hi
    }

    pub fn width_raw(self) -> (r: Result<u32, NumericError>)
        ensures
            r == (if self.hi >= self.lo {
                Ok((self.hi - self.lo) as u32)
            } else {
                Err(NumericError::Overflow)
            }),
    {
        let w: i64 = self.hi as i64 - self.lo as i64;
        if w < 0 {
            Err(NumericError::Overflow)
        } else {
            Ok(w as u32)
        }
    }
}

pub(crate) proof fn lemma_i32_product_bounds(a: int, b: int)
    requires
        -0x8000_0000 <= a <= 0x8000_0000,
        -0x8000_0000 <= b <= 0x8000_0000,
    ensures
        -0x4000_0000_0000_0000 <= a * b <= 0x4000_0000_0000_0000,
{
    assert(-0x4000_0000_0000_0000 <= a * b <= 0x4000_0000_0000_0000) by (nonlinear_arith)
        requires
            -0x8000_0000 <= a <= 0x8000_0000,
            -0x8000_0000 <= b <= 0x8000_0000,
    ;
}

proof fn lemma_scaled_floor_le_ceil(v: int, shift: int)
    ensures
        scaled_floor(v, shift) <= scaled_ceil(v, shift),
{
    if shift < 0 {
        lemma_two_pow_pos((-shift) as nat);
        let p = two_pow((-shift) as nat) as int;
        assert(v / p <= -((-v) / p)) by (nonlinear_arith)
            requires
                p >= 1,
        ;
    }
}

proof fn lemma_scaled_monotone(a: int, b: int, shift: int)
    requires
        a <= b,
    ensures
        scaled_floor(a, shift) <= scaled_ceil(b, shift),
{
    lemma_scaled_floor_le_ceil(a, shift);
    if shift >= 0 {
        lemma_two_pow_pos(shift as nat);
        let p = two_pow(shift as nat) as int;
        assert(a * p <= b * p) by (nonlinear_arith)
            requires
                a <= b,
                p >= 1,
        ;
    } else {
        lemma_two_pow_pos((-shift) as nat);
        let p = two_pow((-shift) as nat) as int;
        assert(a / p <= -((-b) / p)) by (nonlinear_arith)
            requires
                a <= b,
                p >= 1,
        ;
    }
}

fn min_i128(a: i128, b: i128) -> (r: i128)
    ensures
        r == min_int(a as int, b as int),
{
    if a <= b {
        a
    } else {
        b
    }
}

fn max_i128(a: i128, b: i128) -> (r: i128)
    ensures
        r == max_int(a as int, b as int),
{
    if a >= b {
        a
    } else {
        b
    }
}

fn abs_i128(a: i128) -> (r: i128)
    requires
        a > i128::MIN,
    ensures
        r == abs_int(a as int),
{
    if a < 0 {
        -a
    } else {
        a
    }
}

/// The integer significand and binary exponent of a finite binary32 pattern.
fn exact_f32_integer(bits: u32) -> (r: (i128, i32))
    ensures
        r.0 == f32_significand(bits),
        r.1 == f32_binary_exponent(bits),
        -0x100_0000 < r.0 < 0x100_0000,
        -149 <= r.1 <= 105,
{
    let raw_exponent: u32 = (bits / 0x80_0000) % 0x100;
    let fraction: u32 = bits % 0x80_0000;
    let (mantissa, exponent) = if raw_exponent == 0 {
        (fraction as i128, -149i32)
    } else {
        ((0x80_0000u32 + fraction) as i128, raw_exponent as i32 - 150)
    };
    if bits >= 0x8000_0000 {
        (-mantissa, exponent)
    } else {
        (mantissa, exponent)
    }
}

fn checked_pair(lo: i128, hi: i128, domain: FixedDomain) -> (r: Result<Iv32, NumericError>)
    ensures
        r == checked_pair_spec(lo as int, hi as int, domain),
{
    if lo < domain.min_raw as i128 || lo > domain.max_raw as i128 || hi < domain.min_raw as i128
        || hi > domain.max_raw as i128 {
        return Err(NumericError::Overflow);
    }
    Iv32::new(lo as i32, hi as i32)
}

/// Scales an ordered raw pair by `2^shift`, rounding outward, and checks it
/// against the domain.
fn scaled_pair(lo: i128, hi: i128, shift: i32, domain: FixedDomain) -> (r: Result<
    Iv32,
    NumericError,
>)
    requires
        i64::MIN < lo <= hi <= i64::MAX,
    ensures
        r == scaled_pair_spec(lo as int, hi as int, shift as int, domain),
{
    if shift >= 128 {
        return Err(NumericError::Overflow);
    }
    let floor = scale_by_pow2(lo, shift, false);
    let ceil = scale_by_pow2(hi, shift, true);
    proof {
        lemma_scaled_monotone(lo as int, hi as int, shift as int);
    }
    match (floor, ceil) {
        (Some(f), Some(c)) => checked_pair(f, c, domain),
        _ => Err(NumericError::Overflow),
    }
}

proof fn lemma_linear_between(lo: int, hi: int, x: int, y: int)
    by (nonlinear_arith)
    requires
        lo <= x <= hi,
    ensures
        min_int(lo * y, hi * y) <= x * y <= max_int(lo * y, hi * y),
{
    if y >= 0 {
        assert(lo * y <= x * y <= hi * y);
    } else {
        assert(hi * y <= x * y <= lo * y);
    }
}

/// A product of values drawn from two intervals lies between the least and
/// the greatest product of their endpoints.
proof fn lemma_product_between(a: Iv32, b: Iv32, x: int, y: int)
    requires
        a.encloses(x),
        b.encloses(y),
    ensures
        a.product_lo(b) <= x * y <= a.product_hi(b),
{
    lemma_linear_between(a.lo as int, a.hi as int, x, y);
    lemma_linear_between(b.lo as int, b.hi as int, y, a.lo as int);
    lemma_linear_between(b.lo as int, b.hi as int, y, a.hi as int);
    assert(y * a.lo == a.lo * y) by (nonlinear_arith);
    assert(y * a.hi == a.hi * y) by (nonlinear_arith);
    assert(b.lo * a.lo == a.lo * b.lo) by (nonlinear_arith);
    assert(b.hi * a.lo == a.lo * b.hi) by (nonlinear_arith);
    assert(b.lo * a.hi == a.hi * b.lo) by (nonlinear_arith);
    assert(b.hi * a.hi == a.hi * b.hi) by (nonlinear_arith);
}

proof fn lemma_scaled_ordered(p: int, q: int, shift: int)
    requires
        p <= q,
    ensures
        scaled_floor(p, shift) <= scaled_floor(q, shift),
        scaled_ceil(p, shift) <= scaled_ceil(q, shift),
        scaled_floor(p, shift) <= scaled_ceil(p, shift),
{
    if shift >= 0 {
        lemma_two_pow_pos(shift as nat);
        let f = two_pow(shift as nat) as int;
        assert(p * f <= q * f) by (nonlinear_arith)
            requires
                p <= q,
                f >= 1,
        ;
    } else {
        lemma_two_pow_pos((-shift) as nat);
        let d = two_pow((-shift) as nat) as int;
        vstd::arithmetic::div_mod::lemma_div_is_ordered(p, q, d);
        vstd::arithmetic::div_mod::lemma_div_is_ordered(-q, -p, d);
        assert(p / d <= -((-p) / d)) by (nonlinear_arith)
            requires
                d >= 1,
        {
            vstd::arithmetic::div_mod::lemma_fundamental_div_mod(p, d);
            vstd::arithmetic::div_mod::lemma_fundamental_div_mod(-p, d);
        }
    }
}

/// Interval arithmetic is outward: a sum, difference, negation or product
/// that is returned contains the exact result for every pair of values
/// drawn from the operands; the product, scaled by the domain's power of
/// two, contains that scaled exact product rounded either way.
pub proof fn interval_arithmetic_encloses(a: Iv32, b: Iv32, domain: FixedDomain, x: int, y: int)
    requires
        a.encloses(x),
        b.encloses(y),
    ensures
        a.spec_add(b, domain) matches Ok(c) ==> c.encloses(x + y),
        a.spec_subtract(b, domain) matches Ok(c) ==> c.encloses(x - y),
        a.spec_negate(domain) matches Ok(c) ==> c.encloses(-x),
        a.spec_multiply(b, domain) matches Ok(c) ==> c.lo <= scaled_floor(
            x * y,
            domain.exponent as int,
        ) && scaled_ceil(x * y, domain.exponent as int) <= c.hi,
{
    lemma_product_between(a, b, x, y);
    lemma_scaled_ordered(a.product_lo(b), x * y, domain.exponent as int);
    lemma_scaled_ordered(x * y, a.product_hi(b), domain.exponent as int);
}

/// The interval holds the rational `n / d`, for a positive `d`.
pub open spec fn encloses_ratio(iv: Iv32, n: int, d: int) -> bool {
    iv.lo * d <= n <= iv.hi * d
}

/// The exact product of `n1 / d1` and `n2 / d2` scaled by `2^shift`, as a
/// numerator and a positive denominator.
pub open spec fn scaled_ratio_product(n1: int, d1: int, n2: int, d2: int, shift: int) -> (int, int) {
    if shift >= 0 {
        (n1 * n2 * two_pow(shift as nat), d1 * d2)
    } else {
        (n1 * n2, d1 * d2 * two_pow((-shift) as nat))
    }
}

proof fn lemma_int_product_between(alo: int, ahi: int, blo: int, bhi: int, x: int, y: int)
    requires
        alo <= x <= ahi,
        blo <= y <= bhi,
    ensures
        min4(alo * blo, alo * bhi, ahi * blo, ahi * bhi) <= x * y <= max4(
            alo * blo,
            alo * bhi,
            ahi * blo,
            ahi * bhi,
        ),
{
    lemma_linear_between(alo, ahi, x, y);
    lemma_linear_between(blo, bhi, y, alo);
    lemma_linear_between(blo, bhi, y, ahi);
    assert(y * alo == alo * y) by (nonlinear_arith);
    assert(y * ahi == ahi * y) by (nonlinear_arith);
    assert(blo * alo == alo * blo) by (nonlinear_arith);
    assert(bhi * alo == alo * bhi) by (nonlinear_arith);
    assert(blo * ahi == ahi * blo) by (nonlinear_arith);
    assert(bhi * ahi == ahi * bhi) by (nonlinear_arith);
}

/// The exact product of two rationals held by `a` and `b` lies between
/// `d1 d2` times the least and the largest endpoint product.
proof fn lemma_ratio_product_between(a: Iv32, b: Iv32, n1: int, d1: int, n2: int, d2: int)
    requires
        d1 > 0,
        d2 > 0,
        encloses_ratio(a, n1, d1),
        encloses_ratio(b, n2, d2),
    ensures
        d1 * d2 * a.product_lo(b) <= n1 * n2 <= d1 * d2 * a.product_hi(b),
{
    let (al, ah, bl, bh) = (a.lo as int, a.hi as int, b.lo as int, b.hi as int);
    lemma_int_product_between(al * d1, ah * d1, bl * d2, bh * d2, n1, n2);
    let dd = d1 * d2;
    assert((al * d1) * (bl * d2) == dd * (al * bl)) by (nonlinear_arith)
        requires
            dd == d1 * d2,
    ;
    assert((al * d1) * (bh * d2) == dd * (al * bh)) by (nonlinear_arith)
        requires
            dd == d1 * d2,
    ;
    assert((ah * d1) * (bl * d2) == dd * (ah * bl)) by (nonlinear_arith)
        requires
            dd == d1 * d2,
    ;
    assert((ah * d1) * (bh * d2) == dd * (ah * bh)) by (nonlinear_arith)
        requires
            dd == d1 * d2,
    ;
    assert(dd > 0) by (nonlinear_arith)
        requires
            dd == d1 * d2,
            d1 > 0,
            d2 > 0,
    ;
    let pl = a.product_lo(b);
    let ph = a.product_hi(b);
    assert(pl <= al * bl && pl <= al * bh && pl <= ah * bl && pl <= ah * bh);
    assert(ph >= al * bl && ph >= al * bh && ph >= ah * bl && ph >= ah * bh);
    assert(dd * pl <= dd * (al * bl) && dd * pl <= dd * (al * bh) && dd * pl <= dd * (ah * bl)
        && dd * pl <= dd * (ah * bh)) by (nonlinear_arith)
        requires
            dd > 0,
            pl <= al * bl,
            pl <= al * bh,
            pl <= ah * bl,
            pl <= ah * bh,
    ;
    assert(dd * ph >= dd * (al * bl) && dd * ph >= dd * (al * bh) && dd * ph >= dd * (ah * bl)
        && dd * ph >= dd * (ah * bh)) by (nonlinear_arith)
        requires
            dd > 0,
            ph >= al * bl,
            ph >= al * bh,
            ph >= ah * bl,
            ph >= ah * bh,
    ;
}

/// Interval arithmetic encloses rational values too: a returned sum holds
/// the exact sum, and a returned product holds the exact product scaled by
/// the domain's power of two, for every pair of rationals the operands hold.
pub proof fn interval_arithmetic_encloses_ratios(
    a: Iv32,
    b: Iv32,
    domain: FixedDomain,
    n1: int,
    d1: int,
    n2: int,
    d2: int,
)
    requires
        d1 > 0,
        d2 > 0,
        encloses_ratio(a, n1, d1),
        encloses_ratio(b, n2, d2),
    ensures
        d1 * d2 > 0,
        a.spec_add(b, domain) matches Ok(c) ==> encloses_ratio(c, n1 * d2 + n2 * d1, d1 * d2),
        a.spec_subtract(b, domain) matches Ok(c) ==> encloses_ratio(c, n1 * d2 - n2 * d1, d1 * d2),
        scaled_ratio_product(n1, d1, n2, d2, domain.exponent as int).1 > 0,
        a.spec_multiply(b, domain) matches Ok(c) ==> encloses_ratio(
            c,
            scaled_ratio_product(n1, d1, n2, d2, domain.exponent as int).0,
            scaled_ratio_product(n1, d1, n2, d2, domain.exponent as int).1,
        ),
{
    let dd = d1 * d2;
    assert(dd > 0) by (nonlinear_arith)
        requires
            dd == d1 * d2,
            d1 > 0,
            d2 > 0,
    ;
    let (al, ah, bl, bh) = (a.lo as int, a.hi as int, b.lo as int, b.hi as int);
    assert((al + bl) * dd <= n1 * d2 + n2 * d1 <= (ah + bh) * dd) by (nonlinear_arith)
        requires
            dd == d1 * d2,
            d1 > 0,
            d2 > 0,
            al * d1 <= n1 <= ah * d1,
            bl * d2 <= n2 <= bh * d2,
    ;
    assert((al - bh) * dd <= n1 * d2 - n2 * d1 <= (ah - bl) * dd) by (nonlinear_arith)
        requires
            dd == d1 * d2,
            d1 > 0,
            d2 > 0,
            al * d1 <= n1 <= ah * d1,
            bl * d2 <= n2 <= bh * d2,
    ;
    lemma_ratio_product_between(a, b, n1, d1, n2, d2);
    let e = domain.exponent as int;
    let pl = a.product_lo(b);
    let ph = a.product_hi(b);
    let n = n1 * n2;
    if e >= 0 {
        lemma_two_pow_pos(e as nat);
        let p = two_pow(e as nat) as int;
        assert(pl * p * dd <= n * p && n * p <= ph * p * dd) by (nonlinear_arith)
            requires
                dd * pl <= n <= dd * ph,
                p >= 1,
        ;
    } else {
        lemma_two_pow_pos((-e) as nat);
        let p = two_pow((-e) as nat) as int;
        assert(dd * p > 0) by (nonlinear_arith)
            requires
                dd > 0,
                p >= 1,
        ;
        let lo = pl / p;
        let hi = -((-ph) / p);
        vstd::arithmetic::div_mod::lemma_fundamental_div_mod(pl, p);
        vstd::arithmetic::div_mod::lemma_fundamental_div_mod(-ph, p);
        assert(lo * p <= pl);
        let q = (-ph) / p;
        assert(hi * p >= ph) by (nonlinear_arith)
            requires
                -ph == p * q + (-ph) % p,
                0 <= (-ph) % p,
                hi == -q,
        ;
        assert(lo * (dd * p) <= n && n <= hi * (dd * p)) by (nonlinear_arith)
            requires
                lo * p <= pl,
                hi * p >= ph,
                dd * pl <= n <= dd * ph,
                dd > 0,
        ;
    }
}

/// Squaring is never wider than multiplying an interval by itself: when
/// both succeed, the square lies inside the product, and it never goes
/// below zero.
pub proof fn square_within_product(a: Iv32, domain: FixedDomain)
    requires
        a.spec_square(domain) is Ok,
        a.spec_multiply(a, domain) is Ok,
    ensures
        a.spec_multiply(a, domain)->Ok_0.lo <= a.spec_square(domain)->Ok_0.lo,
        a.spec_square(domain)->Ok_0.hi <= a.spec_multiply(a, domain)->Ok_0.hi,
        a.spec_square(domain)->Ok_0.lo >= 0,
{
    let (l, h) = (a.lo as int, a.hi as int);
    assert(l * h == h * l) by (nonlinear_arith);
    assert(l * l >= 0 && h * h >= 0) by (nonlinear_arith);
    assert(abs_int(l) * abs_int(l) == l * l) by (nonlinear_arith);
    assert(abs_int(h) * abs_int(h) == h * h) by (nonlinear_arith);
    if l <= 0 && h >= 0 {
        assert(l * h <= 0) by (nonlinear_arith)
            requires
                l <= 0,
                h >= 0,
        ;
    }
    let e = domain.exponent as int;
    lemma_scaled_ordered(a.product_lo(a), a.square_lo(), e);
    lemma_scaled_ordered(a.square_hi(), a.product_hi(a), e);
    lemma_scaled_ordered(0, a.square_lo(), e);
    if e >= 0 {
        assert(0 * two_pow(e as nat) == 0) by (nonlinear_arith);
    } else {
        lemma_two_pow_pos((-e) as nat);
    }
}

/// Intersection is exact: a returned interval holds exactly the values that
/// both operands hold, and `None` comes back only when no value lies in both.
pub proof fn intersection_is_exact(a: Iv32, b: Iv32, domain: FixedDomain, x: int)
    requires
        a.spec_intersect(b, domain) is Ok,
    ensures
        a.spec_intersect(b, domain) matches Ok(Some(c)) ==> (c.encloses(x) <==> (a.encloses(x)
            && b.encloses(x))),
        a.spec_intersect(b, domain) matches Ok(None) ==> !(a.encloses(x) && b.encloses(x)),
{
}

/// Hull, minimum, maximum and absolute value are sound and tight: the hull
/// holds every value of either operand and its ends are ends of the
/// operands; the minimum (maximum) holds `min(x, y)` (`max(x, y)`) for every
/// `x` of `a` and `y` of `b`, and both of its ends are reached by such a
/// pair; the absolute value holds `|x|` for every `x` of `a`, never goes
/// below zero, and its upper end is reached.
pub proof fn selections_are_sound_and_tight(a: Iv32, b: Iv32, domain: FixedDomain, x: int, y: int)
    requires
        a.encloses(x),
        b.encloses(y),
    ensures
        a.spec_hull(b, domain) matches Ok(c) ==> {
            &&& c.encloses(x) && c.encloses(y)
            &&& (c.lo == a.lo || c.lo == b.lo) && (c.hi == a.hi || c.hi == b.hi)
        },
        a.spec_min(b, domain) matches Ok(c) ==> {
            &&& c.encloses(min_int(x, y))
            &&& min_int(a.lo as int, b.lo as int) == c.lo && min_int(a.hi as int, b.hi as int) == c.hi
        },
        a.spec_max(b, domain) matches Ok(c) ==> {
            &&& c.encloses(max_int(x, y))
            &&& max_int(a.lo as int, b.lo as int) == c.lo && max_int(a.hi as int, b.hi as int) == c.hi
        },
        a.spec_abs(domain) matches Ok(c) ==> {
            &&& c.encloses(abs_int(x))
            &&& c.lo >= 0
            &&& (c.hi == abs_int(a.lo as int) || c.hi == abs_int(a.hi as int))
        },
{
}

/// Conversion keeps the value: for every raw value `x` held in the source
/// domain, the converted interval holds the same real value expressed in
/// the destination's raw units, `x * 2^(source exponent - destination
/// exponent)`, as a rational.
pub proof fn conversion_keeps_value(a: Iv32, source: FixedDomain, destination: FixedDomain, x: int)
    requires
        a.encloses(x),
    ensures
        a.spec_convert(source, destination) matches Ok(c) ==> ({
            let s = source.exponent - destination.exponent;
            if s >= 0 {
                encloses_ratio(c, x * two_pow(s as nat), 1)
            } else {
                encloses_ratio(c, x, two_pow((-s) as nat) as int)
            }
        }),
{
    let s = source.exponent - destination.exponent;
    lemma_scaled_ordered(a.lo as int, x, s);
    lemma_scaled_ordered(x, a.hi as int, s);
    if s < 0 {
        lemma_two_pow_pos((-s) as nat);
        let p = two_pow((-s) as nat) as int;
        vstd::arithmetic::div_mod::lemma_fundamental_div_mod(x, p);
        vstd::arithmetic::div_mod::lemma_fundamental_div_mod(-x, p);
        let f = x / p;
        let g = -((-x) / p);
        assert(f * p <= x) by (nonlinear_arith)
            requires
                x == p * f + x % p,
                0 <= x % p,
        ;
        assert(x <= g * p) by (nonlinear_arith)
            requires
                -x == p * ((-x) / p) + (-x) % p,
                0 <= (-x) % p,
                g == -((-x) / p),
        ;
        match a.spec_convert(source, destination) {
            Ok(c) => {
                assert(c.lo <= f && g <= c.hi);
                assert(c.lo * p <= x <= c.hi * p) by (nonlinear_arith)
                    requires
                        c.lo <= f,
                        g <= c.hi,
                        f * p <= x,
                        x <= g * p,
                        p >= 1,
                ;
            },
            Err(_) => {},
        }
    }
}

/// Squaring encloses: for every rational `n / d` held by `a`, a returned
/// square holds `(n / d)^2` scaled by the domain's power of two.
pub proof fn square_encloses(a: Iv32, domain: FixedDomain, n: int, d: int)
    requires
        d > 0,
        encloses_ratio(a, n, d),
    ensures
        scaled_ratio_product(n, d, n, d, domain.exponent as int).1 > 0,
        a.spec_square(domain) matches Ok(c) ==> encloses_ratio(
            c,
            scaled_ratio_product(n, d, n, d, domain.exponent as int).0,
            scaled_ratio_product(n, d, n, d, domain.exponent as int).1,
        ),
{
    let (l, h) = (a.lo as int, a.hi as int);
    let dd = d * d;
    let nn = n * n;
    assert(dd > 0) by (nonlinear_arith)
        requires
            d > 0,
            dd == d * d,
    ;
    let sl = a.square_lo();
    let sh = a.square_hi();
    assert(l <= h) by (nonlinear_arith)
        requires
            l * d <= n <= h * d,
            d > 0,
    ;
    let al = abs_int(l);
    let ah = abs_int(h);
    assert(al * al == l * l && ah * ah == h * h) by (nonlinear_arith)
        requires
            al == abs_int(l),
            ah == abs_int(h),
    ;
    // |n| <= max(|l|, |h|) * d
    assert(nn <= sh * dd) by (nonlinear_arith)
        requires
            l * d <= n <= h * d,
            d > 0,
            sh == max_int(al, ah) * max_int(al, ah),
            al == abs_int(l),
            ah == abs_int(h),
            nn == n * n,
            dd == d * d,
    {
        let m = max_int(al, ah);
        assert(-(m * d) <= n <= m * d);
    }
    if l <= 0 && h >= 0 {
        assert(sl == 0);
        assert(sl * dd <= nn) by (nonlinear_arith)
            requires
                sl == 0,
                nn == n * n,
        ;
    } else {
        assert(sl * dd <= nn) by (nonlinear_arith)
            requires
                l * d <= n <= h * d,
                d > 0,
                !(l <= 0 && h >= 0),
                l <= h,
                sl == min_int(al, ah) * min_int(al, ah),
                al == abs_int(l),
                ah == abs_int(h),
                nn == n * n,
                dd == d * d,
        {
            let m = min_int(al, ah);
            if l > 0 {
                assert(m * d <= n);
                assert(m * d >= 0);
            } else {
                assert(n <= -(m * d));
                assert(m * d >= 0);
            }
        }
    }
    let e = domain.exponent as int;
    if e >= 0 {
        lemma_two_pow_pos(e as nat);
        let p = two_pow(e as nat) as int;
        assert(sl * p * dd <= nn * p && nn * p <= sh * p * dd) by (nonlinear_arith)
            requires
                sl * dd <= nn <= sh * dd,
                p >= 1,
        ;
        assert(nn * p == n * n * p);
        assert(dd == d * d);
    } else {
        lemma_two_pow_pos((-e) as nat);
        let p = two_pow((-e) as nat) as int;
        let lo = sl / p;
        let hi = -((-sh) / p);
        vstd::arithmetic::div_mod::lemma_fundamental_div_mod(sl, p);
        vstd::arithmetic::div_mod::lemma_fundamental_div_mod(-sh, p);
        assert(lo * p <= sl) by (nonlinear_arith)
            requires
                sl == p * lo + sl % p,
                0 <= sl % p,
        ;
        let q = (-sh) / p;
        assert(hi * p >= sh) by (nonlinear_arith)
            requires
                -sh == p * q + (-sh) % p,
                0 <= (-sh) % p,
                hi == -q,
        ;
        assert(dd * sl == sl * dd && dd * sh == sh * dd) by (nonlinear_arith);
        assert(lo * (dd * p) <= nn && nn <= hi * (dd * p)) by (nonlinear_arith)
            requires
                lo * p <= sl,
                hi * p >= sh,
                dd * sl <= nn <= dd * sh,
                dd > 0,
        ;
        assert(dd * p > 0) by (nonlinear_arith)
            requires
                dd > 0,
                p >= 1,
        ;
    }
}

} // verus!
