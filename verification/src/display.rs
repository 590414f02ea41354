//! Output-referred interval transforms and exact byte singleton checks.
use vstd::prelude::*;
use crate::dyadic::{two_pow, two_pow_i128, lemma_two_pow_pos, lemma_two_pow_monotone, lemma_two_pow_values};
use crate::iv32::{FixedDomain, Iv32, NumericError, f32_is_negative, f32_exponent_field, f32_fraction_field};
use crate::dyadic::{top_bit_of, lemma_top_bit, lemma_two_pow_adds};
use crate::binary32::{lemma_top_bit_scale, lemma_top_bit_unique};

verus! {

/// The three channels scaled by the same multiplier.
pub open spec fn exposed(
    color: [Iv32; 3],
    multiplier: Iv32,
    domain: FixedDomain,
) -> Result<Seq<Iv32>, NumericError> {
    match color[0].spec_multiply(multiplier, domain) {
        Err(e) => Err(e),
        Ok(r) => match color[1].spec_multiply(multiplier, domain) {
            Err(e) => Err(e),
            Ok(g) => match color[2].spec_multiply(multiplier, domain) {
                Err(e) => Err(e),
                Ok(b) => Ok(seq![r, g, b]),
            },
        },
    }
}

pub fn exposure(color: [Iv32; 3], multiplier: Iv32, domain: FixedDomain) -> (r: Result<
    [Iv32; 3],
    NumericError,
>)
    ensures
        match exposed(color, multiplier, domain) {
            Err(e) => r == Err::<[Iv32; 3], NumericError>(e),
            Ok(channels) => r matches Ok(out) && out@ == channels,
        },
{
    let r = color[0].multiply(multiplier, domain)?;
    let g = color[1].multiply(multiplier, domain)?;
    let b = color[2].multiply(multiplier, domain)?;
    let out = [r, g, b];
    assert(out@ =~= seq![r, g, b]);
    Ok(out)
}

/// Sum of the first `k` products of a matrix row with the color, added
/// left to right onto zero.
pub open spec fn row_dot(
    color: [Iv32; 3],
    row: [Iv32; 3],
    domain: FixedDomain,
    k: nat,
) -> Result<Iv32, NumericError>
    decreases k,
{
    if k == 0 {
        Ok(Iv32 { lo: 0, hi: 0 })
    } else {
        match row_dot(color, row, domain, (k - 1) as nat) {
            Err(e) => Err(e),
            Ok(acc) => match row[k - 1].spec_multiply(color[k - 1], domain) {
                Err(e) => Err(e),
                Ok(p) => acc.spec_add(p, domain),
            },
        }
    }
}

/// The matrix applied to the color, row by row; the first failing product
/// or sum decides the error.
pub open spec fn matrix_applied(
    color: [Iv32; 3],
    matrix: [[Iv32; 3]; 3],
    domain: FixedDomain,
) -> Result<Seq<Iv32>, NumericError> {
    match row_dot(color, matrix[0], domain, 3) {
        Err(e) => Err(e),
        Ok(r) => match row_dot(color, matrix[1], domain, 3) {
            Err(e) => Err(e),
            Ok(g) => match row_dot(color, matrix[2], domain, 3) {
                Err(e) => Err(e),
                Ok(b) => Ok(seq![r, g, b]),
            },
        },
    }
}

proof fn lemma_row_dot_sticks(
    color: [Iv32; 3],
    row: [Iv32; 3],
    domain: FixedDomain,
    k: nat,
    m: nat,
)
    requires
        k <= m,
        row_dot(color, row, domain, k) is Err,
    ensures
        row_dot(color, row, domain, m) == row_dot(color, row, domain, k),
    decreases m - k,
{
    if k < m {
        lemma_row_dot_sticks(color, row, domain, k, (m - 1) as nat);
    }
}

fn apply_row(color: [Iv32; 3], row: [Iv32; 3], domain: FixedDomain) -> (r: Result<Iv32, NumericError>)
    ensures
        r == row_dot(color, row, domain, 3),
{
    let mut acc = Iv32::point(0);
    let mut column: usize = 0;
    while column < 3
        invariant
            column <= 3,
            row_dot(color, row, domain, column as nat) == Ok::<Iv32, NumericError>(acc),
        decreases 3 - column,
    {
        let product = match row[column].multiply(color[column], domain) {
            Ok(p) => p,
            Err(e) => {
                proof {
                    lemma_row_dot_sticks(color, row, domain, (column + 1) as nat, 3);
                }
                return Err(e);
            },
        };
        acc = match acc.add(product, domain) {
            Ok(v) => v,
            Err(e) => {
                proof {
                    lemma_row_dot_sticks(color, row, domain, (column + 1) as nat, 3);
                }
                return Err(e);
            },
        };
        column = column + 1;
    }
    Ok(acc)
}

pub fn color_matrix(color: [Iv32; 3], matrix: [[Iv32; 3]; 3], domain: FixedDomain) -> (r: Result<
    [Iv32; 3],
    NumericError,
>)
    ensures
        match matrix_applied(color, matrix, domain) {
            Err(e) => r == Err::<[Iv32; 3], NumericError>(e),
            Ok(channels) => r matches Ok(out) && out@ == channels,
        },
{
    let mut output = [Iv32::point(0); 3];
    let mut row: usize = 0;
    while row < 3
        invariant
            row <= 3,
            forall|i: int| 0 <= i < row ==> row_dot(color, matrix[i], domain, 3) == Ok::<
                Iv32,
                NumericError,
            >(#[trigger] output[i]),
        decreases 3 - row,
    {
        output[row] = match apply_row(color, matrix[row], domain) {
            Ok(v) => v,
            Err(e) => {
                proof {
                    if row == 1 {
                        assert(row_dot(color, matrix[0], domain, 3) == Ok::<Iv32, NumericError>(
                            output[0],
                        ));
                    } else if row == 2 {
                        assert(row_dot(color, matrix[0], domain, 3) == Ok::<Iv32, NumericError>(
                            output[0],
                        ));
                        assert(row_dot(color, matrix[1], domain, 3) == Ok::<Iv32, NumericError>(
                            output[1],
                        ));
                    }
                }
                return Err(e);
            },
        };
        row = row + 1;
    }
    assert(row_dot(color, matrix[0], domain, 3) == Ok::<Iv32, NumericError>(output[0]));
    assert(row_dot(color, matrix[1], domain, 3) == Ok::<Iv32, NumericError>(output[1]));
    assert(row_dot(color, matrix[2], domain, 3) == Ok::<Iv32, NumericError>(output[2]));
    assert(output@ =~= seq![output[0], output[1], output[2]]);
    Ok(output)
}

/// A lookup table of at least two entries that never decreases.
pub open spec fn lut_is_monotone(table: Seq<u16>) -> bool {
    table.len() >= 2 && forall|i: int| 0 <= i < table.len() - 1 ==> #[trigger] table[i] <= table[i
        + 1]
}

pub fn validate_monotone_lut(table: &[u16]) -> (r: Result<(), NumericError>)
    ensures
        r is Ok <==> lut_is_monotone(table@),
        r is Err ==> r == Err::<(), NumericError>(NumericError::UnsupportedShape),
{
    if table.len() < 2 {
        return Err(NumericError::UnsupportedShape);
    }
    let mut i: usize = 0;
    while i < table.len() - 1
        invariant
            table@.len() >= 2,
            i + 1 <= table@.len(),
            forall|k: int| 0 <= k < i ==> #[trigger] table@[k] <= table@[k + 1],
        decreases table@.len() - i,
    {
        if table[i] > table[i + 1] {
            return Err(NumericError::UnsupportedShape);
        }
        i = i + 1;
    }
    Ok(())
}

/// `v << s` on an `i64`: the product with `2^s`, wrapped to 64 bits.
pub open spec fn wrapping_shl_i64(v: int, s: nat) -> int {
    let m = (v * two_pow(s)) % 0x1_0000_0000_0000_0000;
    if m >= 0x8000_0000_0000_0000 {
        m - 0x1_0000_0000_0000_0000
    } else {
        m
    }
}

/// Table value at fixed-point coordinate `raw` with `bits` fraction bits,
/// interpolated linearly and rounded down, or up for an upper endpoint.
/// Division rounding toward zero, for a positive divisor.
pub open spec fn div_toward_zero(a: int, b: int) -> int {
    if a >= 0 {
        a / b
    } else {
        -((-a) / b)
    }
}

/// A coordinate below zero: within one cell of zero its index is zero and its
/// fraction negative; further below, its index cannot be represented.
pub open spec fn interpolated_below_zero(raw: int, table: Seq<u16>, scale: int, upper: bool) -> Result<
    i32,
    NumericError,
> {
    if -raw >= scale {
        Err(NumericError::Overflow)
    } else if table.len() <= 1 {
        Ok(table[0] as i32)
    } else {
        let base = table[0] as int;
        let numerator = (table[1] - base) * raw;
        let adjustment = if upper {
            div_toward_zero(numerator + scale - 1, scale)
        } else {
            div_toward_zero(numerator, scale)
        };
        Ok((base + adjustment) as i32)
    }
}

pub open spec fn interpolated(raw: int, table: Seq<u16>, bits: nat, upper: bool) -> Result<
    i32,
    NumericError,
> {
    let scale = two_pow(bits) as int;
    if raw < 0 {
        interpolated_below_zero(raw, table, scale, upper)
    } else {
    let index = raw / scale;
    let fraction = raw % scale;
    if index + 1 >= table.len() {
        Ok(table[index] as i32)
    } else {
        let base = table[index] as int;
        let delta = table[index + 1] - base;
        let numerator = delta * fraction;
        if numerator > i64::MAX || numerator < i64::MIN {
            Err(NumericError::Overflow)
        } else {
            let adjustment = if upper {
                (numerator + scale - 1) / scale
            } else {
                numerator / scale
            };
            Ok((base + adjustment) as i32)
        }
    }
    }
}

/// The interval a monotone table maps `input` to, rounded outward.
pub open spec fn lut_mapped(input: Iv32, table: Seq<u16>, bits: u8) -> Result<Iv32, NumericError> {
    if !lut_is_monotone(table) {
        Err(NumericError::UnsupportedShape)
    } else if table.len() - 1 > i64::MAX || bits >= 64 {
        Err(NumericError::Overflow)
    } else if input.lo < 0 || input.hi > wrapping_shl_i64(table.len() - 1, bits as nat) {
        Err(NumericError::DomainMismatch)
    } else {
        match interpolated(input.lo as int, table, bits as nat, false) {
            Err(e) => Err(e),
            Ok(low) => match interpolated(input.hi as int, table, bits as nat, true) {
                Err(e) => Err(e),
                Ok(high) => if low > high {
                    Err(NumericError::InvalidInterval)
                } else {
                    Ok(Iv32 { lo: low, hi: high })
                },
            },
        }
    }
}

proof fn lemma_quotient_facts(value: int, scale: int)
    by (nonlinear_arith)
    requires
        0 <= value < 0x8000_0000,
        1 <= scale,
    ensures
        0 <= value / scale <= value,
        0 <= value % scale <= value,
        value % scale < scale,
{
}

proof fn lemma_adjustment_bounded(delta: int, fraction: int, scale: int)
    by (nonlinear_arith)
    requires
        0 <= fraction < scale,
        0 <= delta,
    ensures
        0 <= (delta * fraction) / scale <= delta,
        0 <= (delta * fraction + scale - 1) / scale <= delta,
{
}

/// Division rounding toward zero, as Rust's `/` on signed integers does.
fn div_toward_zero_i64(a: i64, b: i64) -> (r: i64)
    requires
        b > 0,
        a > i64::MIN,
    ensures
        r == div_toward_zero(a as int, b as int),
{
    if a >= 0 {
        a / b
    } else {
        -((-a) / b)
    }
}

/// Below zero the adjustment is at most one cell step down and never up by
/// more than a unit.
proof fn lemma_below_zero_adjustment(delta: int, value: int, scale: int)
    by (nonlinear_arith)
    requires
        0 <= delta <= 65535,
        1 <= scale,
        -scale < value < 0,
    ensures
        -delta <= div_toward_zero(delta * value, scale) <= 0,
        -delta <= div_toward_zero(delta * value + scale - 1, scale) <= 1,
{
    assert(-delta * scale <= delta * value <= 0);
}

#[verifier::rlimit(30)]
fn interpolate_endpoint(raw: i32, table: &[u16], fraction_bits: u8, upper: bool) -> (r: Result<
    i32,
    NumericError,
>)
    requires
        fraction_bits < 63,
        lut_is_monotone(table@),
        raw >= 0 ==> (raw as int) / (two_pow(fraction_bits as nat) as int) < table@.len(),
    ensures
        r == interpolated(raw as int, table@, fraction_bits as nat, upper),
{
    proof {
        lemma_two_pow_pos(fraction_bits as nat);
        lemma_two_pow_monotone(fraction_bits as nat, 62);
        lemma_two_pow_values();
        assert(two_pow(63) == 2 * two_pow(62));
    }
    let scale = two_pow_i128(fraction_bits as u32) as i64;
    let value = raw as i64;
    if value < 0 {
        if -value >= scale {
            return Err(NumericError::Overflow);
        }
        let base = table[0] as i64;
        let delta = table[1] as i64 - base;
        assert(0 <= delta <= 65535) by {
            assert(table@[0] <= table@[1]);
        }
        assert(-65535 * 0x8000_0000 <= delta * value <= 0) by (nonlinear_arith)
            requires
                0 <= delta <= 65535,
                -0x8000_0000 <= value < 0,
        ;
        let numerator = delta * value;
        let adjustment = if upper {
            div_toward_zero_i64(numerator + scale - 1, scale)
        } else {
            div_toward_zero_i64(numerator, scale)
        };
        proof {
            lemma_below_zero_adjustment(delta as int, value as int, scale as int);
        }
        return Ok((base + adjustment) as i32);
    }
    proof {
        lemma_quotient_facts(value as int, scale as int);
    }
    let quotient = value / scale;
    let fraction = value % scale;
    let index = quotient as usize;
    if index + 1 >= table.len() {
        return Ok(table[index] as i32);
    }
    let base = table[index] as i64;
    let delta = table[index + 1] as i64 - base;
    assert(0 <= delta <= 65535) by {
        assert(table@[index as int] <= table@[index + 1]);
    }
    assert(delta * fraction <= 65535 * 0x8000_0000) by (nonlinear_arith)
        requires
            0 <= delta <= 65535,
            0 <= fraction < 0x8000_0000,
    ;
    let numerator = match delta.checked_mul(fraction) {
        Some(v) => v,
        None => return Err(NumericError::Overflow),
    };
    assert(0 <= numerator);
    let adjustment = if upper {
        (numerator + scale - 1) / scale
    } else {
        numerator / scale
    };
    proof {
        lemma_adjustment_bounded(delta as int, fraction as int, scale as int);
    }
    Ok((base + adjustment) as i32)
}

/// Maps an interval through a monotone lookup table whose input has
/// `index_fraction_bits` fraction bits, interpolating outward.
#[verifier::rlimit(30)]
pub fn monotone_lut(input: Iv32, table: &[u16], index_fraction_bits: u8) -> (r: Result<
    Iv32,
    NumericError,
>)
    requires
        !(lut_is_monotone(table@) && table@.len() - 1 <= i64::MAX && index_fraction_bits < 64
            && 0 <= input.lo && input.hi <= wrapping_shl_i64(
            table@.len() - 1,
            index_fraction_bits as nat,
        ) && (input.lo as int) / (two_pow(index_fraction_bits as nat) as int) > table@.len()
            - 1),
        !(index_fraction_bits == 63 && lut_is_monotone(table@) && (table@.len() - 1) % 2 == 0
            && input.lo >= 0 && input.hi <= 0),
    ensures
        r == lut_mapped(input, table@, index_fraction_bits),
{
    validate_monotone_lut(table)?;
    let last_index = table.len() - 1;
    if last_index as u64 > i64::MAX as u64 || index_fraction_bits >= 64 {
        return Err(NumericError::Overflow);
    }
    proof {
        lemma_two_pow_values();
        lemma_two_pow_pos(index_fraction_bits as nat);
        lemma_two_pow_monotone(index_fraction_bits as nat, 63);
        assert(last_index * two_pow(index_fraction_bits as nat) <= 0x8000_0000_0000_0000
            * 0x8000_0000_0000_0000) by (nonlinear_arith)
            requires
                0 <= last_index <= 0x7fff_ffff_ffff_ffff,
                two_pow(index_fraction_bits as nat) <= 0x8000_0000_0000_0000,
        ;
    }
    let product: u128 = last_index as u128 * two_pow_i128(index_fraction_bits as u32) as u128;
    let wrapped: u128 = product % 0x1_0000_0000_0000_0000u128;
    let maximum_raw: i128 = if wrapped >= 0x8000_0000_0000_0000u128 {
        wrapped as i128 - 0x1_0000_0000_0000_0000i128
    } else {
        wrapped as i128
    };
    if input.lo < 0 || input.hi as i128 > maximum_raw {
        return Err(NumericError::DomainMismatch);
    }
    if index_fraction_bits == 63 {
        proof {
            assert(wrapping_shl_i64(last_index as int, 63) == 0 || wrapping_shl_i64(
                last_index as int,
                63,
            ) == i64::MIN) by {
                assert(last_index * 0x8000_0000_0000_0000 % 0x1_0000_0000_0000_0000 == (if last_index
                    % 2 == 0 {
                    0int
                } else {
                    0x8000_0000_0000_0000int
                })) by (nonlinear_arith)
                    requires
                        last_index >= 0,
                ;
            }
            assert(false);
        }
    }
    proof {
        let s = two_pow(index_fraction_bits as nat) as int;
        assert(input.hi <= last_index * s) by {
            if last_index * s >= 0x8000_0000_0000_0000 {
            } else {
                assert(last_index * s % 0x1_0000_0000_0000_0000 == last_index * s) by (nonlinear_arith)
                    requires
                        0 <= last_index * s < 0x8000_0000_0000_0000,
                ;
            }
        }
        if input.hi >= 0 {
            assert((input.hi as int) / s <= last_index) by (nonlinear_arith)
                requires
                    0 <= input.hi <= last_index * s,
                    s >= 1,
            ;
        }
    }
    let low = interpolate_endpoint(input.lo, table, index_fraction_bits, false)?;
    let high = interpolate_endpoint(input.hi, table, index_fraction_bits, true)?;
    Iv32::new(low, high)
}

/// A fixed-point value rounded to a byte, ties to even.
pub open spec fn quantized(value: i32, fraction_bits: u8) -> Result<u8, NumericError> {
    if value < 0 || fraction_bits >= 31 {
        Err(NumericError::DomainMismatch)
    } else if fraction_bits == 0 {
        if value <= 255 {
            Ok(value as u8)
        } else {
            Err(NumericError::Overflow)
        }
    } else {
        let scale = two_pow(fraction_bits as nat) as int;
        let quotient = (value as int) / scale;
        let remainder = (value as int) % scale;
        let half = scale / 2;
        let rounded = if remainder > half || (remainder == half && quotient % 2 != 0) {
            quotient + 1
        } else {
            quotient
        };
        if rounded <= 255 {
            Ok(rounded as u8)
        } else {
            Err(NumericError::Overflow)
        }
    }
}

pub fn quantize_u8_ties_even(value: i32, fraction_bits: u8) -> (r: Result<u8, NumericError>)
    ensures
        r == quantized(value, fraction_bits),
{
    if value < 0 || fraction_bits >= 31 {
        return Err(NumericError::DomainMismatch);
    }
    if fraction_bits == 0 {
        if value > 255 {
            return Err(NumericError::Overflow);
        }
        return Ok(value as u8);
    }
    proof {
        lemma_two_pow_pos(fraction_bits as nat);
        lemma_two_pow_monotone(fraction_bits as nat, 30);
        lemma_two_pow_values();
    }
    let scale = two_pow_i128(fraction_bits as u32) as i64;
    let quotient = value as i64 / scale;
    let remainder = value as i64 % scale;
    let half = scale / 2;
    let rounded = if remainder > half || (remainder == half && quotient % 2 != 0) {
        quotient + 1
    } else {
        quotient
    };
    if rounded > 255 {
        return Err(NumericError::Overflow);
    }
    Ok(rounded as u8)
}

/// The byte both endpoints round to, when they agree.
pub open spec fn singleton_byte(interval: Iv32, fraction_bits: u8) -> Result<Option<u8>, NumericError> {
    match quantized(interval.lo, fraction_bits) {
        Err(e) => Err(e),
        Ok(lo) => match quantized(interval.hi, fraction_bits) {
            Err(e) => Err(e),
            Ok(hi) => Ok(
                if lo == hi {
                    Some(lo)
                } else {
                    None
                },
            ),
        },
    }
}

pub fn endpoint_singleton(interval: Iv32, fraction_bits: u8) -> (r: Result<Option<u8>, NumericError>)
    ensures
        r == singleton_byte(interval, fraction_bits),
{
    let lo = quantize_u8_ties_even(interval.lo, fraction_bits)?;
    let hi = quantize_u8_ties_even(interval.hi, fraction_bits)?;
    Ok(
        if lo == hi {
            Some(lo)
        } else {
            None
        },
    )
}

/// The unclamped byte a nonnegative fixed-point value rounds to, ties to even.
pub open spec fn rounded_code(value: int, fraction_bits: u8) -> int {
    if fraction_bits == 0 {
        value
    } else {
        let scale = two_pow(fraction_bits as nat) as int;
        let quotient = value / scale;
        let remainder = value % scale;
        let half = scale / 2;
        if remainder > half || (remainder == half && quotient % 2 != 0) {
            quotient + 1
        } else {
            quotient
        }
    }
}

/// Rounding to nearest, ties to even, never reverses the order of values.
pub proof fn quantization_is_monotone(v1: int, v2: int, fraction_bits: u8)
    requires
        0 <= v1 <= v2,
    ensures
        rounded_code(v1, fraction_bits) <= rounded_code(v2, fraction_bits),
{
    if fraction_bits != 0 {
        let s = two_pow(fraction_bits as nat) as int;
        lemma_two_pow_pos(fraction_bits as nat);
        vstd::arithmetic::div_mod::lemma_div_is_ordered(v1, v2, s);
        vstd::arithmetic::div_mod::lemma_fundamental_div_mod(v1, s);
        vstd::arithmetic::div_mod::lemma_fundamental_div_mod(v2, s);
        let q1 = v1 / s;
        let q2 = v2 / s;
        if q1 == q2 {
            assert(v1 % s <= v2 % s) by (nonlinear_arith)
                requires
                    v1 == s * q1 + v1 % s,
                    v2 == s * q2 + v2 % s,
                    q1 == q2,
                    v1 <= v2,
            ;
        }
    }
}

/// A singleton byte speaks for the whole interval: every value between the
/// endpoints quantizes to that byte.
pub proof fn singleton_covers_interval(interval: Iv32, fraction_bits: u8, v: i32)
    requires
        singleton_byte(interval, fraction_bits) matches Ok(Some(_)),
        interval.lo <= v <= interval.hi,
    ensures
        singleton_byte(interval, fraction_bits) == Ok::<Option<u8>, NumericError>(
            Some(quantized(v, fraction_bits)->Ok_0),
        ),
        quantized(v, fraction_bits) is Ok,
{
    quantization_is_monotone(interval.lo as int, v as int, fraction_bits);
    quantization_is_monotone(v as int, interval.hi as int, fraction_bits);
    lemma_two_pow_pos(fraction_bits as nat);
}

/// The bytes of the first `k` channels, when each is a singleton: the
/// first error, or the first channel that is not a singleton, decides.
pub open spec fn rgb_prefix(color: [Iv32; 3], fraction_bits: u8, k: nat) -> Result<
    Option<Seq<u8>>,
    NumericError,
>
    decreases k,
{
    if k == 0 {
        Ok(Some(Seq::empty()))
    } else {
        match rgb_prefix(color, fraction_bits, (k - 1) as nat) {
            Err(e) => Err(e),
            Ok(None) => Ok(None),
            Ok(Some(codes)) => match singleton_byte(color[k - 1], fraction_bits) {
                Err(e) => Err(e),
                Ok(None) => Ok(None),
                Ok(Some(code)) => Ok(Some(codes.push(code))),
            },
        }
    }
}

proof fn lemma_rgb_prefix_sticks(color: [Iv32; 3], fraction_bits: u8, k: nat, m: nat)
    requires
        k <= m,
        !(rgb_prefix(color, fraction_bits, k) matches Ok(Some(_))),
    ensures
        rgb_prefix(color, fraction_bits, m) == rgb_prefix(color, fraction_bits, k),
    decreases m - k,
{
    if k < m {
        lemma_rgb_prefix_sticks(color, fraction_bits, k, (m - 1) as nat);
    }
}

pub fn rgb_singleton(color: [Iv32; 3], fraction_bits: u8) -> (r: Result<
    Option<[u8; 3]>,
    NumericError,
>)
    ensures
        match rgb_prefix(color, fraction_bits, 3) {
            Err(e) => r == Err::<Option<[u8; 3]>, NumericError>(e),
            Ok(None) => r == Ok::<Option<[u8; 3]>, NumericError>(None),
            Ok(Some(codes)) => r matches Ok(Some(out)) && out@ == codes,
        },
{
    let mut output = [0u8; 3];
    let mut channel: usize = 0;
    assert(output@.take(0) =~= Seq::<u8>::empty());
    while channel < 3
        invariant
            channel <= 3,
            rgb_prefix(color, fraction_bits, channel as nat) == Ok::<
                Option<Seq<u8>>,
                NumericError,
            >(Some(output@.take(channel as int))),
        decreases 3 - channel,
    {
        let code = match endpoint_singleton(color[channel], fraction_bits) {
            Ok(Some(code)) => code,
            Ok(None) => {
                proof {
                    lemma_rgb_prefix_sticks(color, fraction_bits, (channel + 1) as nat, 3);
                }
                return Ok(None);
            },
            Err(e) => {
                proof {
                    lemma_rgb_prefix_sticks(color, fraction_bits, (channel + 1) as nat, 3);
                }
                return Err(e);
            },
        };
        let ghost before = output@;
        output[channel] = code;
        assert(output@.take(channel + 1) =~= before.take(channel as int).push(code));
        channel = channel + 1;
    }
    assert(output@.take(3) =~= output@);
    Ok(Some(output))
}

/// The table's exact value at fixed-point coordinate `raw`, scaled by
/// `2^bits`: linear between entries, flat past the last one.
pub open spec fn exact_scaled(raw: int, table: Seq<u16>, bits: nat) -> int {
    let scale = two_pow(bits) as int;
    let index = raw / scale;
    let fraction = raw % scale;
    if index + 1 >= table.len() {
        table[index] * scale
    } else {
        table[index] * scale + (table[index + 1] - table[index]) * fraction
    }
}

proof fn lemma_exact_step(raw: int, table: Seq<u16>, bits: nat)
    requires
        lut_is_monotone(table),
        0 <= raw,
        (raw + 1) / (two_pow(bits) as int) < table.len(),
    ensures
        exact_scaled(raw, table, bits) <= exact_scaled(raw + 1, table, bits),
{
    lemma_two_pow_pos(bits);
    let s = two_pow(bits) as int;
    let i = raw / s;
    let f = raw % s;
    vstd::arithmetic::div_mod::lemma_fundamental_div_mod(raw, s);
    vstd::arithmetic::div_mod::lemma_fundamental_div_mod(raw + 1, s);
    if f + 1 < s {
        assert((raw + 1) / s == i && (raw + 1) % s == f + 1) by {
            vstd::arithmetic::div_mod::lemma_fundamental_div_mod_converse(raw + 1, s, i, f + 1);
        }
        if i + 1 < table.len() {
            assert(table[i] <= table[i + 1]);
            assert((table[i + 1] - table[i]) * f <= (table[i + 1] - table[i]) * (f + 1))
                by (nonlinear_arith)
                requires
                    table[i] <= table[i + 1],
            ;
        }
    } else {
        assert((raw + 1) / s == i + 1 && (raw + 1) % s == 0) by {
            assert(raw + 1 == (i + 1) * s + 0) by (nonlinear_arith)
                requires
                    raw == s * i + f,
                    f == s - 1,
            ;
            vstd::arithmetic::div_mod::lemma_fundamental_div_mod_converse(raw + 1, s, i + 1, 0);
        }
        if i + 1 < table.len() {
            assert(table[i] <= table[i + 1]);
            assert(table[i] * s + (table[i + 1] - table[i]) * f <= table[i + 1] * s)
                by (nonlinear_arith)
                requires
                    table[i] <= table[i + 1],
                    f == s - 1,
                    s >= 1,
            ;
            if i + 2 < table.len() {
                assert(table[i + 1] <= table[i + 2]);
                assert(table[i + 1] * s <= table[i + 1] * s + (table[i + 2] - table[i + 1]) * 0);
            }
        }
    }
}

proof fn lemma_exact_monotone(x: int, y: int, table: Seq<u16>, bits: nat)
    requires
        lut_is_monotone(table),
        0 <= x <= y,
        y / (two_pow(bits) as int) < table.len(),
    ensures
        exact_scaled(x, table, bits) <= exact_scaled(y, table, bits),
    decreases y - x,
{
    if x < y {
        lemma_two_pow_pos(bits);
        vstd::arithmetic::div_mod::lemma_div_is_ordered(y - 1, y, two_pow(bits) as int);
        lemma_exact_monotone(x, y - 1, table, bits);
        lemma_exact_step(y - 1, table, bits);
    }
}

proof fn lemma_interpolated_rounds(raw: int, table: Seq<u16>, bits: nat, upper: bool)
    requires
        lut_is_monotone(table),
        0 <= raw,
        raw / (two_pow(bits) as int) < table.len(),
        interpolated(raw, table, bits, upper) is Ok,
    ensures
        !upper ==> interpolated(raw, table, bits, upper)->Ok_0 * (two_pow(bits) as int)
            <= exact_scaled(raw, table, bits),
        upper ==> exact_scaled(raw, table, bits) <= interpolated(raw, table, bits, upper)->Ok_0
            * (two_pow(bits) as int),
{
    lemma_two_pow_pos(bits);
    let s = two_pow(bits) as int;
    let i = raw / s;
    let f = raw % s;
    vstd::arithmetic::div_mod::lemma_fundamental_div_mod(raw, s);
    if i + 1 < table.len() {
        let base = table[i] as int;
        let num = (table[i + 1] - base) * f;
        assert(table[i] <= table[i + 1]);
        assert(num >= 0) by (nonlinear_arith)
            requires
                num == (table[i + 1] - base) * f,
                table[i + 1] - base >= 0,
                f >= 0,
        ;
        let v = interpolated(raw, table, bits, upper)->Ok_0;
        lemma_adjustment_bounded(table[i + 1] - base, f, s);
        if upper {
            let adj = (num + s - 1) / s;
            vstd::arithmetic::div_mod::lemma_fundamental_div_mod(num + s - 1, s);
            assert(num <= adj * s) by (nonlinear_arith)
                requires
                    num + s - 1 == s * adj + (num + s - 1) % s,
                    0 <= (num + s - 1) % s < s,
            ;
            assert(v == base + adj);
            assert(exact_scaled(raw, table, bits) <= v * s) by (nonlinear_arith)
                requires
                    exact_scaled(raw, table, bits) == base * s + num,
                    v == base + adj,
                    num <= adj * s,
            ;
        } else {
            let adj = num / s;
            vstd::arithmetic::div_mod::lemma_fundamental_div_mod(num, s);
            assert(adj * s <= num) by (nonlinear_arith)
                requires
                    num == s * adj + num % s,
                    0 <= num % s,
            ;
            assert(v == base + adj);
            assert(v * s <= exact_scaled(raw, table, bits)) by (nonlinear_arith)
                requires
                    exact_scaled(raw, table, bits) == base * s + num,
                    v == base + adj,
                    adj * s <= num,
            ;
        }
    }
}

/// Interpolation is outward: when a monotone table maps an interval, the
/// result contains the table's exact value at every coordinate of the
/// interval (values scaled by the coordinate's `2^bits`).
pub proof fn lut_interpolation_is_outward(input: Iv32, table: Seq<u16>, bits: u8, x: int)
    requires
        input.lo <= x <= input.hi,
        lut_mapped(input, table, bits) is Ok,
    ensures
        lut_mapped(input, table, bits)->Ok_0.lo * (two_pow(bits as nat) as int) <= exact_scaled(
            x,
            table,
            bits as nat,
        ) <= lut_mapped(input, table, bits)->Ok_0.hi * (two_pow(bits as nat) as int),
{
    let n = bits as nat;
    lemma_two_pow_pos(n);
    let s = two_pow(n) as int;
    let last = table.len() - 1;
    lemma_two_pow_values();
    lemma_two_pow_monotone(n, 63);
    // the upper end lies within the table
    assert(input.hi <= last * s) by {
        assert(last * s >= 0) by (nonlinear_arith)
            requires
                last >= 0,
                s >= 1,
        ;
        if last * s < 0x8000_0000_0000_0000 {
            assert(last * s % 0x1_0000_0000_0000_0000 == last * s) by (nonlinear_arith)
                requires
                    0 <= last * s < 0x8000_0000_0000_0000,
            ;
        }
    }
    assert((input.hi as int) / s <= last) by (nonlinear_arith)
        requires
            0 <= input.hi <= last * s,
            s >= 1,
    ;
    vstd::arithmetic::div_mod::lemma_div_is_ordered(input.lo as int, x, s);
    vstd::arithmetic::div_mod::lemma_div_is_ordered(x, input.hi as int, s);
    lemma_exact_monotone(input.lo as int, x, table, n);
    lemma_exact_monotone(x, input.hi as int, table, n);
    lemma_interpolated_rounds(input.lo as int, table, n, false);
    lemma_interpolated_rounds(input.hi as int, table, n, true);
}

/// `numerator / denominator` rounded to nearest, ties to even.
pub open spec fn ratio_rounded(numerator: nat, denominator: nat) -> nat {
    let q = numerator / denominator;
    let r = numerator % denominator;
    if 2 * r > denominator || (2 * r == denominator && q % 2 == 1) {
        q + 1
    } else {
        q
    }
}

/// `numerator / denominator` rounded to nearest with ties to even; a zero
/// denominator is a domain mismatch, a doubled remainder past `u64` an
/// overflow.
pub fn round_ratio(numerator: u64, denominator: u64) -> (r: Result<u64, NumericError>)
    ensures
        denominator == 0 ==> r == Err::<u64, NumericError>(NumericError::DomainMismatch),
        denominator != 0 && 2 * (numerator % denominator) > u64::MAX ==> r == Err::<
            u64,
            NumericError,
        >(NumericError::Overflow),
        denominator != 0 && 2 * (numerator % denominator) <= u64::MAX ==> r == Ok::<
            u64,
            NumericError,
        >(ratio_rounded(numerator as nat, denominator as nat) as u64),
{
    if denominator == 0 {
        return Err(NumericError::DomainMismatch);
    }
    let quotient = numerator / denominator;
    let remainder = numerator % denominator;
    let twice = match remainder.checked_mul(2) {
        Some(v) => v,
        None => return Err(NumericError::Overflow),
    };
    if twice > denominator || (twice == denominator && quotient % 2 != 0) {
        assert(quotient < u64::MAX) by (nonlinear_arith)
            requires
                denominator >= 2 || remainder == 0,
                quotient == numerator / denominator,
                remainder == numerator % denominator,
                twice == remainder * 2,
                twice >= denominator,
                denominator > 0,
        ;
        Ok(quotient + 1)
    } else {
        Ok(quotient)
    }
}

proof fn lemma_ratio_rounded_fits(n: u64, d: u64)
    requires
        d > 0,
    ensures
        ratio_rounded(n as nat, d as nat) <= u64::MAX,
{
    let q = n as nat / d as nat;
    let r = n as nat % d as nat;
    vstd::arithmetic::div_mod::lemma_fundamental_div_mod(n as int, d as int);
    vstd::arithmetic::div_mod::lemma_mod_pos_bound(n as int, d as int);
    if d == 1 {
        assert(r == 0);
    } else {
        assert(q <= u64::MAX / 2) by (nonlinear_arith)
            requires
                n as int == d * q + r,
                d >= 2,
                r >= 0,
                q >= 0,
                n <= u64::MAX,
        ;
    }
}

/// The table read at fixed-point `coordinate` with `bits` fraction bits:
/// the entry below interpolated toward the next, rounded to nearest with
/// ties to even; the last entry is read exactly.
pub open spec fn lut_interpolated(table: Seq<u16>, coordinate: nat, bits: nat) -> Result<
    u16,
    NumericError,
> {
    let scale = two_pow(bits);
    let index = coordinate / scale;
    if !lut_is_monotone(table) {
        Err(NumericError::UnsupportedShape)
    } else if index > table.len() - 1 {
        Err(NumericError::DomainMismatch)
    } else if index == table.len() - 1 {
        Ok(table[index as int])
    } else {
        let low = table[index as int] as nat;
        let delta = (table[(index + 1) as int] - table[index as int]) as nat;
        let fraction = coordinate % scale;
        if low * scale > u64::MAX || delta * fraction > u64::MAX || low * scale + delta * fraction
            > u64::MAX {
            Err(NumericError::Overflow)
        } else {
            let v = ratio_rounded(low * scale + delta * fraction, scale);
            if v > u16::MAX {
                Err(NumericError::Overflow)
            } else {
                Ok(v as u16)
            }
        }
    }
}

/// Reads a monotone table at a fixed-point coordinate with `fraction_bits`
/// fraction bits.
pub fn interpolate_u16_fixed(table: &[u16], coordinate: u64, fraction_bits: u8) -> (r: Result<
    u16,
    NumericError,
>)
    requires
        fraction_bits < 64,
    ensures
        r == lut_interpolated(table@, coordinate as nat, fraction_bits as nat),
{
    validate_monotone_lut(table)?;
    let last = (table.len() - 1) as u64;
    proof {
        lemma_two_pow_pos(fraction_bits as nat);
        lemma_two_pow_monotone(fraction_bits as nat, 63);
        lemma_two_pow_values();
    }
    let scale_wide = two_pow_i128(fraction_bits as u32);
    let scale = scale_wide as u64;
    let index = coordinate / scale;
    if index > last {
        return Err(NumericError::DomainMismatch);
    }
    let index = index as usize;
    if index == table.len() - 1 {
        return Ok(table[index]);
    }
    let fraction = coordinate % scale;
    let low = table[index] as u64;
    let delta = (table[index + 1] - table[index]) as u64;
    let scaled_low = match low.checked_mul(scale) {
        Some(v) => v,
        None => return Err(NumericError::Overflow),
    };
    let moved = match delta.checked_mul(fraction) {
        Some(v) => v,
        None => return Err(NumericError::Overflow),
    };
    let numerator = match scaled_low.checked_add(moved) {
        Some(v) => v,
        None => return Err(NumericError::Overflow),
    };
    proof {
        assert(numerator % scale < scale) by {
            vstd::arithmetic::div_mod::lemma_mod_pos_bound(numerator as int, scale as int);
        }
        assert(scale as nat == two_pow(fraction_bits as nat));
        assert(2 * (numerator % scale) <= u64::MAX);
        assert(index as int == coordinate as nat / two_pow(fraction_bits as nat));
        assert(low as nat == table@[index as int] as nat);
        assert(delta as nat == (table@[(index + 1) as int] - table@[index as int]) as nat);
    }
    let value = round_ratio(numerator, scale)?;
    proof {
        lemma_ratio_rounded_fits(numerator, scale);
        assert(value as nat == ratio_rounded(numerator as nat, scale as nat));
    }
    if value > u16::MAX as u64 {
        return Err(NumericError::Overflow);
    }
    Ok(value as u16)
}

/// A significand with its leading bit raised to bit 23, and the exponent
/// lowered to match.
pub open spec fn normalized_subnormal(fraction: nat) -> (nat, int) {
    let shift = (23 - top_bit_of(fraction)) as nat;
    (fraction * two_pow(shift), -126 - shift)
}

/// One bit of `log2` of a significand in `[2^23, 2^24)`: square it back
/// into that range, noting whether it reached a further doubling.
pub open spec fn squaring_step(m: nat) -> (nat, bool) {
    let squared = (m * m) / two_pow(23);
    if squared >= two_pow(24) {
        (squared / 2, true)
    } else {
        (squared, false)
    }
}

/// The significand and the first `k` fraction bits of its `log2`, most
/// significant first, each at weight `2^(14 - i)`.
pub open spec fn log_fraction(m: nat, k: nat) -> (nat, nat)
    decreases k,
{
    if k == 0 {
        (m, 0)
    } else {
        let (previous, fraction) = log_fraction(m, (k - 1) as nat);
        let (next, bit) = squaring_step(previous);
        (next, if bit {
            fraction + two_pow((14 - (k - 1)) as nat)
        } else {
            fraction
        })
    }
}

/// The filmic table coordinate of a binary32 value, with eight fraction
/// bits: `log2` of the value in units of `2^-15`, offset by sixteen octaves
/// and clamped to `[0, 2^20]`; none for a negative value or a zero, a
/// mismatch for a NaN or an infinity.
pub open spec fn filmic_coordinate(bits: u32) -> Result<Option<u64>, NumericError> {
    if f32_exponent_field(bits) == 255 {
        Err(NumericError::DomainMismatch)
    } else if f32_is_negative(bits) || bits as int % 0x8000_0000 == 0 {
        Ok(None)
    } else {
        let (m, e) = if f32_exponent_field(bits) == 0 {
            normalized_subnormal(f32_fraction_field(bits) as nat)
        } else {
            ((f32_fraction_field(bits) + 0x80_0000) as nat, f32_exponent_field(bits) - 127)
        };
        let log_q15 = e * 32768 + log_fraction(m, 15).1;
        Ok(
            Some(
                if log_q15 >= 524_288 {
                    1_048_576u64
                } else if log_q15 > -524_288 {
                    (log_q15 + 524_288) as u64
                } else {
                    0u64
                },
            ),
        )
    }
}

proof fn lemma_squaring_stays(m: nat)
    requires
        0x80_0000 <= m < 0x100_0000,
    ensures
        0x80_0000 <= squaring_step(m).0 < 0x100_0000,
        m * m <= 0xffff_ffff_ffff,
{
    lemma_two_pow_values();
    assert(0x4000_0000_0000 <= m * m <= 0xffff_ffff_ffff) by (nonlinear_arith)
        requires
            0x80_0000 <= m < 0x100_0000,
    ;
    let squared = (m * m) / 0x80_0000;
    assert(0x80_0000 <= squared < 0x200_0000) by (nonlinear_arith)
        requires
            0x4000_0000_0000 <= m * m <= 0xffff_ffff_ffff,
            squared == (m * m) / 0x80_0000,
    ;
}

/// The filmic table coordinate of the binary32 value with bit pattern
/// `bits`.
pub fn filmic_coordinate_q8(bits: u32) -> (r: Result<Option<u64>, NumericError>)
    ensures
        r == filmic_coordinate(bits),
{
    let exponent_bits = (bits / 0x80_0000) % 0x100;
    if exponent_bits == 0xff {
        return Err(NumericError::DomainMismatch);
    }
    if bits >= 0x8000_0000 || bits % 0x8000_0000 == 0 {
        return Ok(None);
    }
    let mut mantissa: u64 = (bits % 0x80_0000) as u64;
    let mut exponent: i64 = exponent_bits as i64 - 127;
    if exponent_bits == 0 {
        exponent = -126;
        let ghost fraction = mantissa as nat;
        let ghost mut shift: nat = 0;
        proof {
            lemma_top_bit(fraction);
            lemma_two_pow_values();
            if top_bit_of(fraction) > 22 {
                lemma_two_pow_monotone(23, top_bit_of(fraction));
            }
        }
        while mantissa < 0x80_0000
            invariant
                1 <= fraction < 0x80_0000,
                top_bit_of(fraction) <= 22,
                shift <= 23 - top_bit_of(fraction),
                mantissa == fraction * two_pow(shift),
                exponent == -126 - shift,
                top_bit_of(mantissa as nat) == top_bit_of(fraction) + shift,
            decreases 23 - shift,
        {
            proof {
                lemma_two_pow_pos(shift);
                assert(mantissa >= 1) by (nonlinear_arith)
                    requires
                        mantissa == fraction * two_pow(shift),
                        fraction >= 1,
                        two_pow(shift) >= 1,
                ;
                lemma_top_bit(mantissa as nat);
                lemma_two_pow_values();
                if top_bit_of(mantissa as nat) >= 23 {
                    lemma_two_pow_monotone(23, top_bit_of(mantissa as nat));
                }
                lemma_two_pow_adds(shift, 1);
                lemma_top_bit_scale(fraction, shift + 1);
                assert(fraction * two_pow(shift + 1) == 2 * (fraction * two_pow(shift))) by (
                nonlinear_arith)
                    requires
                        two_pow(shift + 1) == two_pow(shift) * two_pow(1),
                        two_pow(1) == 2,
                ;
            }
            mantissa = mantissa * 2;
            exponent = exponent - 1;
            proof {
                shift = shift + 1;
            }
        }
        proof {
            lemma_top_bit(mantissa as nat);
            lemma_two_pow_values();
            if top_bit_of(mantissa as nat) < 23 {
                lemma_two_pow_monotone(top_bit_of(mantissa as nat) + 1, 23);
            }
            assert(shift == 23 - top_bit_of(fraction));
        }
    } else {
        mantissa = mantissa + 0x80_0000;
    }
    let ghost start = mantissa as nat;
    let mut fraction: u64 = 0;
    let mut step: u32 = 0;
    proof {
        lemma_two_pow_values();
    }
    while step < 15
        invariant
            step <= 15,
            0x80_0000 <= mantissa < 0x100_0000,
            0x80_0000 <= start < 0x100_0000,
            (mantissa as nat, fraction as nat) == log_fraction(start, step as nat),
            fraction < two_pow(15) - two_pow((15 - step) as nat) + 1,
            two_pow(23) == 0x80_0000,
            two_pow(24) == 0x100_0000,
        decreases 15 - step,
    {
        proof {
            lemma_squaring_stays(mantissa as nat);
        }
        let squared = (mantissa * mantissa) / 0x80_0000;
        let bit = two_pow_i128(14 - step) as u64;
        proof {
            lemma_two_pow_pos((14 - step) as nat);
            lemma_two_pow_monotone((14 - step) as nat, 15);
            assert(two_pow(15) == 32768) by {
                reveal_with_fuel(two_pow, 16);
            }
            assert(two_pow((15 - step) as nat) == 2 * two_pow((14 - step) as nat));
        }
        if squared >= 0x100_0000 {
            mantissa = squared / 2;
            fraction = fraction + bit;
        } else {
            mantissa = squared;
        }
        step = step + 1;
    }
    proof {
        assert(two_pow(0) == 1);
        assert(two_pow(15) == 32768) by {
            reveal_with_fuel(two_pow, 16);
        }
    }
    let log_q15: i64 = exponent * 32_768 + fraction as i64;
    if log_q15 >= 524_288 {
        Ok(Some(1_048_576))
    } else if log_q15 > -524_288 {
        Ok(Some((log_q15 + 524_288) as u64))
    } else {
        Ok(Some(0))
    }
}

} // verus!
