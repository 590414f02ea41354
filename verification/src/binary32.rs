//! Binary32 rounding of exact dyadic values, to nearest with ties to even.
use vstd::prelude::*;
use crate::dyadic::{
    two_pow, top_bit_of, lemma_top_bit, lemma_two_pow_pos, lemma_two_pow_monotone,
    lemma_two_pow_adds,
};

verus! {

/// `value * 2^-d`, rounded to nearest with ties to even when `d > 0`.
pub open spec fn rne_shift(value: nat, d: int) -> nat {
    if d <= 0 {
        value * two_pow((-d) as nat)
    } else {
        let scale = two_pow(d as nat);
        let kept = value / scale;
        let rem = value % scale;
        let half = two_pow((d - 1) as nat);
        if rem > half || (rem == half && kept % 2 == 1) {
            kept + 1
        } else {
            kept
        }
    }
}

/// `value * 2^-d` truncated, with a nonzero discarded remainder folded into
/// the lowest kept bit.
pub open spec fn jam_shift(value: nat, d: int) -> nat {
    if d <= 0 {
        value * two_pow((-d) as nat)
    } else {
        let kept = value / two_pow(d as nat);
        if value % two_pow(d as nat) != 0 && kept % 2 == 0 {
            kept + 1
        } else {
            kept
        }
    }
}

/// The binary32 encoding nearest to `(-1)^negative * m * 2^e` for `m >= 1`,
/// ties to even: the significand keeps 24 bits in the normal range and the
/// bits above `2^-149` below it; past the largest finite value the result
/// is infinite.
pub open spec fn round_binary32(negative: bool, m: nat, e: int) -> u32 {
    let sign: int = if negative {
        0x8000_0000
    } else {
        0
    };
    let t = top_bit_of(m);
    let u = e + t;
    if u > 127 {
        (sign + 0x7f80_0000) as u32
    } else if u >= -126 {
        let q = rne_shift(m, t - 23);
        if q == 0x100_0000 {
            if u + 1 > 127 {
                (sign + 0x7f80_0000) as u32
            } else {
                (sign + (u + 128) * 0x80_0000) as u32
            }
        } else {
            (sign + (u + 127) * 0x80_0000 + q % 0x80_0000) as u32
        }
    } else {
        let q = rne_shift(m, -149 - e);
        if q >= 0x80_0000 {
            (sign + 0x80_0000) as u32
        } else {
            (sign + q) as u32
        }
    }
}

pub proof fn lemma_top_bit_unique(v: nat, t: nat)
    requires
        two_pow(t) <= v < two_pow(t + 1),
    ensures
        top_bit_of(v) == t,
{
    lemma_two_pow_pos(t);
    lemma_top_bit(v);
    let b = top_bit_of(v);
    if b < t {
        lemma_two_pow_monotone(b + 1, t);
    } else if b > t {
        lemma_two_pow_monotone(t + 1, b);
    }
}

/// Rounding read off the quotient by half the scale.
proof fn lemma_rne_by_half(value: nat, d: int)
    requires
        d >= 1,
    ensures
        ({
            let half = two_pow((d - 1) as nat) as int;
            let w = value as int / half;
            rne_shift(value, d) == w / 2 + if w % 2 == 1 && (value as int % half != 0 || (w / 2)
                % 2 == 1) {
                1int
            } else {
                0int
            }
        }),
{
    let half = two_pow((d - 1) as nat) as int;
    let scale = two_pow(d as nat) as int;
    lemma_two_pow_pos((d - 1) as nat);
    assert(two_pow(d as nat) == 2 * two_pow((d - 1) as nat));
    assert(scale == half * 2);
    vstd::arithmetic::div_mod::lemma_div_denominator(value as int, half, 2);
    vstd::arithmetic::div_mod::lemma_breakdown(value as int, half, 2);
    let w = value as int / half;
    vstd::arithmetic::div_mod::lemma_div_pos_is_pos(value as int, half);
    assert(value as int % half < half) by {
        vstd::arithmetic::div_mod::lemma_mod_pos_bound(value as int, half);
    }
    assert(value as int % scale == half * (w % 2) + value as int % half);
    if w % 2 == 1 {
        assert(half * (w % 2) == half);
    } else {
        assert(half * (w % 2) == 0);
    }
}

/// Two values with the same quotient by half the scale, neither on a
/// half-scale boundary, round alike.
pub proof fn lemma_rne_agree(x: nat, y: nat, d: int)
    requires
        d >= 1,
        x as int / (two_pow((d - 1) as nat) as int) == y as int / (two_pow((d - 1) as nat) as int),
        x as int % (two_pow((d - 1) as nat) as int) != 0,
        y as int % (two_pow((d - 1) as nat) as int) != 0,
    ensures
        rne_shift(x, d) == rne_shift(y, d),
{
    lemma_rne_by_half(x, d);
    lemma_rne_by_half(y, d);
}

/// Scaling a value and its shift alike leaves the rounding unchanged.
pub proof fn lemma_rne_scale(m: nat, d: int, k: nat)
    ensures
        rne_shift(m * two_pow(k), d + k) == rne_shift(m, d),
{
    lemma_two_pow_pos(k);
    if d >= 1 {
        let half = two_pow((d - 1) as nat) as int;
        let half2 = two_pow((d + k - 1) as nat) as int;
        let p = two_pow(k) as int;
        lemma_two_pow_adds((d - 1) as nat, k);
        assert((d - 1) as nat + k == (d + k - 1) as nat);
        assert(half2 == half * p);
        lemma_two_pow_pos((d - 1) as nat);
        lemma_rne_by_half(m, d);
        lemma_rne_by_half(m * two_pow(k), d + k);
        assert((m * two_pow(k)) as int == p * m);
        vstd::arithmetic::div_mod::lemma_div_multiples_vanish_quotient(p, m as int, half);
        assert(half * p == p * half) by (nonlinear_arith);
        vstd::arithmetic::div_mod::lemma_truncate_middle(m as int, p, half);
        vstd::arithmetic::mul::lemma_mul_strictly_positive(p, half);
        assert((p * m) % (p * half) == p * (m as int % half));
        if m as int % half != 0 {
            vstd::arithmetic::div_mod::lemma_mod_pos_bound(m as int, half);
            assert(p * (m as int % half) != 0) by (nonlinear_arith)
                requires
                    p >= 1,
                    m as int % half > 0,
            ;
        }
    } else if d + k >= 1 {
        let e = (-d) as nat;
        let s = (d + k) as nat;
        lemma_two_pow_adds(e, s);
        assert(e + s == k);
        let value = m * two_pow(k);
        let q = m * two_pow(e);
        lemma_two_pow_pos(s);
        assert(value as int == q * two_pow(s) + 0) by (nonlinear_arith)
            requires
                value == m * two_pow(k),
                q == m * two_pow(e),
                two_pow(k) == two_pow(e) * two_pow(s),
        ;
        vstd::arithmetic::div_mod::lemma_fundamental_div_mod_converse(
            value as int,
            two_pow(s) as int,
            q as int,
            0,
        );
        lemma_two_pow_pos((s - 1) as nat);
    } else {
        let e = (-d) as nat;
        let s = (-(d + k)) as nat;
        lemma_two_pow_adds(k, s);
        assert(k + s == e);
        assert(m * two_pow(k) * two_pow(s) == m * two_pow(e)) by (nonlinear_arith)
            requires
                two_pow(e) == two_pow(k) * two_pow(s),
        ;
    }
}

pub proof fn lemma_top_bit_scale(m: nat, k: nat)
    requires
        m >= 1,
    ensures
        top_bit_of(m * two_pow(k)) == top_bit_of(m) + k,
{
    let t = top_bit_of(m);
    lemma_top_bit(m);
    lemma_two_pow_adds(t, k);
    lemma_two_pow_adds(t + 1, k);
    lemma_two_pow_pos(k);
    let p = two_pow(k);
    assert(two_pow(t) * p <= m * p < two_pow(t + 1) * p) by (nonlinear_arith)
        requires
            two_pow(t) <= m < two_pow(t + 1),
            p >= 1,
    ;
    assert(t + 1 + k == t + k + 1);
    lemma_top_bit_unique(m * p, t + k);
}

/// Scaling the value and its exponent alike leaves the binary32 rounding
/// unchanged.
pub proof fn lemma_round_scale(negative: bool, m: nat, e: int, k: nat)
    requires
        m >= 1,
    ensures
        round_binary32(negative, m * two_pow(k), e - k) == round_binary32(negative, m, e),
{
    lemma_top_bit_scale(m, k);
    let t = top_bit_of(m);
    lemma_rne_scale(m, t - 23, k);
    lemma_rne_scale(m, -149 - e, k);
    assert(t - 23 + k == top_bit_of(m * two_pow(k)) - 23);
    assert(-149 - e + k == -149 - (e - k));
}

proof fn lemma_mod_zero_factor(v: int, a: int, b: int)
    requires
        v >= 0,
        a > 0,
        b > 0,
        v % (a * b) == 0,
    ensures
        v % a == 0,
{
    vstd::arithmetic::div_mod::lemma_mod_mod(v, a, b);
    vstd::arithmetic::div_mod::lemma_small_mod(0, a as nat);
}

/// A value known only to lie strictly between the neighbours of an odd
/// multiple `m * 2^D` of `2^D`, off the multiples of `2^D`, rounds as that
/// odd multiple does once the significand holds at least 52 bits above it.
pub proof fn lemma_round_sticky(negative: bool, x: nat, m: nat, d: nat, e: int)
    requires
        d >= 1,
        m >= two_pow(52),
        m % 2 == 1,
        (m - 1) * two_pow(d) < x < (m + 1) * two_pow(d),
        x % two_pow(d) != 0,
    ensures
        round_binary32(negative, x, e) == round_binary32(negative, m * two_pow(d), e),
{
    let p = two_pow(d) as int;
    let h = two_pow(d + 1) as int;
    assert(two_pow(d + 1) == 2 * two_pow(d));
    lemma_two_pow_pos(d);
    let y = m * two_pow(d);
    let f = (m - 1) / 2;
    assert(m == 2 * f + 1);
    assert((m - 1) * p == f * h) by (nonlinear_arith)
        requires
            m == 2 * f + 1,
            h == 2 * p,
    ;
    assert((m + 1) * p == f * h + h) by (nonlinear_arith)
        requires
            m == 2 * f + 1,
            h == 2 * p,
    ;
    assert(y as int == f * h + p) by (nonlinear_arith)
        requires
            m == 2 * f + 1,
            h == 2 * p,
            y == m * p,
    ;
    vstd::arithmetic::div_mod::lemma_fundamental_div_mod_converse(y as int, h, f as int, p);
    vstd::arithmetic::div_mod::lemma_fundamental_div_mod_converse(
        x as int,
        h,
        f as int,
        x - f * h,
    );
    // Both share the top bit.
    assert(m >= 1);
    lemma_top_bit_scale(m, d);
    let t = top_bit_of(y);
    lemma_top_bit(m);
    assert(top_bit_of(m) >= 52) by {
        if top_bit_of(m) < 52 {
            lemma_two_pow_monotone(top_bit_of(m) + 1, 52);
        }
    }
    assert(t >= d + 52);
    lemma_top_bit(y);
    let g = (t - d - 1) as nat;
    lemma_two_pow_adds(d + 1, g);
    assert(d + 1 + g == t);
    lemma_two_pow_adds(d + 1, g + 1);
    assert(d + 1 + (g + 1) == t + 1);
    lemma_two_pow_pos(g);
    lemma_two_pow_pos(d + 1);
    let pg = two_pow(g) as int;
    let pg1 = two_pow(g + 1) as int;
    assert(pg1 == 2 * pg);
    // f >= 2^g and f < 2^(g+1) follow from the bounds on y.
    assert(f as int >= pg) by {
        if (f as int) < pg {
            assert(f * h + p < pg * h) by (nonlinear_arith)
                requires
                    (f as int) < pg,
                    p < h,
                    f >= 0,
                    h > 0,
            ;
        }
    }
    assert((f as int) < pg1) by {
        if f as int >= pg1 {
            assert(f * h >= pg1 * h) by (nonlinear_arith)
                requires
                    f as int >= pg1,
                    h > 0,
            ;
        }
    }
    assert(two_pow(t) <= x) by {
        assert(pg * h <= f * h) by (nonlinear_arith)
            requires
                pg <= f as int,
                h > 0,
        ;
    }
    assert(x < two_pow(t + 1)) by {
        assert(two_pow(t + 1) as int == h * pg1);
        assert(f * h + h <= h * pg1) by (nonlinear_arith)
            requires
                (f as int) + 1 <= pg1,
                h > 0,
        ;
    }
    lemma_top_bit_unique(x, t);
    // Any rounding position at least two bits above 2^d agrees.
    assert forall|dd: int| dd >= d + 2 implies rne_shift(x, dd) == rne_shift(y, dd) by {
        let c = (dd - 1 - (d + 1)) as nat;
        lemma_two_pow_adds(d + 1, c);
        assert(d + 1 + c == (dd - 1) as nat);
        lemma_two_pow_pos(c);
        let hc = two_pow(c) as int;
        let half = two_pow((dd - 1) as nat) as int;
        assert(half == h * hc);
        vstd::arithmetic::div_mod::lemma_div_denominator(x as int, h, hc);
        vstd::arithmetic::div_mod::lemma_div_denominator(y as int, h, hc);
        if x as int % half == 0 {
            lemma_two_pow_adds(d, (c + 1) as nat);
            assert(d + (c + 1) == (dd - 1) as nat);
            lemma_two_pow_pos((c + 1) as nat);
            lemma_mod_zero_factor(x as int, p, two_pow((c + 1) as nat) as int);
        }
        if y as int % half == 0 {
            lemma_mod_zero_factor(y as int, h, hc);
        }
        lemma_rne_agree(x, y, dd);
    }
    let u = e + t;
    if -126 <= u <= 127 {
        assert(rne_shift(x, t - 23) == rne_shift(y, t - 23));
    } else if u < -126 {
        assert(rne_shift(x, -149 - e) == rne_shift(y, -149 - e));
    }
}

/// The truncated quotient with its sticky bit: odd, and within one unit of
/// the exact quotient, whenever the division is inexact.
pub proof fn lemma_jam_bracket(ms: nat, d: nat)
    requires
        d >= 1,
        ms % two_pow(d) != 0,
    ensures
        jam_shift(ms, d as int) % 2 == 1,
        (jam_shift(ms, d as int) - 1) * two_pow(d) < ms < (jam_shift(ms, d as int) + 1) * two_pow(d),
{
    let p = two_pow(d) as int;
    lemma_two_pow_pos(d);
    let q = ms as int / p;
    let r = ms as int % p;
    vstd::arithmetic::div_mod::lemma_fundamental_div_mod(ms as int, p);
    vstd::arithmetic::div_mod::lemma_mod_pos_bound(ms as int, p);
    vstd::arithmetic::div_mod::lemma_div_pos_is_pos(ms as int, p);
    let j = jam_shift(ms, d as int) as int;
    assert(ms as int == p * q + r);
    if q % 2 == 0 {
        assert(j == q + 1);
        assert((j - 1) * p == p * q) by (nonlinear_arith)
            requires
                j == q + 1,
        ;
        assert(p * q + r < (j + 1) * p) by (nonlinear_arith)
            requires
                j == q + 1,
                r < p,
                p > 0,
        ;
    } else {
        assert(j == q);
        assert((j - 1) * p < p * q) by (nonlinear_arith)
            requires
                j == q,
                p > 0,
        ;
        assert(p * q + r < (j + 1) * p) by (nonlinear_arith)
            requires
                j == q,
                r < p,
                p > 0,
        ;
    }
}

/// An exact quotient keeps no sticky bit.
pub proof fn lemma_jam_exact(ms: nat, d: nat)
    requires
        d >= 1,
        ms % two_pow(d) == 0,
    ensures
        jam_shift(ms, d as int) * two_pow(d) == ms,
{
    let p = two_pow(d) as int;
    lemma_two_pow_pos(d);
    vstd::arithmetic::div_mod::lemma_fundamental_div_mod(ms as int, p);
    let q = ms as int / p;
    assert(ms as int == p * q);
    assert(jam_shift(ms, d as int) == q);
    assert(q * p == p * q) by (nonlinear_arith);
}

pub open spec fn signed(negative: bool, magnitude: int) -> int {
    if negative {
        -magnitude
    } else {
        magnitude
    }
}

pub open spec fn abs_of(v: int) -> int {
    if v < 0 {
        -v
    } else {
        v
    }
}

/// The aligned sum `v`, in units of `2^d` above those of the exact sum `s`,
/// is exact up to that power of two, or else odd, of the same sign, and
/// within one unit of it.
#[verifier::opaque]
pub open spec fn aligned_matches_exact(v: int, s: int, d: int) -> bool {
    &&& d <= 0 ==> v == s * two_pow((-d) as nat)
    &&& d > 0 && abs_of(s) % two_pow(d as nat) as int == 0 ==> v * two_pow(d as nat) == s
    &&& d > 0 && abs_of(s) % two_pow(d as nat) as int != 0 ==> {
        &&& v != 0
        &&& (v < 0) == (s < 0)
        &&& abs_of(v) % 2 == 1
        &&& (abs_of(v) - 1) * two_pow(d as nat) < abs_of(s) < (abs_of(v) + 1) * two_pow(d as nat)
    }
}

/// Two terms of an exact sum aligned to `2^target`: the term with the higher
/// leading bit lands exactly, at least 53 bits up, while the other may be
/// truncated with a sticky bit. Against the exact sum counted in units of
/// the lower term exponent, the aligned sum is exact up to a power of two,
/// or else odd, of the same sign, and within one unit of it.
pub proof fn lemma_sum_alignment(
    bneg: bool,
    mb: nat,
    eb: int,
    sneg: bool,
    ms: nat,
    es: int,
    target: int,
)
    requires
        mb >= 1,
        eb - target >= 53,
        mb * two_pow((eb - target) as nat) >= two_pow(100),
        ms < two_pow(48),
    ensures
        ({
            let bs = mb * two_pow((eb - target) as nat);
            let ss = jam_shift(ms, target - es);
            let v = signed(bneg, bs as int) + signed(sneg, ss as int);
            let e = if eb <= es {
                eb
            } else {
                es
            };
            let d = target - e;
            let s = signed(bneg, (mb * two_pow((eb - e) as nat)) as int) + signed(
                sneg,
                (ms * two_pow((es - e) as nat)) as int,
            );
            aligned_matches_exact(v, s, d)
        }),
{
    let bs = mb * two_pow((eb - target) as nat);
    let ss = jam_shift(ms, target - es);
    let v = signed(bneg, bs as int) + signed(sneg, ss as int);
    let e = if eb <= es {
        eb
    } else {
        es
    };
    let d = target - e;
    let s = signed(bneg, (mb * two_pow((eb - e) as nat)) as int) + signed(
        sneg,
        (ms * two_pow((es - e) as nat)) as int,
    );
    reveal(aligned_matches_exact);
    if es >= target {
        // Both terms land exactly.
        let k = (e - target) as nat;
        lemma_two_pow_adds((eb - e) as nat, k);
        lemma_two_pow_adds((es - e) as nat, k);
        assert((eb - e) as nat + k == (eb - target) as nat);
        assert((es - e) as nat + k == (es - target) as nat);
        assert(ss == ms * two_pow((es - target) as nat));
        let pk = two_pow(k) as int;
        let b1 = (mb * two_pow((eb - e) as nat)) as int;
        let s1 = (ms * two_pow((es - e) as nat)) as int;
        assert(bs as int == b1 * pk) by (nonlinear_arith)
            requires
                bs == mb * two_pow((eb - target) as nat),
                two_pow((eb - target) as nat) == two_pow((eb - e) as nat) * two_pow(k),
                b1 == mb * two_pow((eb - e) as nat),
                pk == two_pow(k),
        ;
        assert(ss as int == s1 * pk) by (nonlinear_arith)
            requires
                ss == ms * two_pow((es - target) as nat),
                two_pow((es - target) as nat) == two_pow((es - e) as nat) * two_pow(k),
                s1 == ms * two_pow((es - e) as nat),
                pk == two_pow(k),
        ;
        assert(v == s * pk) by (nonlinear_arith)
            requires
                v == signed(bneg, bs as int) + signed(sneg, ss as int),
                s == signed(bneg, b1) + signed(sneg, s1),
                bs as int == b1 * pk,
                ss as int == s1 * pk,
        ;
    } else {
        // The lower term is truncated to the target.
        assert(e == es);
        let dn = d as nat;
        assert(d >= 1);
        let p = two_pow(dn) as int;
        lemma_two_pow_pos(dn);
        lemma_two_pow_adds((eb - target) as nat, dn);
        assert((eb - target) as nat + dn == (eb - e) as nat);
        let big = (mb * two_pow((eb - e) as nat)) as int;
        assert(big == bs * p) by (nonlinear_arith)
            requires
                big == mb * two_pow((eb - e) as nat),
                two_pow((eb - e) as nat) == two_pow((eb - target) as nat) * two_pow(dn),
                bs == mb * two_pow((eb - target) as nat),
                p == two_pow(dn),
        ;
        let z = (es - e) as nat;
        assert(z == 0);
        assert(two_pow(z) == 1);
        assert(ms * two_pow(z) == ms) by (nonlinear_arith)
            requires
                two_pow(z) == 1,
        ;
        assert(s == signed(bneg, bs * p) + signed(sneg, ms as int));
        if ms % two_pow(dn) == 0 {
            lemma_jam_exact(ms, dn);
            assert(v * p == s) by (nonlinear_arith)
                requires
                    v == signed(bneg, bs as int) + signed(sneg, ss as int),
                    s == signed(bneg, bs * p) + signed(sneg, ms as int),
                    ss * p == ms,
            ;
            assert(abs_of(s) == abs_of(v) * p) by (nonlinear_arith)
                requires
                    v * p == s,
                    p > 0,
            ;
            vstd::arithmetic::div_mod::lemma_mod_multiples_basic(abs_of(v), p);
        } else {
            lemma_jam_bracket(ms, dn);
            let j = ss as int;
            // The truncated term is tiny beside the aligned one.
            vstd::arithmetic::div_mod::lemma_div_is_ordered(ms as int, two_pow(48) as int, p);
            assert(two_pow(48) as int / p <= two_pow(48)) by {
                vstd::arithmetic::div_mod::lemma_div_is_ordered_by_denominator(
                    two_pow(48) as int,
                    1,
                    p,
                );
            }
            assert(j <= two_pow(48) + 1);
            lemma_two_pow_monotone(49, 100);
            assert(two_pow(49) == 2 * two_pow(48));
            // The aligned term is even.
            let z = (eb - target - 1) as nat;
            lemma_two_pow_adds(1, z);
            assert(1 + z == (eb - target) as nat);
            assert(bs as int == 2 * (mb * two_pow(z))) by (nonlinear_arith)
                requires
                    bs == mb * two_pow((eb - target) as nat),
                    two_pow((eb - target) as nat) == two_pow(1) * two_pow(z),
                    two_pow(1) == 2,
            ;
            let w = (mb * two_pow(z)) as int;
            if bneg == sneg {
                assert(abs_of(v) == bs + j);
                assert(abs_of(s) == bs * p + ms);
                assert((bs + j - 1) * p < bs * p + ms < (bs + j + 1) * p) by (nonlinear_arith)
                    requires
                        (j - 1) * p < ms < (j + 1) * p,
                ;
                assert((bs + j) % 2 == 1) by (nonlinear_arith)
                    requires
                        bs as int == 2 * w,
                        j % 2 == 1,
                ;
                if abs_of(s) % p == 0 {
                    vstd::arithmetic::div_mod::lemma_fundamental_div_mod(abs_of(s), p);
                    let k = abs_of(s) / p;
                    assert(ms as int == (k - bs) * p) by (nonlinear_arith)
                        requires
                            abs_of(s) == bs * p + ms,
                            abs_of(s) == p * k,
                    ;
                    assert(k - bs >= 0) by (nonlinear_arith)
                        requires
                            ms as int == (k - bs) * p,
                            p > 0,
                    ;
                    vstd::arithmetic::div_mod::lemma_mod_multiples_basic(k - bs, p);
                }
            } else {
                assert(abs_of(v) == bs - j);
                assert(bs * p > ms) by (nonlinear_arith)
                    requires
                        bs >= two_pow(100),
                        two_pow(100) >= two_pow(49),
                        two_pow(49) == 2 * two_pow(48),
                        ms < two_pow(48),
                        p >= 1,
                ;
                assert(abs_of(s) == bs * p - ms);
                assert((bs - j - 1) * p < bs * p - ms < (bs - j + 1) * p) by (nonlinear_arith)
                    requires
                        (j - 1) * p < ms < (j + 1) * p,
                ;
                assert((bs - j) % 2 == 1) by (nonlinear_arith)
                    requires
                        bs as int == 2 * w,
                        j % 2 == 1,
                ;
                if abs_of(s) % p == 0 {
                    vstd::arithmetic::div_mod::lemma_fundamental_div_mod(abs_of(s), p);
                    let k = abs_of(s) / p;
                    assert(ms as int == (bs - k) * p) by (nonlinear_arith)
                        requires
                            abs_of(s) == bs * p - ms,
                            abs_of(s) == p * k,
                    ;
                    assert(bs - k >= 0) by (nonlinear_arith)
                        requires
                            ms as int == (bs - k) * p,
                            p > 0,
                    ;
                    vstd::arithmetic::div_mod::lemma_mod_multiples_basic(bs - k, p);
                }
            }
        }
    }
}

} // verus!
