//! Exact powers of two and outward division by them.
use vstd::prelude::*;

verus! {

/// `2^n` as a natural number.
pub open spec fn two_pow(n: nat) -> nat
    decreases n,
{
    if n == 0 {
        1
    } else {
        2 * two_pow((n - 1) as nat)
    }
}

/// `floor(v / d)` for a positive divisor.
pub open spec fn floor_div(v: int, d: int) -> int {
    v / d
}

/// `ceil(v / d)` for a positive divisor.
pub open spec fn ceil_div(v: int, d: int) -> int {
    -((-v) / d)
}

/// `v * 2^shift` rounded down to an integer (exact for a nonnegative shift).
pub open spec fn scaled_floor(v: int, shift: int) -> int {
    if shift >= 0 {
        v * two_pow(shift as nat)
    } else {
        floor_div(v, two_pow((-shift) as nat) as int)
    }
}

/// `v * 2^shift` rounded up to an integer (exact for a nonnegative shift).
pub open spec fn scaled_ceil(v: int, shift: int) -> int {
    if shift >= 0 {
        v * two_pow(shift as nat)
    } else {
        ceil_div(v, two_pow((-shift) as nat) as int)
    }
}

pub proof fn lemma_two_pow_pos(n: nat)
    ensures
        two_pow(n) >= 1,
    decreases n,
{
    if n > 0 {
        lemma_two_pow_pos((n - 1) as nat);
    }
}

pub proof fn lemma_two_pow_monotone(a: nat, b: nat)
    requires
        a <= b,
    ensures
        two_pow(a) <= two_pow(b),
    decreases b,
{
    if a < b {
        lemma_two_pow_monotone(a, (b - 1) as nat);
        lemma_two_pow_pos((b - 1) as nat);
    }
}

pub proof fn lemma_two_pow_adds(a: nat, b: nat)
    ensures
        two_pow(a + b) == two_pow(a) * two_pow(b),
    decreases b,
{
    if b > 0 {
        let b1 = (b - 1) as nat;
        lemma_two_pow_adds(a, b1);
        assert(a + b == (a + b1) + 1);
        assert(two_pow(a + b) == 2 * two_pow(a + b1));
        assert(two_pow(b) == 2 * two_pow(b1));
        let x = two_pow(a);
        let y = two_pow(b1);
        assert(x * (2 * y) == 2 * (x * y)) by (nonlinear_arith);
    } else {
        assert(a + b == a);
        assert(two_pow(b) == 1);
    }
}

pub proof fn lemma_two_pow_values()
    ensures
        two_pow(0) == 1,
        two_pow(1) == 2,
        two_pow(8) == 256,
        two_pow(16) == 65536,
        two_pow(23) == 0x80_0000,
        two_pow(24) == 0x100_0000,
        two_pow(30) == 0x4000_0000,
        two_pow(31) == 0x8000_0000,
        two_pow(32) == 0x1_0000_0000,
        two_pow(41) == 0x200_0000_0000,
        two_pow(63) == 0x8000_0000_0000_0000,
        two_pow(64) == 0x1_0000_0000_0000_0000,
{
    reveal_with_fuel(two_pow, 65);
}

/// Returns `2^bits` exactly.
pub fn two_pow_i128(bits: u32) -> (r: i128)
    requires
        bits <= 125,
    ensures
        r == two_pow(bits as nat),
{
    let mut r: i128 = 1;
    let mut i: u32 = 0;
    while i < bits
        invariant
            i <= bits <= 125,
            r == two_pow(i as nat),
        decreases bits - i,
    {
        proof {
            lemma_two_pow_monotone(i as nat, 125);
            reveal_with_fuel(two_pow, 2);
            assert(two_pow(125) < 0x4000_0000_0000_0000_0000_0000_0000_0000) by {
                lemma_two_pow_adds(64, 61);
                lemma_two_pow_adds(61, 2);
                lemma_two_pow_values();
                lemma_two_pow_monotone(61, 63);
            }
        }
        r = r * 2;
        i = i + 1;
    }
    r
}

/// `floor(v / d)` computed on magnitudes.
pub fn floor_div_i128(v: i128, d: i128) -> (r: i128)
    requires
        0 < d <= 0x1_0000_0000_0000_0000,
        i64::MIN <= v <= i64::MAX,
    ensures
        r == floor_div(v as int, d as int),
        v >= 0 ==> 0 <= r <= v,
        v < 0 ==> v <= r < 0,
{
    if v >= 0 {
        let q = v / d;
        proof {
            let vi = v as int;
            let di = d as int;
            assert(0 <= vi / di <= vi) by (nonlinear_arith)
                requires
                    vi >= 0,
                    di >= 1,
            ;
        }
        q
    } else {
        let n: i128 = -v;
        let q = (n + d - 1) / d;
        proof {
            let vi = v as int;
            let di = d as int;
            let ni = n as int;
            let qi = q as int;
            assert(qi == (ni + di - 1) / di);
            assert(vi / di == -qi && 1 <= qi <= ni) by (nonlinear_arith)
                requires
                    qi == (ni + di - 1) / di,
                    ni == -vi,
                    ni >= 1,
                    di >= 1,
            ;
        }
        -q
    }
}

/// `floor(v / 2^bits)` for any shift.
pub fn floor_div_pow2(v: i128, bits: u32) -> (r: i128)
    requires
        i64::MIN <= v <= i64::MAX,
    ensures
        r == floor_div(v as int, two_pow(bits as nat) as int),
        v >= 0 ==> 0 <= r <= v,
        v < 0 ==> v <= r < 0,
{
    if bits >= 64 {
        proof {
            lemma_two_pow_values();
            lemma_two_pow_monotone(64, bits as nat);
            let p = two_pow(bits as nat) as int;
            let vi = v as int;
            if v < 0 {
                assert(vi / p == -1) by (nonlinear_arith)
                    requires
                        -p <= vi < 0,
                ;
            } else {
                assert(vi / p == 0) by (nonlinear_arith)
                    requires
                        0 <= vi < p,
                ;
            }
        }
        if v < 0 {
            -1
        } else {
            0
        }
    } else {
        let p = two_pow_i128(bits);
        proof {
            lemma_two_pow_pos(bits as nat);
            lemma_two_pow_values();
            lemma_two_pow_monotone(bits as nat, 64);
        }
        floor_div_i128(v, p)
    }
}

/// `ceil(v / 2^bits)` for any shift.
pub fn ceil_div_pow2(v: i128, bits: u32) -> (r: i128)
    requires
        i64::MIN < v <= i64::MAX,
    ensures
        r == ceil_div(v as int, two_pow(bits as nat) as int),
        v > 0 ==> 0 < r <= v,
        v <= 0 ==> v <= r <= 0,
{
    let f = floor_div_pow2(-v, bits);
    -f
}

/// Multiplies by `2^shift` (or divides with the requested rounding when the
/// shift is negative). Fails with `None` only when the exact result lies
/// outside the `i32` range.
pub fn scale_by_pow2(v: i128, shift: i32, upward: bool) -> (r: Option<i128>)
    requires
        i64::MIN < v <= i64::MAX,
    ensures
        match r {
            Some(x) => x == (if upward {
                scaled_ceil(v as int, shift as int)
            } else {
                scaled_floor(v as int, shift as int)
            }),
            None => {
                let x = if upward {
                    scaled_ceil(v as int, shift as int)
                } else {
                    scaled_floor(v as int, shift as int)
                };
                x < i32::MIN || x > i32::MAX
            },
        },
        r matches Some(x) ==> -0x1_0000_0000_0000_0000_0000_0000_0000 <= x
            <= 0x1_0000_0000_0000_0000_0000_0000_0000,
{
    if shift >= 0 {
        if v == 0 {
            proof {
                assert(0 * two_pow(shift as nat) == 0);
            }
            Some(0)
        } else if shift > 40 {
            proof {
                lemma_two_pow_values();
                lemma_two_pow_monotone(41, shift as nat);
                let p = two_pow(shift as nat) as int;
                let vi = v as int;
                assert(vi * p >= p || vi * p <= -p) by (nonlinear_arith)
                    requires
                        vi != 0,
                        p >= 1,
                ;
            }
            None
        } else {
            let p = two_pow_i128(shift as u32);
            proof {
                lemma_two_pow_pos(shift as nat);
                lemma_two_pow_values();
                lemma_two_pow_monotone(shift as nat, 41);
                assert(-0x8000_0000_0000_0000 * 0x200_0000_0000 <= v * p <= 0x8000_0000_0000_0000
                    * 0x200_0000_0000) by (nonlinear_arith)
                    requires
                        -0x8000_0000_0000_0000 <= v <= 0x8000_0000_0000_0000,
                        1 <= p <= 0x200_0000_0000,
                ;
            }
            Some(v * p)
        }
    } else {
        let bits = (-(shift as i64)) as u32;
        if upward {
            Some(ceil_div_pow2(v, bits))
        } else {
            Some(floor_div_pow2(v, bits))
        }
    }
}

/// Position of the highest set bit.
pub open spec fn top_bit_of(v: nat) -> nat
    decreases v,
{
    if v < 2 {
        0
    } else {
        1 + top_bit_of(v / 2)
    }
}

pub proof fn lemma_top_bit(v: nat)
    requires
        v >= 1,
    ensures
        two_pow(top_bit_of(v)) <= v < two_pow(top_bit_of(v) + 1),
    decreases v,
{
    if v >= 2 {
        lemma_top_bit(v / 2);
        let t = top_bit_of(v / 2);
        assert(two_pow(t + 1) == 2 * two_pow(t));
        assert(two_pow(t + 2) == 2 * two_pow(t + 1));
    } else {
        assert(two_pow(1) == 2 * two_pow(0));
    }
}

} // verus!
