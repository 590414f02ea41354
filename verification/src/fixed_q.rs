//! Certified scalar integer quadratic recurrence for inverse depth.
use vstd::prelude::*;
use crate::iv32::{FixedDomain, Iv32, NumericError, abs_int, max_int};
use crate::dyadic::{
    two_pow, two_pow_i128, top_bit_of, lemma_top_bit, lemma_two_pow_pos, lemma_two_pow_monotone,
    lemma_two_pow_adds, lemma_two_pow_values,
};

verus! {

#[derive(Clone, Copy, Debug, PartialEq, Eq, Structural)]
pub struct QRunScalar {
    pub q: i32,
    pub dq: i32,
    pub ddq: i32,
    pub domain: FixedDomain,
    pub error_radius: i32,
    pub microtile_width: u8,
    pub step: u8,
}

#[derive(Clone, Copy, Debug, PartialEq, Eq, Structural)]
pub struct SelectedDomain {
    pub domain: FixedDomain,
    pub maximum_raw: i32,
}

#[derive(Clone, Copy, Debug, PartialEq, Eq, Structural)]
pub struct SealedSetup {
    pub run: QRunScalar,
    pub maximum_raw: i32,
}

/// `0 + 1 + ... + (n - 1)`.
pub open spec fn triangular(n: nat) -> int
    decreases n,
{
    if n == 0 {
        0
    } else {
        triangular((n - 1) as nat) + (n - 1)
    }
}

/// Value of the recurrence after `n` steps: `q0 + n d1 + T(n) d2`.
pub open spec fn q_after(q0: int, d1: int, d2: int, n: nat) -> int {
    q0 + n * d1 + triangular(n) * d2
}

/// First difference after `n` steps: `d1 + n d2`.
pub open spec fn dq_after(d1: int, d2: int, n: nat) -> int {
    d1 + n * d2
}

/// Every step `1..=width` from one corner stays inside the domain.
pub open spec fn corner_fits(q0: int, d1: int, d2: int, width: int, domain: FixedDomain) -> bool {
    forall|n: nat|
        1 <= n <= width ==> domain.holds(#[trigger] q_after(q0, d1, d2, n)) && domain.holds(
            dq_after(d1, d2, n),
        )
}

/// All eight endpoint corners of the coefficient box fit for `width` steps.
pub open spec fn recurrence_fits_spec(
    q: Iv32,
    dq: Iv32,
    ddq: Iv32,
    width: int,
    domain: FixedDomain,
) -> bool {
    &&& corner_fits(q.lo as int, dq.lo as int, ddq.lo as int, width, domain)
    &&& corner_fits(q.lo as int, dq.lo as int, ddq.hi as int, width, domain)
    &&& corner_fits(q.lo as int, dq.hi as int, ddq.lo as int, width, domain)
    &&& corner_fits(q.lo as int, dq.hi as int, ddq.hi as int, width, domain)
    &&& corner_fits(q.hi as int, dq.lo as int, ddq.lo as int, width, domain)
    &&& corner_fits(q.hi as int, dq.lo as int, ddq.hi as int, width, domain)
    &&& corner_fits(q.hi as int, dq.hi as int, ddq.lo as int, width, domain)
    &&& corner_fits(q.hi as int, dq.hi as int, ddq.hi as int, width, domain)
}

/// Largest power of two not above `min(requested, 32)`.
pub open spec fn initial_width(requested: int) -> int {
    if requested >= 32 {
        32
    } else if requested >= 16 {
        16
    } else if requested >= 8 {
        8
    } else if requested >= 4 {
        4
    } else if requested >= 2 {
        2
    } else {
        1
    }
}

/// Halve `width` until the recurrence fits; zero when even one step fails.
pub open spec fn fitting_width(q: Iv32, dq: Iv32, ddq: Iv32, width: nat, domain: FixedDomain) -> nat
    decreases width,
{
    if width == 0 {
        0
    } else if recurrence_fits_spec(q, dq, ddq, width as int, domain) {
        width
    } else {
        fitting_width(q, dq, ddq, width / 2, domain)
    }
}

pub open spec fn center(c: Iv32) -> int {
    c.lo + (c.hi - c.lo) / 2
}

pub open spec fn half_width(c: Iv32) -> int {
    (c.hi - c.lo + 1) / 2
}

/// Radius covering the coefficient boxes over `width` steps plus the model error.
pub open spec fn run_radius(q: Iv32, dq: Iv32, ddq: Iv32, width: int, model_error_radius: int) -> int {
    half_width(q) + half_width(dq) * width + half_width(ddq) * triangular(width as nat)
        + model_error_radius
}

impl QRunScalar {
    /// Steps taken since the last anchor.
    pub open spec fn steps_taken(self) -> u8 {
        self.step
    }

    pub open spec fn with_state(self, q: i32, dq: i32, step: u8) -> QRunScalar {
        QRunScalar { q, dq, step, ..self }
    }

    pub open spec fn spec_setup(
        q: Iv32,
        dq: Iv32,
        ddq: Iv32,
        domain: FixedDomain,
        requested_width: u8,
        model_error_radius: i32,
    ) -> Result<(int, int), NumericError> {
        match domain.check() {
            Err(e) => Err(e),
            Ok(_) => if model_error_radius < 0 || requested_width == 0 {
                Err(NumericError::InvalidDomain)
            } else {
                match q.spec_intersect(q, domain) {
                    Err(e) => Err(e),
                    Ok(_) => match dq.spec_intersect(dq, domain) {
                        Err(e) => Err(e),
                        Ok(_) => match ddq.spec_intersect(ddq, domain) {
                            Err(e) => Err(e),
                            Ok(_) => {
                                let width = fitting_width(
                                    q,
                                    dq,
                                    ddq,
                                    initial_width(requested_width as int) as nat,
                                    domain,
                                );
                                let radius = run_radius(
                                    q,
                                    dq,
                                    ddq,
                                    width as int,
                                    model_error_radius as int,
                                );
                                if width == 0 || half_width(q) > i32::MAX || half_width(dq)
                                    > i32::MAX || half_width(ddq) > i32::MAX || radius
                                    > i32::MAX {
                                    Err(NumericError::Overflow)
                                } else {
                                    Ok((width as int, radius))
                                }
                            },
                        },
                    },
                }
            },
        }
    }
}

proof fn lemma_triangular_closed(n: nat)
    ensures
        2 * triangular(n) == n * (n - 1),
        triangular(n) >= 0,
    decreases n,
{
    if n > 0 {
        lemma_triangular_closed((n - 1) as nat);
        assert(n * (n - 1) == (n - 1) * (n - 2) + 2 * (n - 1)) by (nonlinear_arith);
    }
}

/// The closed form obeys the recurrence: one step from step `k` reaches the
/// closed form at step `k + 1`, so stepping from an anchor and re-anchoring
/// at the same step agree bit for bit.
pub proof fn lemma_step(q0: int, d1: int, d2: int, k: nat)
    ensures
        q_after(q0, d1, d2, k + 1) == q_after(q0, d1, d2, k) + dq_after(d1, d2, k),
        dq_after(d1, d2, k + 1) == dq_after(d1, d2, k) + d2,
{
    assert(triangular(k + 1) == triangular(k) + k);
    assert((k + 1) * d1 == k * d1 + d1) by (nonlinear_arith);
    assert((triangular(k) + k) * d2 == triangular(k) * d2 + k * d2) by (nonlinear_arith);
    assert((k + 1) * d2 == k * d2 + d2) by (nonlinear_arith);
}

/// The recurrence state `(q, dq)` after `n` successful `advance` steps from
/// `(q0, d1)` with second difference `d2`: each step adds `dq` to `q` and
/// `d2` to `dq`.
pub open spec fn stepped(q0: int, d1: int, d2: int, n: nat) -> (int, int)
    decreases n,
{
    if n == 0 {
        (q0, d1)
    } else {
        let (q, dq) = stepped(q0, d1, d2, (n - 1) as nat);
        (q + dq, dq + d2)
    }
}

/// Any number of recurrence steps reaches the closed form: after `n` steps
/// the value is `q0 + n d1 + T(n) d2` and the difference `d1 + n d2`, so
/// stepping `n` times and re-anchoring at step `n` agree.
pub proof fn steps_reach_closed_form(q0: int, d1: int, d2: int, n: nat)
    ensures
        stepped(q0, d1, d2, n) == (q_after(q0, d1, d2, n), dq_after(d1, d2, n)),
    decreases n,
{
    if n == 0 {
        assert(triangular(0) == 0);
        assert(0 * d1 == 0 && 0 * d2 == 0) by (nonlinear_arith);
    } else {
        steps_reach_closed_form(q0, d1, d2, (n - 1) as nat);
        lemma_step(q0, d1, d2, (n - 1) as nat);
    }
}

proof fn lemma_fitting_width_fits(q: Iv32, dq: Iv32, ddq: Iv32, width: nat, domain: FixedDomain)
    ensures
        fitting_width(q, dq, ddq, width, domain) <= width,
        fitting_width(q, dq, ddq, width, domain) > 0 ==> recurrence_fits_spec(
            q,
            dq,
            ddq,
            fitting_width(q, dq, ddq, width, domain) as int,
            domain,
        ),
    decreases width,
{
    if width > 0 && !recurrence_fits_spec(q, dq, ddq, width as int, domain) {
        lemma_fitting_width_fits(q, dq, ddq, width / 2, domain);
    }
}

/// The recurrence from the centre of a coefficient box stays between the
/// recurrences from the box's lowest and highest corners.
proof fn lemma_centre_between(q: Iv32, dq: Iv32, ddq: Iv32, n: nat)
    requires
        q.lo <= q.hi,
        dq.lo <= dq.hi,
        ddq.lo <= ddq.hi,
    ensures
        q_after(q.lo as int, dq.lo as int, ddq.lo as int, n) <= q_after(center(q), center(dq), center(ddq), n)
            <= q_after(q.hi as int, dq.hi as int, ddq.hi as int, n),
        dq_after(dq.lo as int, ddq.lo as int, n) <= dq_after(center(dq), center(ddq), n) <= dq_after(
            dq.hi as int,
            ddq.hi as int,
            n,
        ),
{
    lemma_triangular_closed(n);
    let t = triangular(n);
    let (cq, cd, ce) = (center(q), center(dq), center(ddq));
    assert(q.lo <= cq <= q.hi && dq.lo <= cd <= dq.hi && ddq.lo <= ce <= ddq.hi);
    assert(n * dq.lo <= n * cd <= n * dq.hi) by (nonlinear_arith)
        requires
            dq.lo <= cd <= dq.hi,
            n >= 0,
    ;
    assert(n * ddq.lo <= n * ce <= n * ddq.hi) by (nonlinear_arith)
        requires
            ddq.lo <= ce <= ddq.hi,
            n >= 0,
    ;
    assert(t * ddq.lo <= t * ce <= t * ddq.hi) by (nonlinear_arith)
        requires
            ddq.lo <= ce <= ddq.hi,
            t >= 0,
    ;
}

/// A run that `setup` accepts stays in the domain at every step of its
/// microtile: from the centred coefficients, the value and the first
/// difference after each of steps `1..=width` lie in the domain, so every
/// `advance` within the microtile succeeds with the closed form.
pub proof fn set_up_run_stays_in_domain(
    q: Iv32,
    dq: Iv32,
    ddq: Iv32,
    domain: FixedDomain,
    requested_width: u8,
    model_error_radius: i32,
    n: nat,
)
    requires
        QRunScalar::spec_setup(q, dq, ddq, domain, requested_width, model_error_radius) is Ok,
        1 <= n <= QRunScalar::spec_setup(q, dq, ddq, domain, requested_width, model_error_radius)->Ok_0.0,
    ensures
        domain.holds(q_after(center(q), center(dq), center(ddq), n)),
        domain.holds(dq_after(center(dq), center(ddq), n)),
        fits_i32(q_after(center(q), center(dq), center(ddq), n)),
        fits_i32(dq_after(center(dq), center(ddq), n)),
{
    let w = fitting_width(q, dq, ddq, initial_width(requested_width as int) as nat, domain);
    lemma_fitting_width_fits(q, dq, ddq, initial_width(requested_width as int) as nat, domain);
    assert(recurrence_fits_spec(q, dq, ddq, w as int, domain));
    assert(corner_fits(q.lo as int, dq.lo as int, ddq.lo as int, w as int, domain));
    assert(corner_fits(q.hi as int, dq.hi as int, ddq.hi as int, w as int, domain));
    assert(domain.holds(q_after(q.lo as int, dq.lo as int, ddq.lo as int, n)));
    assert(domain.holds(q_after(q.hi as int, dq.hi as int, ddq.hi as int, n)));
    lemma_centre_between(q, dq, ddq, n);
}

/// Re-anchoring a run that `setup` accepts at any step `0..=width` of its
/// microtile meets every check `reset_at` makes, so it succeeds with the
/// closed form, which is where that many `advance` steps lead.
pub proof fn set_up_run_resets_within_microtile(
    q: Iv32,
    dq: Iv32,
    ddq: Iv32,
    domain: FixedDomain,
    requested_width: u8,
    model_error_radius: i32,
    steps: nat,
)
    requires
        QRunScalar::spec_setup(q, dq, ddq, domain, requested_width, model_error_radius) is Ok,
        steps <= QRunScalar::spec_setup(q, dq, ddq, domain, requested_width, model_error_radius)->Ok_0.0,
    ensures
        ({
            let (cq, cd, ce) = (center(q), center(dq), center(ddq));
            let n = steps as int;
            let value = q_after(cq, cd, ce, steps);
            let difference = dq_after(cd, ce, steps);
            &&& fits_i64(n * (n - 1)) && fits_i64(n * cd) && fits_i64(cq + n * cd)
            &&& fits_i64(triangular(steps) * ce) && fits_i64(value) && fits_i64(n * ce)
            &&& fits_i64(difference)
            &&& fits_i32(value) && fits_i32(difference)
            &&& domain.holds(value) && domain.holds(difference)
            &&& stepped(cq, cd, ce, steps) == (value, difference)
        }),
{
    let (cq, cd, ce) = (center(q), center(dq), center(ddq));
    let w = fitting_width(q, dq, ddq, initial_width(requested_width as int) as nat, domain);
    lemma_fitting_width_fits(q, dq, ddq, initial_width(requested_width as int) as nat, domain);
    assert(w <= 32);
    let n = steps as int;
    assert(q.lo <= cq <= q.hi && dq.lo <= cd <= dq.hi && ddq.lo <= ce <= ddq.hi);
    lemma_triangular_closed(steps);
    let t = triangular(steps);
    assert(0 <= n * (n - 1) <= 32 * 32 && -0x8000_0000 * 32 <= n * cd <= 0x8000_0000 * 32
        && -0x8000_0000 * 32 <= n * ce <= 0x8000_0000 * 32) by (nonlinear_arith)
        requires
            0 <= n <= 32,
            -0x8000_0000 <= cd < 0x8000_0000,
            -0x8000_0000 <= ce < 0x8000_0000,
    ;
    assert(-0x8000_0000 * 1024 <= t * ce <= 0x8000_0000 * 1024) by (nonlinear_arith)
        requires
            0 <= 2 * t <= 32 * 32,
            -0x8000_0000 <= ce < 0x8000_0000,
    ;
    if steps == 0 {
        assert(triangular(0) == 0);
        assert(0 * cd == 0 && 0 * ce == 0) by (nonlinear_arith);
    } else {
        set_up_run_stays_in_domain(q, dq, ddq, domain, requested_width, model_error_radius, steps);
    }
    steps_reach_closed_form(cq, cd, ce, steps);
}

fn corner_ok(q0: i32, d1: i32, d2: i32, width: u8, domain: FixedDomain) -> (r: bool)
    ensures
        r == corner_fits(q0 as int, d1 as int, d2 as int, width as int, domain),
{
    let mut q: i64 = q0 as i64;
    let mut dq: i64 = d1 as i64;
    let mut k: u8 = 0;
    while k < width
        invariant
            k <= width,
            q == q_after(q0 as int, d1 as int, d2 as int, k as nat),
            dq == dq_after(d1 as int, d2 as int, k as nat),
            i32::MIN <= q <= i32::MAX,
            i32::MIN <= dq <= i32::MAX,
            forall|n: nat|
                1 <= n <= k ==> domain.holds(#[trigger] q_after(q0 as int, d1 as int, d2 as int, n))
                    && domain.holds(dq_after(d1 as int, d2 as int, n)),
        decreases width - k,
    {
        proof {
            lemma_step(q0 as int, d1 as int, d2 as int, k as nat);
        }
        q = q + dq;
        dq = dq + d2 as i64;
        if q < domain.min_raw as i64 || q > domain.max_raw as i64 || dq < domain.min_raw as i64
            || dq > domain.max_raw as i64 {
            assert(!domain.holds(q_after(q0 as int, d1 as int, d2 as int, (k + 1) as nat))
                || !domain.holds(dq_after(d1 as int, d2 as int, (k + 1) as nat)));
            return false;
        }
        k = k + 1;
    }
    true
}

fn recurrence_fits(q: Iv32, dq: Iv32, ddq: Iv32, width: u8, domain: FixedDomain) -> (r: bool)
    ensures
        r == recurrence_fits_spec(q, dq, ddq, width as int, domain),
{
    corner_ok(q.lo, dq.lo, ddq.lo, width, domain) && corner_ok(q.lo, dq.lo, ddq.hi, width, domain)
        && corner_ok(q.lo, dq.hi, ddq.lo, width, domain) && corner_ok(
        q.lo,
        dq.hi,
        ddq.hi,
        width,
        domain,
    ) && corner_ok(q.hi, dq.lo, ddq.lo, width, domain) && corner_ok(
        q.hi,
        dq.lo,
        ddq.hi,
        width,
        domain,
    ) && corner_ok(q.hi, dq.hi, ddq.lo, width, domain) && corner_ok(
        q.hi,
        dq.hi,
        ddq.hi,
        width,
        domain,
    )
}

fn midpoint(interval: Iv32) -> (r: i32)
    requires
        interval.lo <= interval.hi,
    ensures
        r == center(interval),
        interval.lo <= r <= interval.hi,
{
    let width: i64 = interval.hi as i64 - interval.lo as i64;
    (interval.lo as i64 + width / 2) as i32
}

fn half_width_ceil(interval: Iv32) -> (r: Result<i32, NumericError>)
    requires
        interval.lo <= interval.hi,
    ensures
        half_width(interval) <= i32::MAX ==> r == Ok::<i32, NumericError>(
            half_width(interval) as i32,
        ),
        half_width(interval) > i32::MAX ==> r == Err::<i32, NumericError>(NumericError::Overflow),
        0 <= half_width(interval) <= 0x8000_0000,
{
    let width: u64 = (interval.hi as i64 - interval.lo as i64) as u64;
    let half: u64 = (width + 1) / 2;
    if half > i32::MAX as u64 {
        return Err(NumericError::Overflow);
    }
    Ok(half as i32)
}

/// Certifies the widest power-of-two microtile (at most 32 and at most the
/// request) over which every coefficient corner stays in the domain, and
/// seals the centered coefficients with their error radius.
#[verifier::rlimit(30)]
#[verifier::loop_isolation(false)]
pub fn setup(
    q: Iv32,
    dq: Iv32,
    ddq: Iv32,
    domain: FixedDomain,
    requested_width: u8,
    model_error_radius: i32,
) -> (r: Result<QRunScalar, NumericError>)
    ensures
        match QRunScalar::spec_setup(q, dq, ddq, domain, requested_width, model_error_radius) {
            Err(e) => r == Err::<QRunScalar, NumericError>(e),
            Ok((width, radius)) => r matches Ok(run) && run.q == center(q) && run.dq == center(dq)
                && run.ddq == center(ddq) && run.domain == domain && run.error_radius == radius
                && run.microtile_width == width && run.steps_taken() == 0,
        },
{
    domain.validate()?;
    if model_error_radius < 0 || requested_width == 0 {
        return Err(NumericError::InvalidDomain);
    }
    q.intersect(q, domain)?;
    dq.intersect(dq, domain)?;
    ddq.intersect(ddq, domain)?;
    let mut width: u8 = if requested_width >= 32 {
        32
    } else if requested_width >= 16 {
        16
    } else if requested_width >= 8 {
        8
    } else if requested_width >= 4 {
        4
    } else if requested_width >= 2 {
        2
    } else {
        1
    };
    loop
        invariant
            width <= 32,
            q.lo <= q.hi && dq.lo <= dq.hi && ddq.lo <= ddq.hi,
            fitting_width(q, dq, ddq, width as nat, domain) == fitting_width(
                q,
                dq,
                ddq,
                initial_width(requested_width as int) as nat,
                domain,
            ),
        decreases width,
    {
        if width == 0 {
            assert(fitting_width(q, dq, ddq, 0, domain) == 0);
            return Err(NumericError::Overflow);
        }
        if recurrence_fits(q, dq, ddq, width, domain) {
            assert(fitting_width(q, dq, ddq, width as nat, domain) == width as nat);
            let q_center = midpoint(q);
            let dq_center = midpoint(dq);
            let ddq_center = midpoint(ddq);
            let q_radius = half_width_ceil(q)?;
            let dq_radius = half_width_ceil(dq)?;
            let ddq_radius = half_width_ceil(ddq)?;
            proof {
                lemma_triangular_closed(width as nat);
                let w = width as int;
                assert(0 <= dq_radius * w <= 0x8000_0000 * 32) by (nonlinear_arith)
                    requires
                        0 <= dq_radius < 0x8000_0000,
                        0 <= w <= 32,
                ;
                assert(0 <= ddq_radius * w * (w - 1) <= 0x8000_0000 * 32 * 32 && 0 <= ddq_radius * w
                    <= 0x8000_0000 * 32) by (nonlinear_arith)
                    requires
                        0 <= ddq_radius < 0x8000_0000,
                        1 <= w <= 32,
                ;
                assert(ddq_radius * w * (w - 1) / 2 == ddq_radius * triangular(width as nat))
                    by (nonlinear_arith)
                    requires
                        2 * triangular(width as nat) == w * (w - 1),
                ;
            }
            let linear_radius: i64 = dq_radius as i64 * width as i64;
            let quadratic_radius: i64 = ddq_radius as i64 * width as i64 * (width as i64 - 1) / 2;
            let total: i64 = q_radius as i64 + linear_radius + quadratic_radius
                + model_error_radius as i64;
            if total > i32::MAX as i64 {
                return Err(NumericError::Overflow);
            }
            return Ok(
                QRunScalar {
                    q: q_center,
                    dq: dq_center,
                    ddq: ddq_center,
                    domain,
                    error_radius: total as i32,
                    microtile_width: width,
                    step: 0,
                },
            );
        }
        width = width / 2;
    }
}

pub open spec fn fits_i32(v: int) -> bool {
    i32::MIN <= v <= i32::MAX
}

impl QRunScalar {
    /// One recurrence step inside the current microtile.
    pub fn advance(&mut self) -> (r: Result<i32, NumericError>)
        ensures
            old(self).steps_taken() >= old(self).microtile_width ==> r == Err::<i32, NumericError>(
                NumericError::CapacityExceeded,
            ) && *final(self) == *old(self),
            old(self).steps_taken() < old(self).microtile_width && !(fits_i32(old(self).q
                + old(self).dq) && fits_i32(old(self).dq + old(self).ddq) && old(self).domain.holds(
                old(self).q + old(self).dq,
            ) && old(self).domain.holds(old(self).dq + old(self).ddq)) ==> r == Err::<
                i32,
                NumericError,
            >(NumericError::Overflow) && *final(self) == *old(self),
            old(self).steps_taken() < old(self).microtile_width && fits_i32(old(self).q
                + old(self).dq) && fits_i32(old(self).dq + old(self).ddq) && old(self).domain.holds(
                old(self).q + old(self).dq,
            ) && old(self).domain.holds(old(self).dq + old(self).ddq) ==> r == Ok::<
                i32,
                NumericError,
            >((old(self).q + old(self).dq) as i32) && *final(self) == old(self).with_state(
                (old(self).q + old(self).dq) as i32,
                (old(self).dq + old(self).ddq) as i32,
                (old(self).steps_taken() + 1) as u8,
            ),
    {
        if self.step >= self.microtile_width {
            return Err(NumericError::CapacityExceeded);
        }
        let q = match self.q.checked_add(self.dq) {
            Some(v) => v,
            None => return Err(NumericError::Overflow),
        };
        let dq = match self.dq.checked_add(self.ddq) {
            Some(v) => v,
            None => return Err(NumericError::Overflow),
        };
        if q < self.domain.min_raw || q > self.domain.max_raw || dq < self.domain.min_raw || dq
            > self.domain.max_raw {
            return Err(NumericError::Overflow);
        }
        self.q = q;
        self.dq = dq;
        self.step = self.step + 1;
        Ok(q)
    }

    /// Re-anchors the recurrence at absolute step `steps` from this anchor,
    /// with a fresh step counter.
    pub fn reset_at(self, steps: u32) -> (r: Result<Self, NumericError>)
        ensures
            ({
                let n = steps as int;
                let t = triangular(steps as nat);
                let q = q_after(self.q as int, self.dq as int, self.ddq as int, steps as nat);
                let dq = dq_after(self.dq as int, self.ddq as int, steps as nat);
                if !(fits_i64(n * (n - 1)) && fits_i64(n * self.dq) && fits_i64(self.q + n * self.dq)
                    && fits_i64(t * self.ddq) && fits_i64(q) && fits_i64(n * self.ddq) && fits_i64(
                    dq,
                )) {
                    r == Err::<QRunScalar, NumericError>(NumericError::Overflow)
                } else if !(fits_i32(q) && fits_i32(dq) && self.domain.holds(q)
                    && self.domain.holds(dq)) {
                    r == Err::<QRunScalar, NumericError>(NumericError::Overflow)
                } else {
                    r == Ok::<QRunScalar, NumericError>(self.with_state(q as i32, dq as i32, 0))
                }
            }),
    {
        let n: i64 = steps as i64;
        let previous: i64 = if n > 0 {
            n - 1
        } else {
            0
        };
        proof {
            lemma_triangular_closed(steps as nat);
        }
        let product = match n.checked_mul(previous) {
            Some(v) => v,
            None => return Err(NumericError::Overflow),
        };
        let triangle: i64 = product / 2;
        assert(triangle == triangular(steps as nat)) by (nonlinear_arith)
            requires
                product == n * previous,
                previous == (if n > 0 { n - 1 } else { 0 }),
                2 * triangular(steps as nat) == n * (n - 1),
                triangle == product / 2,
                n >= 0,
        ;
        let linear = match n.checked_mul(self.dq as i64) {
            Some(v) => v,
            None => return Err(NumericError::Overflow),
        };
        let partial = match (self.q as i64).checked_add(linear) {
            Some(v) => v,
            None => return Err(NumericError::Overflow),
        };
        let curvature = match triangle.checked_mul(self.ddq as i64) {
            Some(v) => v,
            None => return Err(NumericError::Overflow),
        };
        let q = match partial.checked_add(curvature) {
            Some(v) => v,
            None => return Err(NumericError::Overflow),
        };
        let drift = match n.checked_mul(self.ddq as i64) {
            Some(v) => v,
            None => return Err(NumericError::Overflow),
        };
        let dq = match (self.dq as i64).checked_add(drift) {
            Some(v) => v,
            None => return Err(NumericError::Overflow),
        };
        if q < i32::MIN as i64 || q > i32::MAX as i64 || dq < i32::MIN as i64 || dq
            > i32::MAX as i64 {
            return Err(NumericError::Overflow);
        }
        let q = q as i32;
        let dq = dq as i32;
        if q < self.domain.min_raw || q > self.domain.max_raw || dq < self.domain.min_raw || dq
            > self.domain.max_raw {
            return Err(NumericError::Overflow);
        }
        Ok(QRunScalar { q, dq, step: 0, ..self })
    }
}

pub open spec fn fits_i64(v: int) -> bool {
    i64::MIN <= v <= i64::MAX
}

/// `a` is nearer than `b` beyond both error radii.
pub open spec fn nearer_beyond_radii(a_q: int, a_error: int, b_q: int, b_error: int) -> bool {
    a_error >= 0 && b_error >= 0 && a_q - a_error > b_q + b_error
}

pub fn quantized_nearer(a: &QRunScalar, b: &QRunScalar) -> (r: bool)
    ensures
        r == nearer_beyond_radii(a.q as int, a.error_radius as int, b.q as int, b.error_radius as int),
{
    quantized_nearer_raw(a.q, a.error_radius, b.q, b.error_radius)
}

pub fn quantized_nearer_raw(a_q: i32, a_error: i32, b_q: i32, b_error: i32) -> (r: bool)
    ensures
        r == nearer_beyond_radii(a_q as int, a_error as int, b_q as int, b_error as int),
{
    a_error >= 0 && b_error >= 0 && a_q as i64 - a_error as i64 > b_q as i64 + b_error as i64
}

/// The binary64 value nearest a nonnegative integer below `2^63`: exact
/// below `2^53`, otherwise rounded to 53 significant bits, ties to even.
pub open spec fn f64_nearest(m: nat) -> nat {
    if m < 0x20_0000_0000_0000 {
        m
    } else {
        let shift = (top_bit_of(m) - 52) as nat;
        let scale = two_pow(shift);
        let kept = m / scale;
        let rest = m % scale;
        let half = scale / 2;
        let rounded = if rest > half || (rest == half && kept % 2 == 1) {
            kept + 1
        } else {
            kept
        };
        rounded * scale
    }
}

/// `ceil(m / 2^e)` for any exponent: exact for a negative one.
pub open spec fn raw_at(m: int, e: int) -> int {
    if e >= 0 {
        (m + two_pow(e as nat) - 1) / (two_pow(e as nat) as int)
    } else {
        m * two_pow((-e) as nat)
    }
}

/// The finest exponent from `e` up to the sealed maximum at which `m`
/// fits signed 32-bit storage.
pub open spec fn finest_exponent(m: int, e: int) -> Option<int>
    decreases 64 - e,
{
    if e > 63 {
        None
    } else if raw_at(m, e) <= i32::MAX {
        Some(e)
    } else {
        finest_exponent(m, e + 1)
    }
}

/// Domain selection for an integer magnitude: the finest sealed exponent
/// whose storage holds it, but never finer than `-30`, where the magnitude
/// is stored exactly.
pub open spec fn integer_domain(maximum_abs: i64) -> Result<SelectedDomain, NumericError> {
    if maximum_abs < 0 {
        Err(NumericError::InvalidDomain)
    } else {
        let m = f64_nearest(maximum_abs as nat) as int;
        match finest_exponent(m, -96) {
            None => Err(NumericError::Overflow),
            Some(e) => if e >= -30 {
                Ok(
                    SelectedDomain {
                        domain: FixedDomain { exponent: e as i16, min_raw: i32::MIN, max_raw: i32::MAX },
                        maximum_raw: raw_at(m, e) as i32,
                    },
                )
            } else if maximum_abs * 0x4000_0000 > i32::MAX {
                Err(NumericError::Overflow)
            } else {
                Ok(
                    SelectedDomain {
                        domain: FixedDomain { exponent: -30i16, min_raw: i32::MIN, max_raw: i32::MAX },
                        maximum_raw: (maximum_abs * 0x4000_0000) as i32,
                    },
                )
            },
        }
    }
}

fn nearest_f64_integer(m: u64) -> (r: u128)
    requires
        m < 0x8000_0000_0000_0000,
    ensures
        r == f64_nearest(m as nat),
        r <= 0x8000_0000_0000_0000,
{
    if m < 0x20_0000_0000_0000 {
        return m as u128;
    }
    let mut top: u32 = 0;
    let mut v = m;
    proof {
        lemma_top_bit(m as nat);
        lemma_two_pow_values();
        if top_bit_of(m as nat) > 62 {
            lemma_two_pow_monotone(63, top_bit_of(m as nat));
        }
        if top_bit_of(m as nat) < 53 {
            lemma_two_pow_monotone(top_bit_of(m as nat) + 1, 53);
            assert(two_pow(53) == 0x20_0000_0000_0000) by {
                reveal_with_fuel(two_pow, 54);
            }
        }
    }
    while v >= 2
        invariant
            v >= 1,
            top <= 62,
            top + top_bit_of(v as nat) == top_bit_of(m as nat),
            top_bit_of(m as nat) <= 62,
        decreases v,
    {
        v = v / 2;
        top = top + 1;
    }
    let shift = top - 52;
    let scale = two_pow_i128(shift) as u64;
    proof {
        lemma_two_pow_pos(shift as nat);
        lemma_two_pow_monotone(shift as nat, 10);
        assert(two_pow(10) == 1024) by {
            reveal_with_fuel(two_pow, 11);
        }
        assert(two_pow(shift as nat) == 2 * two_pow((shift - 1) as nat));
    }
    let kept = m / scale;
    let rest = m % scale;
    let half = scale / 2;
    let rounded: u128 = if rest > half || (rest == half && kept % 2 == 1) {
        kept as u128 + 1
    } else {
        kept as u128
    };
    proof {
        lemma_two_pow_adds(53, shift as nat);
        lemma_two_pow_adds(top as nat + 1, 0);
        assert(two_pow(53) == 0x20_0000_0000_0000) by {
            reveal_with_fuel(two_pow, 54);
        }
        lemma_two_pow_adds(shift as nat, 53);
        assert(kept < two_pow(53)) by {
            assert((m as int) < two_pow(53) * two_pow(shift as nat));
            vstd::arithmetic::div_mod::lemma_multiply_divide_lt(
                m as int,
                scale as int,
                two_pow(53) as int,
            );
        }
        lemma_two_pow_monotone(top as nat + 1, 63);
        assert(rounded * scale <= two_pow(53) * two_pow(shift as nat)) by (nonlinear_arith)
            requires
                rounded <= two_pow(53),
                scale == two_pow(shift as nat),
        ;
    }
    rounded * scale as u128
}

/// Selects the finest sealed exponent whose signed 32-bit storage holds an
/// integer magnitude, capped at `-30`, where integers are stored exactly.
#[verifier::rlimit(30)]
pub fn select_integer_domain(maximum_abs: i64) -> (r: Result<SelectedDomain, NumericError>)
    ensures
        r == integer_domain(maximum_abs),
{
    if maximum_abs < 0 {
        return Err(NumericError::InvalidDomain);
    }
    let m = nearest_f64_integer(maximum_abs as u64);
    let mut exponent: i16 = -96;
    while exponent <= 63
        invariant
            -96 <= exponent <= 64,
            m == f64_nearest(maximum_abs as nat),
            m <= 0x8000_0000_0000_0000,
            maximum_abs >= 0,
            finest_exponent(m as int, -96) == finest_exponent(m as int, exponent as int),
        decreases 64 - exponent,
    {
        let raw: Option<u128> = if exponent >= 0 {
            let scale = two_pow_i128(exponent as u32) as u128;
            proof {
                lemma_two_pow_pos(exponent as nat);
                lemma_two_pow_monotone(exponent as nat, 63);
                lemma_two_pow_values();
            }
            Some((m + scale - 1) / scale)
        } else {
            let scale = two_pow_i128((-exponent) as u32) as u128;
            proof {
                lemma_two_pow_pos((-exponent) as nat);
            }
            if m <= 0x7fff_ffff / scale {
                proof {
                    vstd::arithmetic::div_mod::lemma_fundamental_div_mod(0x7fff_ffff, scale as int);
                    assert(m * scale <= 0x7fff_ffff) by (nonlinear_arith)
                        requires
                            m <= 0x7fff_ffffint / (scale as int),
                            0x7fff_ffffint == scale * (0x7fff_ffffint / (scale as int)) + 0x7fff_ffffint
                                % (scale as int),
                            0x7fff_ffffint % (scale as int) >= 0,
                            scale >= 1,
                    ;
                }
                Some(m * scale)
            } else {
                proof {
                    vstd::arithmetic::div_mod::lemma_fundamental_div_mod(0x7fff_ffff, scale as int);
                    assert(m * scale > 0x7fff_ffff) by (nonlinear_arith)
                        requires
                            m > 0x7fff_ffffint / (scale as int),
                            0x7fff_ffffint == scale * (0x7fff_ffffint / (scale as int)) + 0x7fff_ffffint
                                % (scale as int),
                            0x7fff_ffffint % (scale as int) < scale,
                            scale >= 1,
                    ;
                }
                None
            }
        };
        match raw {
            Some(v) => if v <= 0x7fff_ffff {
                if exponent >= -30 {
                    return Ok(
                        SelectedDomain { domain: FixedDomain::full(exponent), maximum_raw: v as i32 },
                    );
                }
                if maximum_abs > i32::MAX as i64 {
                    proof {
                        assert(maximum_abs * 0x4000_0000 > i32::MAX) by (nonlinear_arith)
                            requires
                                maximum_abs > i32::MAX,
                        ;
                    }
                    return Err(NumericError::Overflow);
                }
                let scaled = maximum_abs as i128 * 0x4000_0000;
                if scaled > i32::MAX as i128 {
                    return Err(NumericError::Overflow);
                }
                return Ok(
                    SelectedDomain { domain: FixedDomain::full(-30), maximum_raw: scaled as i32 },
                );
            },
            None => {},
        }
        exponent = exponent + 1;
    }
    Err(NumericError::Overflow)
}

/// Largest magnitude the recurrence can reach from integer coefficients
/// over `width` steps (at most 64): `|q| + w |dq| + w(w-1)/2 |ddq|`.
pub open spec fn integer_envelope(q: i32, dq: i32, ddq: i32, requested_width: u8) -> int {
    let width: int = if requested_width < 64 {
        requested_width as int
    } else {
        64
    };
    abs_int(q as int) + width * abs_int(dq as int) + (width * (width - 1) / 2) * abs_int(ddq as int)
}

/// The coefficients as points converted outward into the domain selected
/// for their envelope, with that domain.
pub open spec fn integer_setup_inputs(q: i32, dq: i32, ddq: i32, requested_width: u8) -> Result<
    (Iv32, Iv32, Iv32, FixedDomain),
    NumericError,
> {
    let source = FixedDomain { exponent: 0i16, min_raw: i32::MIN, max_raw: i32::MAX };
    match integer_domain(integer_envelope(q, dq, ddq, requested_width) as i64) {
        Err(e) => Err(e),
        Ok(selected) => match (Iv32 { lo: q, hi: q }).spec_convert(source, selected.domain) {
            Err(e) => Err(e),
            Ok(a) => match (Iv32 { lo: dq, hi: dq }).spec_convert(source, selected.domain) {
                Err(e) => Err(e),
                Ok(b) => match (Iv32 { lo: ddq, hi: ddq }).spec_convert(source, selected.domain) {
                    Err(e) => Err(e),
                    Ok(c) => Ok((a, b, c, selected.domain)),
                },
            },
        },
    }
}

/// Setup for integer-valued coefficients: a shared domain is selected for
/// the recurrence envelope, the coefficients are converted outward into it,
/// and the ordinary checked setup is applied.
#[verifier::rlimit(30)]
pub fn setup_from_integer_coefficients(
    q: i32,
    dq: i32,
    ddq: i32,
    requested_width: u8,
    model_error_radius: i32,
) -> (r: Result<QRunScalar, NumericError>)
    ensures
        requested_width == 0 || model_error_radius < 0 ==> r == Err::<QRunScalar, NumericError>(
            NumericError::InvalidDomain,
        ),
        !(requested_width == 0 || model_error_radius < 0) ==> match integer_setup_inputs(
            q,
            dq,
            ddq,
            requested_width,
        ) {
            Err(e) => r == Err::<QRunScalar, NumericError>(e),
            Ok((a, b, c, domain)) => match QRunScalar::spec_setup(
                a,
                b,
                c,
                domain,
                requested_width,
                model_error_radius,
            ) {
                Err(e) => r == Err::<QRunScalar, NumericError>(e),
                Ok((width, radius)) => r matches Ok(run) && run.q == center(a) && run.dq == center(b)
                    && run.ddq == center(c) && run.domain == domain && run.error_radius == radius
                    && run.microtile_width == width && run.steps_taken() == 0,
            },
        },
{
    if requested_width == 0 || model_error_radius < 0 {
        return Err(NumericError::InvalidDomain);
    }
    let width: i128 = if requested_width < 64 {
        requested_width as i128
    } else {
        64
    };
    assert(width * (width - 1) <= 64 * 63) by (nonlinear_arith)
        requires
            1 <= width <= 64,
    ;
    let triangular: i128 = width * (width - 1) / 2;
    let q_abs: i128 = if q < 0 {
        -(q as i128)
    } else {
        q as i128
    };
    let dq_abs: i128 = if dq < 0 {
        -(dq as i128)
    } else {
        dq as i128
    };
    let ddq_abs: i128 = if ddq < 0 {
        -(ddq as i128)
    } else {
        ddq as i128
    };
    proof {
        assert(width * dq_abs <= 64 * 0x8000_0000) by (nonlinear_arith)
            requires
                0 <= width <= 64,
                0 <= dq_abs <= 0x8000_0000,
        ;
        assert(0 <= triangular <= 2016) by (nonlinear_arith)
            requires
                1 <= width <= 64,
                triangular == width * (width - 1) / 2,
        ;
        assert(triangular * ddq_abs <= 2016 * 0x8000_0000) by (nonlinear_arith)
            requires
                0 <= triangular <= 2016,
                0 <= ddq_abs <= 0x8000_0000,
        ;
    }
    let envelope: i128 = q_abs + width * dq_abs + triangular * ddq_abs;
    let selected = select_integer_domain(envelope as i64)?;
    let source = FixedDomain::full(0);
    let a = Iv32::point(q).convert(source, selected.domain)?;
    let b = Iv32::point(dq).convert(source, selected.domain)?;
    let c = Iv32::point(ddq).convert(source, selected.domain)?;
    setup(a, b, c, selected.domain, requested_width, model_error_radius)
}

/// Largest magnitude one coefficient corner reaches within `n` steps: its
/// three coefficients and every later value and first difference.
pub open spec fn corner_peak(q0: int, d1: int, d2: int, n: nat) -> int
    decreases n,
{
    if n == 0 {
        max_int(max_int(abs_int(q0), abs_int(d1)), abs_int(d2))
    } else {
        max_int(
            max_int(corner_peak(q0, d1, d2, (n - 1) as nat), abs_int(q_after(q0, d1, d2, n))),
            abs_int(dq_after(d1, d2, n)),
        )
    }
}

/// Coefficient corner `c` in `0..8`: the low or high end of `q`, `dq` and
/// `ddq` by the bits of `c`, most significant first.
pub open spec fn coefficient_corner(q: Iv32, dq: Iv32, ddq: Iv32, c: int) -> (int, int, int) {
    (
        if c / 4 == 0 {
            q.lo as int
        } else {
            q.hi as int
        },
        if (c / 2) % 2 == 0 {
            dq.lo as int
        } else {
            dq.hi as int
        },
        if c % 2 == 0 {
            ddq.lo as int
        } else {
            ddq.hi as int
        },
    )
}

/// Largest corner peak among the first `k` corners over `width` steps.
pub open spec fn corners_peak(q: Iv32, dq: Iv32, ddq: Iv32, width: nat, k: nat) -> int
    decreases k,
{
    if k == 0 {
        0
    } else {
        let (q0, d1, d2) = coefficient_corner(q, dq, ddq, k - 1);
        max_int(corners_peak(q, dq, ddq, width, (k - 1) as nat), corner_peak(q0, d1, d2, width))
    }
}

/// Largest magnitude any corner of the coefficient box reaches over a
/// microtile of `width` steps.
pub open spec fn recurrence_peak(q: Iv32, dq: Iv32, ddq: Iv32, width: nat) -> int {
    corners_peak(q, dq, ddq, width, 8)
}

proof fn lemma_trajectory_bounds(q0: int, d1: int, d2: int, n: nat)
    requires
        abs_int(q0) <= 0x8000_0000,
        abs_int(d1) <= 0x8000_0000,
        abs_int(d2) <= 0x8000_0000,
        n <= 256,
    ensures
        abs_int(q_after(q0, d1, d2, n)) <= 0x8000_0000_0000,
        abs_int(dq_after(d1, d2, n)) <= 0x8000_0000_0000,
{
    lemma_triangular_closed(n);
    let t = triangular(n);
    assert(t <= 32640) by (nonlinear_arith)
        requires
            2 * t == n * (n - 1),
            n <= 256,
    ;
    assert(abs_int(n * d1) <= 256 * 0x8000_0000) by (nonlinear_arith)
        requires
            abs_int(d1) <= 0x8000_0000,
            0 <= n <= 256,
    ;
    assert(abs_int(n * d2) <= 256 * 0x8000_0000) by (nonlinear_arith)
        requires
            abs_int(d2) <= 0x8000_0000,
            0 <= n <= 256,
    ;
    assert(abs_int(t * d2) <= 32640 * 0x8000_0000) by (nonlinear_arith)
        requires
            abs_int(d2) <= 0x8000_0000,
            0 <= t <= 32640,
    ;
}

proof fn lemma_corner_peak_bound(q0: int, d1: int, d2: int, n: nat)
    requires
        abs_int(q0) <= 0x8000_0000,
        abs_int(d1) <= 0x8000_0000,
        abs_int(d2) <= 0x8000_0000,
        n <= 256,
    ensures
        0 <= corner_peak(q0, d1, d2, n) <= 0x8000_0000_0000,
    decreases n,
{
    if n > 0 {
        lemma_corner_peak_bound(q0, d1, d2, (n - 1) as nat);
        lemma_trajectory_bounds(q0, d1, d2, n);
    }
}

/// Largest magnitude, raw, that the recurrence reaches from any corner of
/// the coefficient box over `width` steps; `Overflow` when it leaves `i32`.
pub fn recurrence_maximum_abs(q: Iv32, dq: Iv32, ddq: Iv32, width: u8) -> (r: Result<
    i32,
    NumericError,
>)
    ensures
        recurrence_peak(q, dq, ddq, width as nat) <= i32::MAX ==> r == Ok::<i32, NumericError>(
            recurrence_peak(q, dq, ddq, width as nat) as i32,
        ),
        recurrence_peak(q, dq, ddq, width as nat) > i32::MAX ==> r == Err::<i32, NumericError>(
            NumericError::Overflow,
        ),
{
    let mut maximum: i64 = 0;
    let mut c: usize = 0;
    while c < 8
        invariant
            c <= 8,
            0 <= maximum <= 0x8000_0000_0000,
            maximum == corners_peak(q, dq, ddq, width as nat, c as nat),
        decreases 8 - c,
    {
        let q0: i32 = if c / 4 == 0 {
            q.lo
        } else {
            q.hi
        };
        let d1: i32 = if (c / 2) % 2 == 0 {
            dq.lo
        } else {
            dq.hi
        };
        let d2: i32 = if c % 2 == 0 {
            ddq.lo
        } else {
            ddq.hi
        };
        assert(coefficient_corner(q, dq, ddq, c as int) == (q0 as int, d1 as int, d2 as int));
        let ghost before = maximum as int;
        let mut q_value: i64 = q0 as i64;
        let mut dq_value: i64 = d1 as i64;
        maximum = i64_max(i64_max(i64_max(maximum, i64_abs(q_value)), i64_abs(dq_value)), i64_abs(
            d2 as i64,
        ));
        let mut step: u8 = 0;
        while step < width
            invariant
                step <= width,
                q_value == q_after(q0 as int, d1 as int, d2 as int, step as nat),
                dq_value == dq_after(d1 as int, d2 as int, step as nat),
                maximum == max_int(before, corner_peak(q0 as int, d1 as int, d2 as int, step as nat)),
                0 <= before <= 0x8000_0000_0000,
            decreases width - step,
        {
            proof {
                lemma_step(q0 as int, d1 as int, d2 as int, step as nat);
                lemma_trajectory_bounds(q0 as int, d1 as int, d2 as int, step as nat);
                lemma_trajectory_bounds(q0 as int, d1 as int, d2 as int, (step + 1) as nat);
                lemma_corner_peak_bound(q0 as int, d1 as int, d2 as int, step as nat);
            }
            q_value = match q_value.checked_add(dq_value) {
                Some(v) => v,
                None => return Err(NumericError::Overflow),
            };
            dq_value = match dq_value.checked_add(d2 as i64) {
                Some(v) => v,
                None => return Err(NumericError::Overflow),
            };
            maximum = i64_max(i64_max(maximum, i64_abs(q_value)), i64_abs(dq_value));
            step = step + 1;
        }
        proof {
            lemma_corner_peak_bound(q0 as int, d1 as int, d2 as int, width as nat);
        }
        c = c + 1;
    }
    if maximum > i32::MAX as i64 {
        return Err(NumericError::Overflow);
    }
    Ok(maximum as i32)
}

fn i64_max(a: i64, b: i64) -> (r: i64)
    ensures
        r == max_int(a as int, b as int),
{
    if a >= b {
        a
    } else {
        b
    }
}

fn i64_abs(v: i64) -> (r: i64)
    requires
        v > i64::MIN,
    ensures
        r == abs_int(v as int),
{
    if v < 0 {
        -v
    } else {
        v
    }
}

/// What the machine's envelope policy promised for a sealed setup: the
/// domain exponent, microtile width, error radius and recurrence peak.
#[derive(Clone, Copy, Debug, PartialEq, Eq)]
pub struct EnvelopePolicy {
    pub exponent: i16,
    pub reset_width: u8,
    pub error_radius: i32,
    pub maximum_raw: i32,
}

/// Runs the checked setup in the policy's domain on the quantized
/// coefficients and seals it with its recurrence peak, refusing with
/// `DomainMismatch` when the setup disagrees with what the policy promised.
pub fn seal_setup(
    q: Iv32,
    dq: Iv32,
    ddq: Iv32,
    requested_width: u8,
    model_error_radius: i32,
    policy: EnvelopePolicy,
) -> (r: Result<SealedSetup, NumericError>)
    ensures
        ({
            let domain = FixedDomain { exponent: policy.exponent, min_raw: i32::MIN, max_raw: i32::MAX };
            match QRunScalar::spec_setup(q, dq, ddq, domain, requested_width, model_error_radius) {
                Err(e) => r == Err::<SealedSetup, NumericError>(e),
                Ok((width, radius)) => {
                    let peak = recurrence_peak(q, dq, ddq, width as nat);
                    if peak > i32::MAX {
                        r == Err::<SealedSetup, NumericError>(NumericError::Overflow)
                    } else if width != policy.reset_width || radius != policy.error_radius || peak
                        != policy.maximum_raw {
                        r == Err::<SealedSetup, NumericError>(NumericError::DomainMismatch)
                    } else {
                        r matches Ok(sealed) && sealed.maximum_raw == peak && sealed.run.q == center(
                            q,
                        ) && sealed.run.dq == center(dq) && sealed.run.ddq == center(ddq)
                            && sealed.run.domain == domain && sealed.run.error_radius == radius
                            && sealed.run.microtile_width == width && sealed.run.steps_taken()
                            == 0
                    }
                },
            }
        }),
{
    let domain = FixedDomain::full(policy.exponent);
    let run = setup(q, dq, ddq, domain, requested_width, model_error_radius)?;
    let maximum_raw = recurrence_maximum_abs(q, dq, ddq, run.microtile_width)?;
    if run.microtile_width != policy.reset_width || run.error_radius != policy.error_radius
        || maximum_raw != policy.maximum_raw {
        return Err(NumericError::DomainMismatch);
    }
    Ok(SealedSetup { run, maximum_raw })
}

} // verus!
