//! Deterministic material and centered-moment interval helpers.
use vstd::prelude::*;
use crate::iv32::{FixedDomain, Iv32, NumericError};
use crate::normal::{Iv3, add_results};

verus! {

#[derive(Clone, Copy, Debug, PartialEq, Eq, Structural)]
pub struct MaterialBounds {
    pub base_color: Iv3,
    pub roughness: Iv32,
    pub metallic: Iv32,
    pub emission: Iv3,
    pub opacity: Iv32,
}

#[derive(Clone, Copy, Debug, PartialEq, Eq, Structural)]
pub struct CenteredMoments {
    pub mean: Iv32,
    pub first: Iv32,
    pub second: Iv32,
}

/// Bit pattern of the `f32` value one half.
pub const HALF_F32_BITS: u32 = 0x3f00_0000;

/// `a * b` after `a` itself succeeded.
pub open spec fn multiply_after(a: Result<Iv32, NumericError>, b: Iv32, domain: FixedDomain) -> Result<
    Iv32,
    NumericError,
> {
    match a {
        Ok(x) => x.spec_multiply(b, domain),
        Err(e) => Err(e),
    }
}

/// `center + du * offset_u + dv * offset_v`, evaluated left to right.
pub open spec fn affine_scalar_spec(
    center: Iv32,
    du: Iv32,
    dv: Iv32,
    offset_u: Iv32,
    offset_v: Iv32,
    domain: FixedDomain,
) -> Result<Iv32, NumericError> {
    add_results(
        add_results(Ok(center), du.spec_multiply(offset_u, domain), domain),
        dv.spec_multiply(offset_v, domain),
        domain,
    )
}

pub fn affine_moments(
    center: Iv32,
    slope: Iv32,
    centered_first: Iv32,
    centered_second: Iv32,
    domain: FixedDomain,
) -> (r: Result<CenteredMoments, NumericError>)
    ensures
        r == (match add_results(Ok(center), slope.spec_multiply(centered_first, domain), domain) {
            Err(e) => Err(e),
            Ok(mean) => match slope.spec_multiply(centered_second, domain) {
                Err(e) => Err(e),
                Ok(first) => Ok(CenteredMoments { mean, first, second: Iv32 { lo: 0, hi: 0 } }),
            },
        }),
{
    let mean = center.add(slope.multiply(centered_first, domain)?, domain)?;
    let first = slope.multiply(centered_second, domain)?;
    Ok(CenteredMoments { mean, first, second: Iv32::point(0) })
}

pub fn quadratic_moments(
    center: Iv32,
    slope: Iv32,
    curvature: Iv32,
    centered_first: Iv32,
    centered_second: Iv32,
    domain: FixedDomain,
) -> (r: Result<CenteredMoments, NumericError>)
    ensures
        r == (match Iv32::spec_from_f32_bits(HALF_F32_BITS, 1, domain) {
            Err(e) => Err(e),
            Ok(half) => match multiply_after(
                curvature.spec_multiply(centered_second, domain),
                half,
                domain,
            ) {
                Err(e) => Err(e),
                Ok(quadratic) => match add_results(
                    add_results(
                        Ok(center),
                        slope.spec_multiply(centered_first, domain),
                        domain,
                    ),
                    Ok(quadratic),
                    domain,
                ) {
                    Err(e) => Err(e),
                    Ok(mean) => match slope.spec_multiply(centered_second, domain) {
                        Err(e) => Err(e),
                        Ok(first) => Ok(CenteredMoments { mean, first, second: curvature }),
                    },
                },
            },
        }),
{
    let half = Iv32::from_f32_bits(HALF_F32_BITS, 1, domain)?;
    let quadratic = curvature.multiply(centered_second, domain)?.multiply(half, domain)?;
    let mean = center.add(slope.multiply(centered_first, domain)?, domain)?.add(quadratic, domain)?;
    let first = slope.multiply(centered_second, domain)?;
    Ok(CenteredMoments { mean, first, second: curvature })
}

/// A supplied residual is accepted only when its magnitude bound plus the
/// arithmetic radius stays within the budget.
pub fn low_rank_residual_accepts(
    supplied_residual: Iv32,
    arithmetic_radius: i32,
    budget_raw: i32,
    domain: FixedDomain,
) -> (r: Result<bool, NumericError>)
    ensures
        r == (if arithmetic_radius < 0 || budget_raw < 0 {
            Err(NumericError::InvalidDomain)
        } else {
            match supplied_residual.spec_abs(domain) {
                Err(e) => Err(e),
                Ok(residual) => Ok(residual.hi + arithmetic_radius <= budget_raw),
            }
        }),
{
    if arithmetic_radius < 0 || budget_raw < 0 {
        return Err(NumericError::InvalidDomain);
    }
    let residual = supplied_residual.abs(domain)?;
    let total: i64 = residual.hi as i64 + arithmetic_radius as i64;
    Ok(total <= budget_raw as i64)
}

pub fn footprint_bound(du: Iv32, dv: Iv32, domain: FixedDomain) -> (r: Result<Iv32, NumericError>)
    ensures
        r == (match du.spec_abs(domain) {
            Err(e) => Err(e),
            Ok(a) => match dv.spec_abs(domain) {
                Err(e) => Err(e),
                Ok(b) => a.spec_max(b, domain),
            },
        }),
{
    du.abs(domain)?.max(dv.abs(domain)?, domain)
}

pub fn evaluate_affine_scalar(
    center: Iv32,
    du: Iv32,
    dv: Iv32,
    offset_u: Iv32,
    offset_v: Iv32,
    domain: FixedDomain,
) -> (r: Result<Iv32, NumericError>)
    ensures
        r == affine_scalar_spec(center, du, dv, offset_u, offset_v, domain),
{
    center.add(du.multiply(offset_u, domain)?, domain)?.add(dv.multiply(offset_v, domain)?, domain)
}

pub fn evaluate_affine_vector(
    center: Iv3,
    du: Iv3,
    dv: Iv3,
    offset_u: Iv32,
    offset_v: Iv32,
    domain: FixedDomain,
) -> (r: Result<Iv3, NumericError>)
    ensures
        r == (match affine_scalar_spec(center.x, du.x, dv.x, offset_u, offset_v, domain) {
            Err(e) => Err(e),
            Ok(x) => match affine_scalar_spec(center.y, du.y, dv.y, offset_u, offset_v, domain) {
                Err(e) => Err(e),
                Ok(y) => match affine_scalar_spec(
                    center.z,
                    du.z,
                    dv.z,
                    offset_u,
                    offset_v,
                    domain,
                ) {
                    Err(e) => Err(e),
                    Ok(z) => Ok(Iv3 { x, y, z }),
                },
            },
        }),
{
    Ok(
        Iv3 {
            x: evaluate_affine_scalar(center.x, du.x, dv.x, offset_u, offset_v, domain)?,
            y: evaluate_affine_scalar(center.y, du.y, dv.y, offset_u, offset_v, domain)?,
            z: evaluate_affine_scalar(center.z, du.z, dv.z, offset_u, offset_v, domain)?,
        },
    )
}

} // verus!
