//! The certified-run record as the raster and frame stages read it.
use vstd::prelude::*;
use crate::iv32::Iv32;

verus! {

#[derive(Clone, Copy, Debug, Default, PartialEq, Eq, Structural)]
pub struct IdentitySetId(pub u32);

#[derive(Clone, Copy, Debug, PartialEq, Eq, Structural)]
pub enum SweepError {
    InternalInvariant,
    CapacityExceeded,
    CertificateExhausted,
    NumericFailure,
}

/// The certificate margin that owns a run's proof.
#[derive(Clone, Copy, Debug, Default, PartialEq, Eq, Structural)]
pub enum ProofMarginKind {
    #[default]
    Root,
}

/// Quadratic inverse-depth model over a run: value, first and second difference.
#[derive(Clone, Copy, Debug, Default, PartialEq, Eq, Structural)]
pub struct QModel {
    pub q0: Iv32,
    pub qx: Iv32,
    pub qxx: Iv32,
}

#[derive(Clone, Copy, Debug, Default, PartialEq, Eq, Structural)]
pub struct NormalModel {
    pub nx: Iv32,
    pub ny: Iv32,
    pub nz: Iv32,
}

/// A half-open run `[x0, x1)` of one row with its certified models.
#[derive(Clone, Copy, Debug, Default, PartialEq, Eq, Structural)]
pub struct CertifiedRun {
    pub x0: u16,
    pub x1: u16,
    pub visible: Option<u16>,
    pub sheet_count: u16,
    pub q_model: QModel,
    pub q_error: Iv32,
    pub q_u: Iv32,
    pub q_v: Iv32,
    pub root_slack: Iv32,
    pub q_order_slack: Iv32,
    pub identity: IdentitySetId,
    pub normal_model: NormalModel,
    pub proof_owner: ProofMarginKind,
    pub event_left: Option<u16>,
    pub event_right: Option<u16>,
}

/// Bit position of a proof owner inside the output proof code.
pub fn proof_owner_code(kind: ProofMarginKind) -> (r: u8)
    ensures
        r == 0,
{
    match kind {
        ProofMarginKind::Root => 0,
    }
}

} // verus!
