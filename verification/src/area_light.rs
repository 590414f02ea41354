//! Area emitters: the shapes a source can take and how integrating one fails.
use vstd::prelude::*;

verus! {

#[derive(Clone, Copy, Debug, PartialEq, Eq, Structural)]
pub enum EmitterShape {
    Rectangle,
    Disk,
}

#[derive(Clone, Copy, Debug, PartialEq, Eq, Structural)]
pub enum AreaError {
    InvalidInput,
    CertificateExhausted,
    CapacityExceeded,
}

} // verus!
