//! Direct lighting: how shading a point fails.
use vstd::prelude::*;

verus! {

#[derive(Clone, Copy, Debug, PartialEq, Eq, Structural)]
pub enum ShadeError {
    InvalidInput,
    UnsupportedLobe,
}

} // verus!
