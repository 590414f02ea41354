//! Independent visibility oracle: how an oracle query fails.
use vstd::prelude::*;

verus! {

#[derive(Clone, Copy, Debug, PartialEq, Eq, Structural)]
pub enum OracleError {
    InvalidDomain,
    CapacityExceeded,
    NonFinite,
    Unresolved,
}

/// The orientation of the first boundary seen from the camera: a root
/// leaving the solid (`-1`) from inside it, entering it (`1`) from outside.
pub open spec fn expected_orientation(camera_inside: bool) -> i8 {
    if camera_inside {
        -1i8
    } else {
        1i8
    }
}

/// Which of the roots, listed front to back by their orientations, is the
/// first boundary: the first with the orientation expected from the
/// camera's side, else the nearest root, else none.
pub fn first_boundary_index(orientations: &[i8], camera_inside: bool) -> (r: Option<usize>)
    ensures
        match r {
            None => orientations.len() == 0,
            Some(i) => i < orientations.len() && ({
                ||| orientations@[i as int] == expected_orientation(camera_inside) && forall|k: int|
                    0 <= k < i ==> orientations@[k] != expected_orientation(camera_inside)
                ||| i == 0 && forall|k: int|
                    0 <= k < orientations.len() ==> orientations@[k] != expected_orientation(
                        camera_inside,
                    )
            }),
        },
{
    let expected: i8 = if camera_inside {
        -1
    } else {
        1
    };
    let mut i: usize = 0;
    while i < orientations.len()
        invariant
            i <= orientations.len(),
            expected == expected_orientation(camera_inside),
            forall|k: int| 0 <= k < i ==> orientations@[k] != expected,
        decreases orientations.len() - i,
    {
        if orientations[i] == expected {
            return Some(i);
        }
        i = i + 1;
    }
    if orientations.len() == 0 {
        None
    } else {
        Some(0)
    }
}

} // verus!
