//! Frame digests, score accounting and exact event-coverage fixtures of the
//! full-frame visibility conformance controls.
use vstd::prelude::*;
use crate::coverage::{
    BoundaryOwner, HalfPlane, half_plane_area, half_plane_area_spec, half_plane_byte,
    half_plane_byte_spec,
};
use crate::dyadic::{two_pow, lemma_two_pow_values};
use crate::iv32::{FixedDomain, Iv32, NumericError, numeric_error_name};
use crate::text::{decimal, signed_decimal, decimal_u64, decimal_i64};

verus! {

pub const DIGEST_SEED_0: u64 = 1_469_598_103_934_665_603;

pub const DIGEST_SEED_1: u64 = 1_099_511_628_211;

pub const DIGEST_SEED_2: u64 = 7_809_847_782_465_536_322;

pub const DIGEST_SEED_3: u64 = 1_609_587_929_392_839_161;

pub const DIGEST_PRIME_0: u64 = 1_099_511_628_211;

pub const DIGEST_PRIME_1: u64 = 14_029_467_366_897_019_727;

pub const DIGEST_PRIME_2: u64 = 11_400_714_785_074_694_791;

pub const DIGEST_PRIME_3: u64 = 9_650_029_242_287_828_579;

/// `a * b` wrapped to 64 bits.
pub open spec fn mul64(a: int, b: int) -> u64 {
    ((a * b) % 0x1_0000_0000_0000_0000) as u64
}

/// `a + b` wrapped to 64 bits.
pub open spec fn add64(a: int, b: int) -> u64 {
    ((a + b) % 0x1_0000_0000_0000_0000) as u64
}

/// The four digest words after the first `k` bytes: each byte is folded
/// into every word with its own mix, the second and fourth also mixing in
/// the byte's position.
pub open spec fn frame_words(bytes: Seq<u8>, k: nat) -> (u64, u64, u64, u64)
    decreases k,
{
    if k == 0 {
        (DIGEST_SEED_0, DIGEST_SEED_1, DIGEST_SEED_2, DIGEST_SEED_3)
    } else {
        mixed(frame_words(bytes, (k - 1) as nat), k - 1, bytes[k - 1] as u64)
    }
}

/// One byte folded into the four digest words.
pub open spec fn mixed(w: (u64, u64, u64, u64), offset: int, value: u64) -> (u64, u64, u64, u64) {
    (
        mul64((w.0 ^ value) as int, DIGEST_PRIME_0 as int),
        mul64((w.1 ^ add64(value as int, offset)) as int, DIGEST_PRIME_1 as int),
        mul64(add64(w.2 as int, value as int) as int, DIGEST_PRIME_2 as int),
        mul64((w.3 ^ (value << ((offset % 8) as u64))) as int, DIGEST_PRIME_3 as int),
    )
}

fn mix_byte(digest: [u64; 4], offset: usize, value: u8) -> (r: [u64; 4])
    ensures
        ({
            let m = mixed((digest[0], digest[1], digest[2], digest[3]), offset as int, value as u64);
            r@ == seq![m.0, m.1, m.2, m.3]
        }),
{
    let value = value as u64;
    let shift = (offset % 8) as u64;
    let a = (digest[0] ^ value).wrapping_mul(DIGEST_PRIME_0);
    let b = (digest[1] ^ value.wrapping_add(offset as u64)).wrapping_mul(DIGEST_PRIME_1);
    let c = digest[2].wrapping_add(value).wrapping_mul(DIGEST_PRIME_2);
    let d = (digest[3] ^ (value << shift)).wrapping_mul(DIGEST_PRIME_3);
    let r = [a, b, c, d];
    assert(r@ =~= seq![a, b, c, d]);
    r
}

/// Four-word digest of a captured debug framebuffer, in the guest's byte order.
pub fn debug_frame_digest(bytes: &[u8]) -> (r: [u64; 4])
    ensures
        ({
            let w = frame_words(bytes@, bytes@.len());
            r@ == seq![w.0, w.1, w.2, w.3]
        }),
{
    let mut digest = [DIGEST_SEED_0, DIGEST_SEED_1, DIGEST_SEED_2, DIGEST_SEED_3];
    assert(digest@ =~= seq![DIGEST_SEED_0, DIGEST_SEED_1, DIGEST_SEED_2, DIGEST_SEED_3]);
    let mut offset: usize = 0;
    while offset < bytes.len()
        invariant
            offset <= bytes@.len(),
            ({
                let w = frame_words(bytes@, offset as nat);
                digest@ == seq![w.0, w.1, w.2, w.3]
            }),
        decreases bytes@.len() - offset,
    {
        let ghost w = frame_words(bytes@, offset as nat);
        assert(digest[0] == w.0 && digest[1] == w.1 && digest[2] == w.2 && digest[3] == w.3);
        digest = mix_byte(digest, offset, bytes[offset]);
        assert(frame_words(bytes@, (offset + 1) as nat) == mixed(w, offset as int, bytes@[offset as int] as u64));
        offset = offset + 1;
    }
    digest
}

#[derive(Clone, Copy, Debug, PartialEq, Eq)]
pub struct GuestVisibilityProbe {
    pub hit: bool,
    pub identity: u32,
    pub q_lo: i32,
    pub q_hi: i32,
    pub normal_valid: bool,
    pub normal: [i32; 3],
    pub coverage: u8,
}

#[derive(Clone, Copy, Debug, Default, PartialEq, Eq)]
pub struct FrameScore {
    pub checked_interior: u32,
    pub interior_mismatches: u32,
    pub edge_center_violations: u32,
    pub ambiguous_identity: u32,
    pub unresolved: u32,
    /// Pixels whose point probes all missed but whose whole frustum could
    /// not be proved root-free within the interval budget: a hard failure.
    pub skipped_unproven: u32,
    /// Pixels painted although the field is provably root-free over the
    /// whole pixel frustum: surfaces that do not exist.
    pub phantom_surface: u32,
    pub q_checked: u32,
    pub normal_checked: u32,
    pub event_bytes_checked: u32,
    /// Event pixels whose true coverage straddles a byte boundary, judged by
    /// containment of two adjacent bytes rather than equality.
    pub boundary_limited_event_bytes: u32,
    pub raster_evidence_failures: u32,
    /// `[x, y, kind]` of the first issue in scan order.
    pub first_issue: Option<[u16; 3]>,
}

/// The score's counters, in field order.
pub open spec fn score_counters(s: FrameScore) -> Seq<int> {
    seq![
        s.checked_interior as int,
        s.interior_mismatches as int,
        s.edge_center_violations as int,
        s.ambiguous_identity as int,
        s.unresolved as int,
        s.skipped_unproven as int,
        s.phantom_surface as int,
        s.q_checked as int,
        s.normal_checked as int,
        s.event_bytes_checked as int,
        s.boundary_limited_event_bytes as int,
        s.raster_evidence_failures as int,
    ]
}

/// The field name of counter `i`.
pub open spec fn counter_name(i: int) -> Seq<char> {
    if i == 0 {
        "checked_interior"@
    } else if i == 1 {
        "interior_mismatches"@
    } else if i == 2 {
        "edge_center_violations"@
    } else if i == 3 {
        "ambiguous_identity"@
    } else if i == 4 {
        "unresolved"@
    } else if i == 5 {
        "skipped_unproven"@
    } else if i == 6 {
        "phantom_surface"@
    } else if i == 7 {
        "q_checked"@
    } else if i == 8 {
        "normal_checked"@
    } else if i == 9 {
        "event_bytes_checked"@
    } else if i == 10 {
        "boundary_limited_event_bytes"@
    } else {
        "raster_evidence_failures"@
    }
}

/// The message of an overflowing counter.
pub open spec fn overflow_message(i: int) -> Seq<char> {
    "frame "@ + counter_name(i) + " counter overflow"@
}

/// Counter `i` of the sum does not fit a `u32`.
pub open spec fn counter_overflows(total: FrameScore, part: FrameScore, i: int) -> bool {
    score_counters(total)[i] + score_counters(part)[i] > u32::MAX
}

fn counter_of(s: &FrameScore, i: usize) -> (r: u32)
    requires
        i < 12,
    ensures
        r == score_counters(*s)[i as int],
{
    match i {
        0 => s.checked_interior,
        1 => s.interior_mismatches,
        2 => s.edge_center_violations,
        3 => s.ambiguous_identity,
        4 => s.unresolved,
        5 => s.skipped_unproven,
        6 => s.phantom_surface,
        7 => s.q_checked,
        8 => s.normal_checked,
        9 => s.event_bytes_checked,
        10 => s.boundary_limited_event_bytes,
        _ => s.raster_evidence_failures,
    }
}

fn set_counter(s: &mut FrameScore, i: usize, v: u32)
    requires
        i < 12,
    ensures
        forall|j: int| 0 <= j < 12 ==> #[trigger] score_counters(*final(s))[j] == if j == i {
            v as int
        } else {
            score_counters(*old(s))[j]
        },
        final(s).first_issue == old(s).first_issue,
{
    match i {
        0 => s.checked_interior = v,
        1 => s.interior_mismatches = v,
        2 => s.edge_center_violations = v,
        3 => s.ambiguous_identity = v,
        4 => s.unresolved = v,
        5 => s.skipped_unproven = v,
        6 => s.phantom_surface = v,
        7 => s.q_checked = v,
        8 => s.normal_checked = v,
        9 => s.event_bytes_checked = v,
        10 => s.boundary_limited_event_bytes = v,
        _ => s.raster_evidence_failures = v,
    }
}

fn counter_name_of(i: usize) -> (r: &'static str)
    requires
        i < 12,
    ensures
        r@ == counter_name(i as int),
{
    match i {
        0 => "checked_interior",
        1 => "interior_mismatches",
        2 => "edge_center_violations",
        3 => "ambiguous_identity",
        4 => "unresolved",
        5 => "skipped_unproven",
        6 => "phantom_surface",
        7 => "q_checked",
        8 => "normal_checked",
        9 => "event_bytes_checked",
        10 => "boundary_limited_event_bytes",
        _ => "raster_evidence_failures",
    }
}

/// Adds a score part's counters onto the total, field by field; the first
/// counter that would overflow stops it, with the fields before it already
/// added. The earliest first issue in scan order is kept.
pub fn merge_frame_score(total: &mut FrameScore, part: FrameScore) -> (r: Result<(), String>)
    ensures
        forall|k: int|
            0 <= k < 12 && (forall|i: int| 0 <= i < k ==> !counter_overflows(*old(total), part, i))
                && counter_overflows(*old(total), part, k) ==> {
                &&& r matches Err(message) && message@ == overflow_message(k)
                &&& forall|i: int|
                    0 <= i < 12 ==> #[trigger] score_counters(*final(total))[i] == if i < k {
                        score_counters(*old(total))[i] + score_counters(part)[i]
                    } else {
                        score_counters(*old(total))[i]
                    }
                &&& final(total).first_issue == old(total).first_issue
            },
        (forall|i: int| 0 <= i < 12 ==> !counter_overflows(*old(total), part, i)) ==> {
            &&& r is Ok
            &&& forall|i: int|
                0 <= i < 12 ==> #[trigger] score_counters(*final(total))[i] == score_counters(
                    *old(total),
                )[i] + score_counters(part)[i]
            &&& final(total).first_issue == if old(total).first_issue is None {
                part.first_issue
            } else {
                old(total).first_issue
            }
        },
{
    let ghost start = *total;
    let mut i: usize = 0;
    while i < 12
        invariant
            i <= 12,
            start == *old(total),
            forall|j: int| 0 <= j < i ==> !counter_overflows(start, part, j),
            forall|j: int|
                0 <= j < 12 ==> #[trigger] score_counters(*total)[j] == if j < i {
                    score_counters(start)[j] + score_counters(part)[j]
                } else {
                    score_counters(start)[j]
                },
            total.first_issue == start.first_issue,
        decreases 12 - i,
    {
        let current = counter_of(total, i);
        let extra = counter_of(&part, i);
        assert(score_counters(*total)[i as int] == score_counters(start)[i as int]);
        match current.checked_add(extra) {
            Some(v) => set_counter(total, i, v),
            None => {
                let mut message = "frame ".to_owned();
                message.append(counter_name_of(i));
                message.append(" counter overflow");
                proof {
                    assert(counter_overflows(start, part, i as int));
                    assert forall|k: int|
                        0 <= k < 12 && (forall|j: int| 0 <= j < k ==> !counter_overflows(start, part, j))
                            && counter_overflows(start, part, k) implies k == i by {
                        if k < i {
                            assert(!counter_overflows(start, part, k));
                        } else if k > i {
                            assert(!counter_overflows(start, part, i as int));
                        }
                    }
                }
                return Err(message);
            },
        }
        i = i + 1;
    }
    let ghost counted = *total;
    if total.first_issue.is_none() {
        total.first_issue = part.first_issue;
    }
    assert(score_counters(*total) =~= score_counters(counted));
    Ok(())
}

/// The coverage byte of `count` hits among `samples`, rounded to nearest.
pub open spec fn grid_byte(count: u64, samples: u64) -> Result<u8, Seq<char>> {
    if samples == 0 {
        Err("event coverage grid has no samples"@)
    } else {
        let encoded = (count * 255 + samples / 2) / (samples as int);
        if encoded > 255 {
            Err("event coverage oracle is not a byte"@)
        } else {
            Ok(encoded as u8)
        }
    }
}

pub fn grid_coverage_byte(count: u64, samples: u64) -> (r: Result<u8, String>)
    ensures
        match grid_byte(count, samples) {
            Ok(b) => r == Ok::<u8, String>(b),
            Err(m) => r matches Err(message) && message@ == m,
        },
{
    if samples == 0 {
        return Err("event coverage grid has no samples".to_owned());
    }
    let encoded: u128 = (count as u128 * 255 + samples as u128 / 2) / samples as u128;
    if encoded > 255 {
        return Err("event coverage oracle is not a byte".to_owned());
    }
    Ok(encoded as u8)
}

/// Even full coverage of every retained cell at subdivision `level` (of
/// `4^level` equal cells) rounds to the zero coverage byte.
pub open spec fn rounds_to_zero(possible_cells: int, level: nat) -> bool {
    let scaled = if possible_cells * 510 > u64::MAX {
        u64::MAX as int
    } else {
        possible_cells * 510
    };
    scaled < two_pow(2 * level)
}

pub fn possible_coverage_rounds_to_zero(possible_cells: usize, level: u32) -> (r: bool)
    requires
        level <= 31,
    ensures
        r == rounds_to_zero(possible_cells as int, level as nat),
{
    let mut total_cells: u64 = 1;
    let mut i: u32 = 0;
    while i < level
        invariant
            i <= level <= 31,
            total_cells == two_pow(2 * i as nat),
        decreases level - i,
    {
        proof {
            lemma_two_pow_values();
            crate::dyadic::lemma_two_pow_monotone((2 * i) as nat, 60);
            assert(two_pow(60) * 4 == two_pow(62)) by {
                assert(two_pow(62) == 2 * two_pow(61));
                assert(two_pow(61) == 2 * two_pow(60));
            }
            assert(two_pow(63) == 2 * two_pow(62));
            assert(two_pow((2 * (i + 1)) as nat) == 4 * two_pow((2 * i) as nat)) by {
                assert(two_pow((2 * i + 2) as nat) == 2 * two_pow((2 * i + 1) as nat));
                assert(two_pow((2 * i + 1) as nat) == 2 * two_pow((2 * i) as nat));
            }
        }
        total_cells = total_cells * 4;
        i = i + 1;
    }
    let scaled = match (possible_cells as u64).checked_mul(510) {
        Some(v) => v,
        None => u64::MAX,
    };
    scaled < total_cells
}

/// How a coverage interval is written in diagnostics.
pub open spec fn iv32_text(v: Iv32) -> Seq<char> {
    "Iv32 { lo: "@ + signed_decimal(v.lo as int) + ", hi: "@ + signed_decimal(v.hi as int) + " }"@
}

fn iv32_debug(v: Iv32) -> (r: String)
    ensures
        r@ == iv32_text(v),
{
    let mut s = "Iv32 { lo: ".to_owned();
    s.append(decimal_i64(v.lo as i64).as_str());
    s.append(", hi: ");
    s.append(decimal_i64(v.hi as i64).as_str());
    s.append(" }");
    s
}

/// Exact coverage byte of an axis-aligned half plane, on a 2^-8 domain.
pub open spec fn axis_byte(a: i64, b: i64, c: i64) -> Result<u8, Seq<char>> {
    match half_plane_area_spec(HalfPlane { a, b, c }, FixedDomain { exponent: -8i16, min_raw: i32::MIN, max_raw: i32::MAX }, BoundaryOwner::LowerOrLeft) {
        Err(e) => Err("tile-boundary event oracle: "@ + numeric_error_name(e)),
        Ok(area) => if area.lo != area.hi {
            Err("tile-boundary event oracle is not exact: "@ + iv32_text(area))
        } else if area.lo < 0 || area.lo > 255 {
            Err("tile-boundary event oracle is not a byte: "@ + iv32_text(area))
        } else {
            Ok(area.lo as u8)
        },
    }
}

fn axis_coverage_byte(a: i64, b: i64, c: i64) -> (r: Result<u8, String>)
    ensures
        match axis_byte(a, b, c) {
            Ok(v) => r == Ok::<u8, String>(v),
            Err(m) => r matches Err(message) && message@ == m,
        },
{
    let area = match half_plane_area(
        HalfPlane { a, b, c },
        FixedDomain::full(-8),
        BoundaryOwner::LowerOrLeft,
    ) {
        Ok(area) => area,
        Err(error) => {
            let mut message = "tile-boundary event oracle: ".to_owned();
            message.append(error.describe().as_str());
            return Err(message);
        },
    };
    if area.lo != area.hi {
        let mut message = "tile-boundary event oracle is not exact: ".to_owned();
        message.append(iv32_debug(area).as_str());
        return Err(message);
    }
    if area.lo < 0 || area.lo > 255 {
        let mut message = "tile-boundary event oracle is not a byte: ".to_owned();
        message.append(iv32_debug(area).as_str());
        return Err(message);
    }
    Ok(area.lo as u8)
}

/// The fixture case names with exact event evidence.
pub open spec fn tile_boundary_case() -> Seq<char> {
    "check-pixels-tile-boundary"@
}

pub open spec fn material_edge_case() -> Seq<char> {
    "check-pixels-material-edge"@
}

/// The exact coverage byte the fixture `case` owes at event pixel `(x, y)`:
/// on the tile-boundary fixture, the product of the axis coverages at the
/// owned lanes; on the material-edge fixture, the half-plane coverage of
/// the diagonal lane; no exact byte for other fixtures.
pub open spec fn fixture_event_byte(case: Seq<char>, x: usize, y: usize) -> Result<
    Option<u8>,
    Seq<char>,
> {
    if case == tile_boundary_case() {
        let horizontal = y == 13 || y == 17;
        let vertical = x == 50 || x == 51 || x == 76 || x == 77;
        if !(13 <= y <= 17) || !(50 <= x <= 77) || (!horizontal && !vertical) {
            Err(
                "tile-boundary event evidence lies outside the exact owned lanes at ("@ + decimal(
                    x as nat,
                ) + ","@ + decimal(y as nat) + ")"@,
            )
        } else {
            let x_coverage: Result<u8, Seq<char>> = if x == 50 || x == 77 {
                axis_byte(-256i64, 0i64, 225i64)
            } else {
                Ok(255u8)
            };
            match x_coverage {
                Err(m) => Err(m),
                Ok(xc) => {
                    let y_coverage: Result<u8, Seq<char>> = if horizontal {
                        axis_byte(0i64, -256i64, 207i64)
                    } else {
                        Ok(255u8)
                    };
                    match y_coverage {
                        Err(m) => Err(m),
                        Ok(yc) => Ok(Some(((xc * yc + 127) / 255) as u8)),
                    }
                },
            }
        }
    } else if case != material_edge_case() {
        Ok(None)
    } else if x > i64::MAX {
        Err("material oracle x overflow"@)
    } else if y > i64::MAX {
        Err("material oracle y overflow"@)
    } else {
        let d = x - y - 16;
        if d != 0 && d != 1 {
            Err(
                "material event evidence lies outside the exact diagonal lanes at ("@
                    + decimal(x as nat) + ","@ + decimal(y as nat) + ")"@,
            )
        } else {
            let positive = HalfPlane { a: 32i64, b: -32i64, c: (32 * d - 11) as i64 };
            let selected = if d == 1 {
                positive
            } else {
                HalfPlane { a: -32i64, b: 32i64, c: (11 - 32 * d) as i64 }
            };
            let owner = if d == 1 {
                BoundaryOwner::LowerOrLeft
            } else {
                BoundaryOwner::UpperOrRight
            };
            match half_plane_byte_spec(selected, owner) {
                Ok(b) => Ok(Some(b)),
                Err(e) => Err("material event oracle: "@ + numeric_error_name(e)),
            }
        }
    }
}

fn position_text(prefix: &str, x: u64, y: u64) -> (r: String)
    ensures
        r@ == prefix@ + decimal(x as nat) + ","@ + decimal(y as nat) + ")"@,
{
    let mut message = prefix.to_owned();
    message.append(decimal_u64(x).as_str());
    message.append(",");
    message.append(decimal_u64(y).as_str());
    message.append(")");
    message
}

#[verifier::rlimit(40)]
pub fn exact_fixture_event_byte(case: &str, x: usize, y: usize) -> (r: Result<Option<u8>, String>)
    requires
        !(case@ == material_edge_case() && x <= i64::MAX && y <= i64::MAX && x - y - 16
            < i64::MIN),
    ensures
        match fixture_event_byte(case@, x, y) {
            Ok(v) => r == Ok::<Option<u8>, String>(v),
            Err(m) => r matches Err(message) && message@ == m,
        },
{
    let name = case.to_owned();
    if name == "check-pixels-tile-boundary".to_owned() {
        let horizontal_event = y == 13 || y == 17;
        let vertical_event = x == 50 || x == 51 || x == 76 || x == 77;
        if !(13 <= y && y <= 17) || !(50 <= x && x <= 77) || (!horizontal_event
            && !vertical_event) {
            return Err(
                position_text(
                    "tile-boundary event evidence lies outside the exact owned lanes at (",
                    x as u64,
                    y as u64,
                ),
            );
        }
        let x_coverage = if x == 50 || x == 77 {
            axis_coverage_byte(-256, 0, 225)?
        } else {
            255
        };
        let y_coverage = if horizontal_event {
            axis_coverage_byte(0, -256, 207)?
        } else {
            255
        };
        assert(x_coverage * y_coverage <= 255 * 255) by (nonlinear_arith)
            requires
                x_coverage <= 255,
                y_coverage <= 255,
        ;
        return Ok(Some(((x_coverage as u16 * y_coverage as u16 + 127) / 255) as u8));
    }
    if name != "check-pixels-material-edge".to_owned() {
        return Ok(None);
    }
    if x as u64 > i64::MAX as u64 {
        return Err("material oracle x overflow".to_owned());
    }
    if y as u64 > i64::MAX as u64 {
        return Err("material oracle y overflow".to_owned());
    }
    let xi = x as i64;
    let yi = y as i64;
    let d = xi - yi - 16;
    if d != 0 && d != 1 {
        return Err(
            position_text(
                "material event evidence lies outside the exact diagonal lanes at (",
                x as u64,
                y as u64,
            ),
        );
    }
    let positive = HalfPlane { a: 32, b: -32, c: 32 * d - 11 };
    let (selected, owner) = if d == 1 {
        (positive, BoundaryOwner::LowerOrLeft)
    } else {
        (HalfPlane { a: -positive.a, b: -positive.b, c: -positive.c }, BoundaryOwner::UpperOrRight)
    };
    match half_plane_byte(selected, owner) {
        Ok(b) => Ok(Some(b)),
        Err(error) => {
            let mut message = "material event oracle: ".to_owned();
            message.append(error.describe().as_str());
            Err(message)
        },
    }
}

} // verus!
