//! Compact raster records and deterministic BGRA scanout.
//!
//! Sweep certificates stay proof-rich; this module is the small boundary
//! between them and the raster loop: once a run is lowered, neither a feature
//! list nor a root-isolation stack is reachable.
use vstd::prelude::*;
use crate::fixed_q::{
    QRunScalar, center, fits_i32, fits_i64, q_after, dq_after, triangular, initial_width, lemma_step,
};
use crate::iv32::{
    FixedDomain, Iv32, NumericError, abs_int, max_int, min_int, min4, max4, f32_is_negative,
    f32_exponent_field, f32_fraction_field, f32_binary_exponent,
};
use crate::dyadic::{
    two_pow, lemma_two_pow_pos, lemma_two_pow_monotone, lemma_two_pow_adds, lemma_two_pow_values,
    top_bit_of, lemma_top_bit,
};
use crate::sweep::{CertifiedRun, IdentitySetId, QModel, SweepError, proof_owner_code};
use crate::binary32::{
    rne_shift, jam_shift, round_binary32, signed, abs_of, lemma_sum_alignment, lemma_round_scale,
    lemma_round_sticky, aligned_matches_exact,
};

verus! {

pub const TILE_WIDTH: usize = 64;

pub const TILE_HEIGHT: usize = 32;

pub const TILE_STRIDE: usize = TILE_WIDTH * 4;

pub const TILE_BYTES: usize = TILE_STRIDE * TILE_HEIGHT;

#[derive(Clone, Copy, Debug, Default, PartialEq, Eq, Structural)]
pub struct AffineRunSetup {
    pub value: i32,
    pub delta: i32,
    pub error_radius: i32,
}

/// Which proofs an output pixel carries, one bit each, with the proof
/// owner in the high nibble.
#[derive(Clone, Copy, Debug, Default, PartialEq, Eq, Structural)]
pub struct OutputProofCode(pub u8);

impl OutputProofCode {
    pub const GEOMETRY: u8 = 1;

    pub const IDENTITY: u8 = 2;

    pub const DEBUG_RGB: u8 = 4;

    pub const BACKGROUND: u8 = 8;

    pub open spec fn has(self, flag: u8) -> bool {
        self.0 & flag == flag
    }

    pub fn contains(self, flag: u8) -> (r: bool)
        ensures
            r == self.has(flag),
    {
        self.0 & flag == flag
    }
}

#[derive(Clone, Copy, Debug, PartialEq, Eq, Structural)]
pub struct RasterRun {
    pub x0: u16,
    pub x1: u16,
    pub q: QRunScalar,
    pub q_u: AffineRunSetup,
    pub q_v: AffineRunSetup,
    pub identity: IdentitySetId,
    pub material_summary: u32,
    pub light_summary: u32,
    pub proof_code: OutputProofCode,
    /// Debug-blue code of the source q width, taken before recentering.
    pub debug_q_width: u8,
}

#[derive(Clone, Copy, Debug, Default, PartialEq, Eq, Structural)]
pub struct EventPixel {
    pub x: u16,
    pub coverage: Iv32,
    pub front_run: u16,
    pub back_run: u16,
    pub first_event: u16,
    pub event_count: u16,
}

/// Byte offset of pixel `(x, y)` in a tile whose corner is `(tile_x, tile_y)`.
pub open spec fn pixel_offset(tile_x: u16, tile_y: u16, x: u16, y: u16) -> int {
    (y - tile_y) * TILE_STRIDE + (x - tile_x) * 4
}

/// The pixel lies at or right of and below the corner, inside the tile bytes.
pub open spec fn pixel_in_tile(tile_x: u16, tile_y: u16, x: u16, y: u16) -> bool {
    x >= tile_x && y >= tile_y && pixel_offset(tile_x, tile_y, x, y) + 4 <= TILE_BYTES
}

/// `bytes` with the four bytes at `at` replaced by `color`.
pub open spec fn put_pixel(bytes: Seq<u8>, at: int, color: Seq<u8>) -> Seq<u8> {
    Seq::new(bytes.len(), |i: int| if at <= i < at + 4 { color[i - at] } else { bytes[i] })
}

/// Writes one BGRA pixel; refused, with nothing written, outside the tile.
fn write_pixel(
    bytes: &mut [u8; TILE_BYTES],
    tile_x: u16,
    tile_y: u16,
    x: u16,
    y: u16,
    color: [u8; 4],
) -> (r: Result<(), SweepError>)
    ensures
        r is Ok <==> pixel_in_tile(tile_x, tile_y, x, y),
        r is Err ==> r == Err::<(), SweepError>(SweepError::InternalInvariant) && final(bytes)@
            == old(bytes)@,
        r is Ok ==> final(bytes)@ == put_pixel(
            old(bytes)@,
            pixel_offset(tile_x, tile_y, x, y),
            color@,
        ),
{
    if x < tile_x || y < tile_y {
        return Err(SweepError::InternalInvariant);
    }
    let local_x = (x - tile_x) as usize;
    let local_y = (y - tile_y) as usize;
    let offset = local_y * TILE_STRIDE + local_x * 4;
    if offset + 4 > TILE_BYTES {
        return Err(SweepError::InternalInvariant);
    }
    let ghost before = bytes@;
    bytes[offset] = color[0];
    bytes[offset + 1] = color[1];
    bytes[offset + 2] = color[2];
    bytes[offset + 3] = color[3];
    assert(bytes@ =~= put_pixel(before, offset as int, color@));
    Ok(())
}

/// Scales a channel by a coverage byte, rounding to nearest.
pub open spec fn scale_channel(channel: int, coverage: int) -> int {
    (channel * coverage + 127) / 255
}

/// The debug color of an identity: blue encodes the q width, green and red
/// the low identity bytes, all scaled by coverage; background is opaque black.
pub open spec fn identity_bgra(
    identity: IdentitySetId,
    proof: OutputProofCode,
    coverage: u8,
    q_width: u8,
) -> Seq<u8> {
    if proof.has(OutputProofCode::BACKGROUND) {
        seq![0u8, 0u8, 0u8, 255u8]
    } else {
        let blue = 129 + if q_width < 126 {
            q_width as int
        } else {
            126
        };
        seq![
            scale_channel(blue, coverage as int) as u8,
            scale_channel(identity.0 as int % 256, coverage as int) as u8,
            scale_channel((identity.0 as int / 256) % 256, coverage as int) as u8,
            255u8,
        ]
    }
}

fn scale_by_coverage(channel: u8, coverage: u8) -> (r: u8)
    ensures
        r == scale_channel(channel as int, coverage as int),
{
    assert(channel * coverage <= 255 * 255) by (nonlinear_arith)
        requires
            channel <= 255,
            coverage <= 255,
    ;
    ((channel as u16 * coverage as u16 + 127) / 255) as u8
}

pub fn debug_identity_bgra(
    identity: IdentitySetId,
    proof: OutputProofCode,
    coverage: u8,
    q_width: u8,
) -> (r: [u8; 4])
    ensures
        r@ == identity_bgra(identity, proof, coverage, q_width),
{
    if proof.contains(OutputProofCode::BACKGROUND) {
        let r = [0u8, 0u8, 0u8, 255u8];
        assert(r@ =~= identity_bgra(identity, proof, coverage, q_width));
        return r;
    }
    let width = if q_width < 126 {
        q_width
    } else {
        126
    };
    let low = (identity.0 % 256) as u8;
    let high = ((identity.0 / 256) % 256) as u8;
    let r = [
        scale_by_coverage(129 + width, coverage),
        scale_by_coverage(low, coverage),
        scale_by_coverage(high, coverage),
        255u8,
    ];
    assert(r@ =~= identity_bgra(identity, proof, coverage, q_width));
    r
}

/// The destination checks `validate_destination` makes, each as written:
/// the run is non-empty, the visible window is non-empty and inside one
/// tile, the row is visible and the run lies inside the visible columns.
pub open spec fn destination_ok(
    x0: u16,
    x1: u16,
    tile_x: u16,
    tile_y: u16,
    row: u16,
    visible_width: u16,
    visible_height: u16,
) -> bool {
    &&& x0 < x1
    &&& visible_width != 0
    &&& visible_height != 0
    &&& visible_width <= TILE_WIDTH
    &&& visible_height <= TILE_HEIGHT
    &&& row >= tile_y
    &&& row < tile_y + visible_height
    &&& x0 >= tile_x
    &&& x1 <= tile_x + visible_width
}

/// The destination checks reach a sum that leaves `u16`.
pub open spec fn destination_overflows(
    x0: u16,
    x1: u16,
    tile_x: u16,
    tile_y: u16,
    row: u16,
    visible_width: u16,
    visible_height: u16,
) -> bool {
    &&& x0 < x1
    &&& visible_width != 0
    &&& visible_height != 0
    &&& visible_width <= TILE_WIDTH
    &&& visible_height <= TILE_HEIGHT
    &&& row >= tile_y
    &&& (tile_y + visible_height > u16::MAX || (row < tile_y + visible_height && x0 >= tile_x
        && tile_x + visible_width > u16::MAX))
}

fn validate_destination(
    run: &RasterRun,
    tile_x: u16,
    tile_y: u16,
    row: u16,
    visible_width: u16,
    visible_height: u16,
) -> (r: Result<(), SweepError>)
    requires
        !destination_overflows(run.x0, run.x1, tile_x, tile_y, row, visible_width, visible_height),
    ensures
        r is Ok <==> destination_ok(
            run.x0,
            run.x1,
            tile_x,
            tile_y,
            row,
            visible_width,
            visible_height,
        ),
        r is Err ==> r == Err::<(), SweepError>(SweepError::InternalInvariant),
{
    if run.x0 >= run.x1 || visible_width == 0 || visible_height == 0 || visible_width as usize
        > TILE_WIDTH || visible_height as usize > TILE_HEIGHT || row < tile_y || row >= tile_y
        + visible_height || run.x0 < tile_x || run.x1 > tile_x + visible_width {
        return Err(SweepError::InternalInvariant);
    }
    Ok(())
}

/// Coverage byte of a raw coverage value in `[0, 256]`.
pub open spec fn encode_coverage(raw: int) -> int {
    (raw * 255 + 128) / 256
}

/// The one coverage byte an event interval encodes to: refused when the
/// interval leaves `[0, 256]` or is inverted, exhausted when its two ends
/// encode to different bytes.
pub open spec fn singleton_coverage(coverage: Iv32) -> Result<u8, SweepError> {
    if coverage.lo < 0 || coverage.hi > 256 || coverage.lo > coverage.hi {
        Err(SweepError::InternalInvariant)
    } else if encode_coverage(coverage.lo as int) != encode_coverage(coverage.hi as int) {
        Err(SweepError::CertificateExhausted)
    } else {
        Ok(encode_coverage(coverage.lo as int) as u8)
    }
}

pub fn singleton_coverage_byte(coverage: Iv32) -> (r: Result<u8, SweepError>)
    ensures
        r == singleton_coverage(coverage),
{
    if coverage.lo < 0 || coverage.hi > 256 || coverage.lo > coverage.hi {
        return Err(SweepError::InternalInvariant);
    }
    let lo = ((coverage.lo as u32 * 255 + 128) / 256) as u8;
    let hi = ((coverage.hi as u32 * 255 + 128) / 256) as u8;
    if lo != hi {
        return Err(SweepError::CertificateExhausted);
    }
    Ok(lo)
}

/// Front over back, weighted by the coverage byte, rounded to nearest.
pub open spec fn blend_channel(front: int, back: int, coverage: int) -> int {
    (front * coverage + back * (255 - coverage) + 127) / 255
}

pub open spec fn blend(front: [u8; 4], back: [u8; 4], coverage: u8) -> Seq<u8> {
    seq![
        blend_channel(front[0] as int, back[0] as int, coverage as int) as u8,
        blend_channel(front[1] as int, back[1] as int, coverage as int) as u8,
        blend_channel(front[2] as int, back[2] as int, coverage as int) as u8,
        255u8,
    ]
}

/// Blending puts the front color over the back color in proportion to the
/// coverage byte: each color channel, times 255, lies within rounding of
/// `front * c + back * (255 - c)`, so a coverage of 0 gives the back color,
/// a coverage of 255 the front color, and the result always lies between
/// the two; the pixel is opaque.
pub proof fn blend_mixes_front_over_back(front: [u8; 4], back: [u8; 4], c: u8, k: int)
    requires
        0 <= k < 3,
    ensures
        blend(front, back, c).len() == 4,
        blend(front, back, c)[3] == 255,
        -127 <= 255 * blend(front, back, c)[k] - (front[k] * c + back[k] * (255 - c)) <= 127,
        c == 0 ==> blend(front, back, c)[k] == back[k],
        c == 255 ==> blend(front, back, c)[k] == front[k],
        (front[k] <= back[k] ==> front[k] <= blend(front, back, c)[k] <= back[k]),
        (back[k] <= front[k] ==> back[k] <= blend(front, back, c)[k] <= front[k]),
{
    let (f, b, cv) = (front[k] as int, back[k] as int, c as int);
    let m = f * cv + b * (255 - cv);
    assert(0 <= m <= 255 * 255) by (nonlinear_arith)
        requires
            0 <= f <= 255,
            0 <= b <= 255,
            0 <= cv <= 255,
            m == f * cv + b * (255 - cv),
    ;
    let v = (m + 127) / 255;
    assert(0 <= v <= 255);
    assert(255 * v <= m + 127 && m + 127 < 255 * v + 255);
    assert(blend_channel(f, b, cv) == v);
    assert(blend(front, back, c)[k] == v as u8) by {
        if k == 0 {
        } else if k == 1 {
        } else {
        }
    }
    assert(v as u8 == v);
    if f <= b {
        assert(255 * f <= m <= 255 * b) by (nonlinear_arith)
            requires
                0 <= cv <= 255,
                f <= b,
                m == f * cv + b * (255 - cv),
        ;
    } else {
        assert(255 * b <= m <= 255 * f) by (nonlinear_arith)
            requires
                0 <= cv <= 255,
                b < f,
                m == f * cv + b * (255 - cv),
        ;
    }
    if cv == 0 {
        assert(m == 255 * b) by (nonlinear_arith)
            requires
                cv == 0,
                m == f * cv + b * (255 - cv),
        ;
    }
    if cv == 255 {
        assert(m == 255 * f) by (nonlinear_arith)
            requires
                cv == 255,
                m == f * cv + b * (255 - cv),
        ;
    }
}

/// The event names a non-empty, strictly increasing slice of the arena.
pub open spec fn event_references_ok(event: EventPixel, arena: Seq<u16>) -> bool {
    &&& event.first_event + event.event_count <= arena.len()
    &&& forall|i: int|
        event.first_event <= i < event.first_event + event.event_count - 1 ==> #[trigger] arena[i]
            < arena[i + 1]
}

fn blend_by_coverage(front: u8, back: u8, coverage: u8) -> (r: u8)
    ensures
        r == blend_channel(front as int, back as int, coverage as int),
{
    assert(front * coverage + back * (255 - coverage) <= 255 * 255) by (nonlinear_arith)
        requires
            front <= 255,
            back <= 255,
            coverage <= 255,
    ;
    let numerator = front as u32 * coverage as u32 + back as u32 * (255 - coverage as u32);
    ((numerator + 127) / 255) as u8
}

/// Blends a certified event pixel into the tile: the event must name a
/// non-empty, strictly increasing run of arena entries inside the visible
/// columns, and its coverage interval must encode to a single byte.
#[verifier::rlimit(30)]
pub fn raster_event_pixel(
    event: EventPixel,
    event_arena: &[u16],
    tile_x: u16,
    tile_y: u16,
    row: u16,
    visible_width: u16,
    visible_height: u16,
    front: [u8; 4],
    back: [u8; 4],
    bytes: &mut [u8; TILE_BYTES],
) -> (r: Result<(), SweepError>)
    requires
        !(event.event_count != 0 && event.x >= tile_x && tile_x + visible_width > u16::MAX),
        !(event.event_count != 0 && event.x >= tile_x && event.x < tile_x + visible_width
            && event_references_ok(event, event_arena@) && singleton_coverage(event.coverage) is Ok
            && row >= tile_y && tile_y + visible_height > u16::MAX),
    ensures
        ({
            let placed = event.event_count != 0 && event.x >= tile_x && event.x < tile_x
                + visible_width;
            let covered = singleton_coverage(event.coverage);
            if !placed || !event_references_ok(event, event_arena@) {
                r == Err::<(), SweepError>(SweepError::InternalInvariant)
            } else if covered is Err {
                r == Err::<(), SweepError>(covered->Err_0)
            } else if row < tile_y || row >= tile_y + visible_height || !pixel_in_tile(
                tile_x,
                tile_y,
                event.x,
                row,
            ) {
                r == Err::<(), SweepError>(SweepError::InternalInvariant)
            } else {
                r is Ok && final(bytes)@ == put_pixel(
                    old(bytes)@,
                    pixel_offset(tile_x, tile_y, event.x, row),
                    blend(front, back, covered->Ok_0),
                )
            }
        }),
        r is Err ==> final(bytes)@ == old(bytes)@,
{
    if event.event_count == 0 || event.x < tile_x || event.x >= tile_x + visible_width {
        return Err(SweepError::InternalInvariant);
    }
    let first = event.first_event as usize;
    let end = first + event.event_count as usize;
    if end > event_arena.len() {
        return Err(SweepError::InternalInvariant);
    }
    let mut i = first;
    while i + 1 < end
        invariant
            first <= i,
            i < end <= event_arena@.len(),
            first == event.first_event,
            end == event.first_event + event.event_count,
            forall|k: int| first <= k < i ==> #[trigger] event_arena@[k] < event_arena@[k + 1],
        decreases end - i,
    {
        if event_arena[i] >= event_arena[i + 1] {
            return Err(SweepError::InternalInvariant);
        }
        i = i + 1;
    }
    let coverage = singleton_coverage_byte(event.coverage)?;
    let color = [
        blend_by_coverage(front[0], back[0], coverage),
        blend_by_coverage(front[1], back[1], coverage),
        blend_by_coverage(front[2], back[2], coverage),
        255u8,
    ];
    assert(color@ =~= blend(front, back, coverage));
    if row < tile_y || row >= tile_y + visible_height {
        return Err(SweepError::InternalInvariant);
    }
    write_pixel(bytes, tile_x, tile_y, event.x, row, color)
}

#[derive(Clone, Debug, PartialEq, Eq)]
pub struct ScanoutTile {
    pub id: u32,
    pub x: u16,
    pub y: u16,
    pub width: u16,
    pub height: u16,
    pub bytes: [u8; TILE_BYTES],
}

/// Byte `i` of a tile lies outside its `width` by `height` visible window.
pub open spec fn is_padding(width: u16, height: u16, i: int) -> bool {
    i / (TILE_STRIDE as int) >= height || (i % (TILE_STRIDE as int)) / 4 >= width
}

impl ScanoutTile {
    /// A zeroed tile with a non-empty visible window inside one tile.
    pub fn new(id: u32, x: u16, y: u16, width: u16, height: u16) -> (r: Result<Self, SweepError>)
        ensures
            width == 0 || height == 0 || width > TILE_WIDTH || height > TILE_HEIGHT ==> r == Err::<
                Self,
                SweepError,
            >(SweepError::InternalInvariant),
            r matches Ok(tile) ==> tile.id == id && tile.x == x && tile.y == y && tile.width == width
                && tile.height == height && forall|i: int| 0 <= i < TILE_BYTES ==> #[trigger] tile.bytes@[i]
                == 0,
            !(width == 0 || height == 0 || width > TILE_WIDTH || height > TILE_HEIGHT) ==> r is Ok,
    {
        if width == 0 || height == 0 || width as usize > TILE_WIDTH || height as usize
            > TILE_HEIGHT {
            return Err(SweepError::InternalInvariant);
        }
        Ok(ScanoutTile { id, x, y, width, height, bytes: [0u8; 8192] })
    }

    /// Every byte outside the visible window is zero.
    pub fn padding_is_zero(&self) -> (r: bool)
        ensures
            r <==> forall|i: int|
                0 <= i < TILE_BYTES && is_padding(self.width, self.height, i) ==> #[trigger] self.bytes@[i]
                    == 0,
    {
        let mut row: usize = 0;
        while row < TILE_HEIGHT
            invariant
                row <= TILE_HEIGHT,
                forall|i: int|
                    0 <= i < row * TILE_STRIDE && is_padding(self.width, self.height, i)
                        ==> #[trigger] self.bytes@[i] == 0,
            decreases TILE_HEIGHT - row,
        {
            let mut column: usize = 0;
            while column < TILE_WIDTH
                invariant
                    row < TILE_HEIGHT,
                    column <= TILE_WIDTH,
                    forall|i: int|
                        0 <= i < row * TILE_STRIDE + column * 4 && is_padding(
                            self.width,
                            self.height,
                            i,
                        ) ==> #[trigger] self.bytes@[i] == 0,
                decreases TILE_WIDTH - column,
            {
                let at = row * TILE_STRIDE + column * 4;
                proof {
                    assert forall|k: int| at <= k < at + 4 implies #[trigger] is_padding(
                        self.width,
                        self.height,
                        k,
                    ) == !(row < self.height && column < self.width) by {
                        let j = k - at;
                        assert(k / 256 == row as int && k % 256 == column * 4 + j)
                            by (nonlinear_arith)
                            requires
                                k == row * 256 + column * 4 + j,
                                0 <= j < 4,
                                0 <= column < 64,
                                row >= 0,
                        ;
                        assert((column * 4 + j) / 4 == column as int) by (nonlinear_arith)
                            requires
                                0 <= j < 4,
                                column >= 0,
                        ;
                    }
                }
                if !(row < self.height as usize && column < self.width as usize) {
                    if self.bytes[at] != 0 || self.bytes[at + 1] != 0 || self.bytes[at + 2] != 0
                        || self.bytes[at + 3] != 0 {
                        proof {
                            assert(is_padding(self.width, self.height, at as int));
                            assert(is_padding(self.width, self.height, at + 1));
                            assert(is_padding(self.width, self.height, at + 2));
                            assert(is_padding(self.width, self.height, at + 3));
                        }
                        return false;
                    }
                }
                column = column + 1;
            }
            row = row + 1;
        }
        true
    }
}

#[derive(Clone, Copy, Debug, PartialEq, Eq, Structural)]
pub enum GenerationOwner {
    Available,
    Workers,
    Display,
}

/// Two tile generations: the workers draw the back one while the display
/// shows the front one; a presented frame swaps them.
#[derive(Debug, PartialEq, Eq)]
pub struct TilePool {
    owners: [GenerationOwner; 2],
    front: Option<u8>,
    back: u8,
    next_sequence: u64,
}

impl TilePool {
    /// The back generation is the workers'; a front generation, once there
    /// is one, is the other one and the display's.
    #[verifier::type_invariant]
    closed spec fn well_formed(self) -> bool {
        &&& self.back < 2
        &&& self.owners[self.back as int] == GenerationOwner::Workers
        &&& self.front matches Some(f) ==> (f < 2 && f != self.back && self.owners[f as int]
            == GenerationOwner::Display)
    }

    pub closed spec fn front_generation(self) -> Option<u8> {
        self.front
    }

    pub closed spec fn back_generation(self) -> u8 {
        self.back
    }

    pub closed spec fn sequence(self) -> u64 {
        self.next_sequence
    }

    pub closed spec fn owner(self, generation: int) -> GenerationOwner {
        self.owners[generation]
    }

    pub fn front(&self) -> (r: Option<u8>)
        ensures
            r == self.front_generation(),
    {
        self.front
    }

    pub fn back(&self) -> (r: u8)
        ensures
            r == self.back_generation(),
    {
        self.back
    }

    pub fn next_sequence(&self) -> (r: u64)
        ensures
            r == self.sequence(),
    {
        self.next_sequence
    }

    /// A failed frame keeps the front generation on display; the back one
    /// stays with the workers, who overwrite it on the next attempt.
    pub fn fail_frame(&mut self) -> (r: Result<(), SweepError>)
        ensures
            r is Ok,
            *final(self) == *old(self),
    {
        proof {
            use_type_invariant(&*self);
        }
        if self.owners[self.back as usize] != GenerationOwner::Workers {
            return Err(SweepError::InternalInvariant);
        }
        Ok(())
    }

    /// Hands the presented back generation to the display and gives the
    /// previous front (or, the first time, the other generation) to the
    /// workers; only the back generation, at the expected sequence number,
    /// can be presented.
    pub fn present_succeeded(&mut self, generation: u8, sequence: u64) -> (r: Result<(), SweepError>)
        ensures
            generation != old(self).back_generation() || sequence != old(self).sequence() ==> r
                == Err::<(), SweepError>(SweepError::InternalInvariant) && *final(self)
                == *old(self),
            generation == old(self).back_generation() && sequence == old(self).sequence() ==> {
                let back = match old(self).front_generation() {
                    Some(f) => f,
                    None => (1 - generation) as u8,
                };
                &&& final(self).front_generation() == Some(generation)
                &&& final(self).back_generation() == back
                &&& final(self).owner(generation as int) == GenerationOwner::Display
                &&& final(self).owner(back as int) == GenerationOwner::Workers
                &&& sequence < u64::MAX ==> r is Ok && final(self).sequence() == sequence + 1
                &&& sequence == u64::MAX ==> r == Err::<(), SweepError>(
                    SweepError::CapacityExceeded,
                ) && final(self).sequence() == sequence
            },
    {
        proof {
            use_type_invariant(&*self);
        }
        if generation != self.back || sequence != self.next_sequence
            || self.owners[generation as usize] != GenerationOwner::Workers {
            return Err(SweepError::InternalInvariant);
        }
        let mut owners = self.owners;
        let back = match self.front {
            Some(front) => front,
            None => 1 - generation,
        };
        owners[back as usize] = GenerationOwner::Workers;
        owners[generation as usize] = GenerationOwner::Display;
        let next = self.next_sequence.checked_add(1);
        let next_sequence = match next {
            Some(v) => v,
            None => self.next_sequence,
        };
        *self = TilePool { owners, front: Some(generation), back, next_sequence };
        match next {
            Some(_) => Ok(()),
            None => Err(SweepError::CapacityExceeded),
        }
    }
}

impl Clone for TilePool {
    fn clone(&self) -> (r: Self)
        ensures
            r == *self,
    {
        proof {
            use_type_invariant(self);
        }
        TilePool {
            owners: self.owners,
            front: self.front,
            back: self.back,
            next_sequence: self.next_sequence,
        }
    }
}

impl Default for TilePool {
    fn default() -> (r: Self)
        ensures
            r.front_generation() is None,
            r.back_generation() == 1,
            r.sequence() == 0,
            r.owner(0) == GenerationOwner::Available,
            r.owner(1) == GenerationOwner::Workers,
    {
        TilePool {
            owners: [GenerationOwner::Available, GenerationOwner::Workers],
            front: None,
            back: 1,
            next_sequence: 0,
        }
    }
}

/// How a numeric failure surfaces to the sweep.
pub open spec fn numeric_to_sweep(error: NumericError) -> SweepError {
    match error {
        NumericError::CapacityExceeded => SweepError::CapacityExceeded,
        NumericError::Overflow | NumericError::NonFinite => SweepError::NumericFailure,
        _ => SweepError::CertificateExhausted,
    }
}

fn map_numeric(error: NumericError) -> (r: SweepError)
    ensures
        r == numeric_to_sweep(error),
{
    match error {
        NumericError::CapacityExceeded => SweepError::CapacityExceeded,
        NumericError::Overflow | NumericError::NonFinite => SweepError::NumericFailure,
        _ => SweepError::CertificateExhausted,
    }
}

/// Largest endpoint magnitude of an interval, when it fits an `i32`.
pub open spec fn abs_max(value: Iv32) -> Result<i32, SweepError> {
    let m = max_int(abs_int(value.lo as int), abs_int(value.hi as int));
    if m > i32::MAX {
        Err(SweepError::NumericFailure)
    } else {
        Ok(m as i32)
    }
}

fn interval_abs_max(value: Iv32) -> (r: Result<i32, SweepError>)
    ensures
        r == abs_max(value),
{
    let lo: i64 = if value.lo < 0 {
        -(value.lo as i64)
    } else {
        value.lo as i64
    };
    let hi: i64 = if value.hi < 0 {
        -(value.hi as i64)
    } else {
        value.hi as i64
    };
    let m = if lo >= hi {
        lo
    } else {
        hi
    };
    if m > i32::MAX as i64 {
        return Err(SweepError::NumericFailure);
    }
    Ok(m as i32)
}

/// An interval as a constant affine value: its floor midpoint and the
/// radius reaching both endpoints.
pub open spec fn affine_of(value: Iv32) -> Result<AffineRunSetup, SweepError> {
    let c = center(value);
    let radius = max_int(abs_int(value.lo - c), abs_int(value.hi - c));
    if !fits_i32(c) || radius > i32::MAX {
        Err(SweepError::NumericFailure)
    } else {
        Ok(AffineRunSetup { value: c as i32, delta: 0, error_radius: radius as i32 })
    }
}

fn affine_from_interval(value: Iv32) -> (r: Result<AffineRunSetup, SweepError>)
    ensures
        r == affine_of(value),
{
    let span: i64 = value.hi as i64 - value.lo as i64;
    let half: i64 = if span >= 0 {
        span / 2
    } else {
        -((-span + 1) / 2)
    };
    assert(half == span / 2);
    let c: i64 = value.lo as i64 + half;
    if c < i32::MIN as i64 || c > i32::MAX as i64 {
        return Err(SweepError::NumericFailure);
    }
    let below: i64 = value.lo as i64 - c;
    let above: i64 = value.hi as i64 - c;
    let below_abs: i64 = if below < 0 {
        -below
    } else {
        below
    };
    let above_abs: i64 = if above < 0 {
        -above
    } else {
        above
    };
    let radius = if below_abs >= above_abs {
        below_abs
    } else {
        above_abs
    };
    if radius > i32::MAX as i64 {
        return Err(SweepError::NumericFailure);
    }
    Ok(AffineRunSetup { value: c as i32, delta: 0, error_radius: radius as i32 })
}

/// Debug class of the source q width including the model error, capped at 126.
pub open spec fn q_width_class(q: Iv32, error: Iv32) -> Result<u8, SweepError> {
    let lo = q.lo + error.lo;
    let hi = q.hi + error.hi;
    if hi < lo {
        Err(SweepError::InternalInvariant)
    } else if hi - lo < 126 {
        Ok((hi - lo) as u8)
    } else {
        Ok(126u8)
    }
}

fn source_q_width_class(q: Iv32, error: Iv32) -> (r: Result<u8, SweepError>)
    ensures
        r == q_width_class(q, error),
{
    let lo: i64 = q.lo as i64 + error.lo as i64;
    let hi: i64 = q.hi as i64 + error.hi as i64;
    if hi < lo {
        return Err(SweepError::InternalInvariant);
    }
    let width = hi - lo;
    if width < 126 {
        Ok(width as u8)
    } else {
        Ok(126)
    }
}

pub open spec fn is_power_of_two(v: int) -> bool {
    v == 1 || v == 2 || v == 4 || v == 8 || v == 16 || v == 32 || v == 64 || v == 128
}

fn power_of_two(v: u8) -> (r: bool)
    ensures
        r == is_power_of_two(v as int),
{
    v == 1 || v == 2 || v == 4 || v == 8 || v == 16 || v == 32 || v == 64 || v == 128
}

/// Proof code of a lowered run: geometry, identity and debug color, and the
/// background bit for a run that shows nothing.
pub open spec fn lowered_proof_code(visible: bool) -> u8 {
    if visible {
        7
    } else {
        15
    }
}

/// What lowering a certified run gives: the checks in the order they are
/// made, then the compact record.
pub open spec fn lowered(
    run: CertifiedRun,
    domain: FixedDomain,
    material_summary: u32,
    light_summary: u32,
) -> Result<RasterRun, SweepError> {
    if run.x0 >= run.x1 || run.event_left is Some || run.event_right is Some {
        Err(SweepError::InternalInvariant)
    } else if run.x1 - run.x0 > 255 {
        Err(SweepError::CapacityExceeded)
    } else {
        match abs_max(run.q_error) {
            Err(e) => Err(e),
            Ok(error_radius) => match QRunScalar::spec_setup(
                run.q_model.q0,
                run.q_model.qx,
                run.q_model.qxx,
                domain,
                (run.x1 - run.x0) as u8,
                error_radius,
            ) {
                Err(e) => Err(numeric_to_sweep(e)),
                Ok((width, radius)) => if width == 0 || width > 64 || !is_power_of_two(width)
                    || width < run.x1 - run.x0 {
                    Err(SweepError::CertificateExhausted)
                } else {
                    match affine_of(run.q_u) {
                        Err(e) => Err(e),
                        Ok(q_u) => match affine_of(run.q_v) {
                            Err(e) => Err(e),
                            Ok(q_v) => match q_width_class(run.q_model.q0, run.q_error) {
                                Err(e) => Err(e),
                                Ok(class) => Ok(
                                    RasterRun {
                                        x0: run.x0,
                                        x1: run.x1,
                                        q: QRunScalar {
                                            q: center(run.q_model.q0) as i32,
                                            dq: center(run.q_model.qx) as i32,
                                            ddq: center(run.q_model.qxx) as i32,
                                            domain,
                                            error_radius: radius as i32,
                                            microtile_width: width as u8,
                                            step: 0,
                                        },
                                        q_u,
                                        q_v,
                                        identity: run.identity,
                                        material_summary,
                                        light_summary,
                                        proof_code: OutputProofCode(
                                            lowered_proof_code(run.visible is Some),
                                        ),
                                        debug_q_width: class,
                                    },
                                ),
                            },
                        },
                    }
                },
            },
        }
    }
}

/// Lowers a certified run that fits one microtile to its compact raster
/// record; runs wider than the certified microtile must be split first.
pub fn lower_certified_run(
    run: CertifiedRun,
    domain: FixedDomain,
    material_summary: u32,
    light_summary: u32,
) -> (r: Result<RasterRun, SweepError>)
    ensures
        r == lowered(run, domain, material_summary, light_summary),
{
    if run.x0 >= run.x1 || run.event_left.is_some() || run.event_right.is_some() {
        return Err(SweepError::InternalInvariant);
    }
    let span = run.x1 - run.x0;
    if span > 255 {
        return Err(SweepError::CapacityExceeded);
    }
    let error_radius = interval_abs_max(run.q_error)?;
    let q = match crate::fixed_q::setup(
        run.q_model.q0,
        run.q_model.qx,
        run.q_model.qxx,
        domain,
        span as u8,
        error_radius,
    ) {
        Ok(q) => q,
        Err(e) => return Err(map_numeric(e)),
    };
    if q.microtile_width == 0 || q.microtile_width > 64 || !power_of_two(q.microtile_width)
        || (q.microtile_width as u16) < span {
        return Err(SweepError::CertificateExhausted);
    }
    let mut proof = OutputProofCode::GEOMETRY | OutputProofCode::IDENTITY;
    assert(proof == 3) by (bit_vector)
        requires
            proof == 1u8 | 2u8,
    ;
    if run.visible.is_some() {
        proof = proof | OutputProofCode::DEBUG_RGB;
        assert(proof == 7) by (bit_vector)
            requires
                proof == 3u8 | 4u8,
        ;
    } else {
        proof = proof | OutputProofCode::BACKGROUND | OutputProofCode::DEBUG_RGB;
        assert(proof == 15) by (bit_vector)
            requires
                proof == 3u8 | 8u8 | 4u8,
        ;
    }
    let owner = proof_owner_code(run.proof_owner);
    let before = proof;
    proof = proof | (owner << 4u8);
    assert(proof == before) by (bit_vector)
        requires
            owner == 0,
            proof == before | (owner << 4u8),
    ;
    let q_u = affine_from_interval(run.q_u)?;
    let q_v = affine_from_interval(run.q_v)?;
    let debug_q_width = source_q_width_class(run.q_model.q0, run.q_error)?;
    Ok(
        RasterRun {
            x0: run.x0,
            x1: run.x1,
            q,
            q_u,
            q_v,
            identity: run.identity,
            material_summary,
            light_summary,
            proof_code: OutputProofCode(proof),
            debug_q_width,
        },
    )
}

/// `a + offset b + tri c`: one corner of a quadratic coefficient box
/// carried `offset` columns along.
pub open spec fn endpoint(a: int, b: int, c: int, offset: int, tri: int) -> int {
    a + offset * b + tri * c
}

/// `offset (offset - 1) / 2`, the second-difference weight after `offset` columns.
pub open spec fn piece_tri(offset: int) -> int {
    offset * (if offset > 0 {
        offset - 1
    } else {
        0
    }) / 2
}

/// The value interval of a model carried `offset` columns along: the hull
/// of its eight corners, each of which must fit an `i32`.
pub open spec fn carried_value(model: QModel, offset: int) -> Option<Iv32> {
    let t = piece_tri(offset);
    let (a, b, c) = (model.q0, model.qx, model.qxx);
    let e0 = endpoint(a.lo as int, b.lo as int, c.lo as int, offset, t);
    let e1 = endpoint(a.lo as int, b.lo as int, c.hi as int, offset, t);
    let e2 = endpoint(a.lo as int, b.hi as int, c.lo as int, offset, t);
    let e3 = endpoint(a.lo as int, b.hi as int, c.hi as int, offset, t);
    let e4 = endpoint(a.hi as int, b.lo as int, c.lo as int, offset, t);
    let e5 = endpoint(a.hi as int, b.lo as int, c.hi as int, offset, t);
    let e6 = endpoint(a.hi as int, b.hi as int, c.lo as int, offset, t);
    let e7 = endpoint(a.hi as int, b.hi as int, c.hi as int, offset, t);
    if fits_i32(e0) && fits_i32(e1) && fits_i32(e2) && fits_i32(e3) && fits_i32(e4) && fits_i32(e5)
        && fits_i32(e6) && fits_i32(e7) {
        Some(
            Iv32 {
                lo: min_int(min4(e0, e1, e2, e3), min4(e4, e5, e6, e7)) as i32,
                hi: max_int(max4(e0, e1, e2, e3), max4(e4, e5, e6, e7)) as i32,
            },
        )
    } else {
        None
    }
}

/// The first-difference interval of a model carried `offset` columns along.
pub open spec fn carried_delta(model: QModel, offset: int) -> Option<Iv32> {
    let (b, c) = (model.qx, model.qxx);
    let v0 = b.lo + offset * c.lo;
    let v1 = b.lo + offset * c.hi;
    let v2 = b.hi + offset * c.lo;
    let v3 = b.hi + offset * c.hi;
    let lo = min4(v0, v1, v2, v3);
    let hi = max4(v0, v1, v2, v3);
    if fits_i32(lo) && fits_i32(hi) {
        Some(Iv32 { lo: lo as i32, hi: hi as i32 })
    } else {
        None
    }
}

/// Lowering of the piece of `run` that starts at column `x`: as wide as the
/// largest power of two not above the rest of the run (at most 32), with
/// its models carried to `x`, and the debug width class of the whole run.
pub open spec fn lowered_piece(
    run: CertifiedRun,
    x: int,
    domain: FixedDomain,
    material_summary: u32,
    light_summary: u32,
) -> Result<RasterRun, SweepError> {
    let offset = x - run.x0;
    match carried_value(run.q_model, offset) {
        None => Err(SweepError::NumericFailure),
        Some(q0) => match carried_delta(run.q_model, offset) {
            None => Err(SweepError::NumericFailure),
            Some(qx) => {
                let piece = CertifiedRun {
                    x0: x as u16,
                    x1: (x + initial_width(run.x1 - x)) as u16,
                    q_model: QModel { q0, qx, qxx: run.q_model.qxx },
                    ..run
                };
                match lowered(piece, domain, material_summary, light_summary) {
                    Err(e) => Err(e),
                    Ok(record) => match q_width_class(run.q_model.q0, run.q_error) {
                        Err(e) => Err(e),
                        Ok(class) => Ok(RasterRun { debug_q_width: class, ..record }),
                    },
                }
            },
        },
    }
}

/// The records of `run` from column `x` on, piece by piece, into at most
/// `capacity` slots; the first failing piece, or the first piece without a
/// slot, ends it.
pub open spec fn split_records(
    run: CertifiedRun,
    domain: FixedDomain,
    material_summary: u32,
    light_summary: u32,
    x: int,
    capacity: int,
) -> Result<Seq<RasterRun>, SweepError>
    decreases run.x1 - x,
{
    if x >= run.x1 {
        Ok(Seq::empty())
    } else {
        match lowered_piece(run, x, domain, material_summary, light_summary) {
            Err(e) => Err(e),
            Ok(record) => if capacity <= 0 {
                Err(SweepError::CapacityExceeded)
            } else {
                match split_records(
                    run,
                    domain,
                    material_summary,
                    light_summary,
                    x + initial_width(run.x1 - x),
                    capacity - 1,
                ) {
                    Err(e) => Err(e),
                    Ok(rest) => Ok(seq![record] + rest),
                }
            },
        }
    }
}

pub open spec fn after_records(
    done: Seq<RasterRun>,
    rest: Result<Seq<RasterRun>, SweepError>,
) -> Result<Seq<RasterRun>, SweepError> {
    match rest {
        Err(e) => Err(e),
        Ok(s) => Ok(done + s),
    }
}

fn carry_endpoint(a: i32, b: i32, c: i32, offset: i64, tri: i64) -> (r: Option<i32>)
    requires
        0 <= offset <= 65535,
        0 <= tri <= 65535 * 65535,
    ensures
        r == (if fits_i32(endpoint(a as int, b as int, c as int, offset as int, tri as int)) {
            Some(endpoint(a as int, b as int, c as int, offset as int, tri as int) as i32)
        } else {
            None
        }),
{
    proof {
        assert(-65535 * 0x8000_0000 <= offset * b <= 65535 * 0x8000_0000) by (nonlinear_arith)
            requires
                0 <= offset <= 65535,
                -0x8000_0000 <= b < 0x8000_0000,
        ;
        assert(-65535 * 65535 * 0x8000_0000 <= tri * c <= 65535 * 65535 * 0x8000_0000)
            by (nonlinear_arith)
            requires
                0 <= tri <= 65535 * 65535,
                -0x8000_0000 <= c < 0x8000_0000,
        ;
    }
    let v: i64 = a as i64 + offset * b as i64 + tri * c as i64;
    if v < i32::MIN as i64 || v > i32::MAX as i64 {
        None
    } else {
        Some(v as i32)
    }
}

fn low_of(a: i32, b: i32) -> (r: i32)
    ensures
        r == min_int(a as int, b as int),
{
    if a <= b {
        a
    } else {
        b
    }
}

fn high_of(a: i32, b: i32) -> (r: i32)
    ensures
        r == max_int(a as int, b as int),
{
    if a >= b {
        a
    } else {
        b
    }
}

fn carry_value(model: QModel, offset: i64, tri: i64) -> (r: Option<Iv32>)
    requires
        0 <= offset <= 65535,
        tri == piece_tri(offset as int),
    ensures
        r == carried_value(model, offset as int),
{
    proof {
        assert(0 <= piece_tri(offset as int) <= 65535 * 65535) by (nonlinear_arith)
            requires
                0 <= offset <= 65535,
                piece_tri(offset as int) == offset * (if offset > 0 {
                    offset - 1
                } else {
                    0
                }) / 2,
        ;
    }
    let (a, b, c) = (model.q0, model.qx, model.qxx);
    let e0 = match carry_endpoint(a.lo, b.lo, c.lo, offset, tri) {
        Some(v) => v,
        None => return None,
    };
    let e1 = match carry_endpoint(a.lo, b.lo, c.hi, offset, tri) {
        Some(v) => v,
        None => return None,
    };
    let e2 = match carry_endpoint(a.lo, b.hi, c.lo, offset, tri) {
        Some(v) => v,
        None => return None,
    };
    let e3 = match carry_endpoint(a.lo, b.hi, c.hi, offset, tri) {
        Some(v) => v,
        None => return None,
    };
    let e4 = match carry_endpoint(a.hi, b.lo, c.lo, offset, tri) {
        Some(v) => v,
        None => return None,
    };
    let e5 = match carry_endpoint(a.hi, b.lo, c.hi, offset, tri) {
        Some(v) => v,
        None => return None,
    };
    let e6 = match carry_endpoint(a.hi, b.hi, c.lo, offset, tri) {
        Some(v) => v,
        None => return None,
    };
    let e7 = match carry_endpoint(a.hi, b.hi, c.hi, offset, tri) {
        Some(v) => v,
        None => return None,
    };
    let lo = low_of(low_of(low_of(e0, e1), low_of(e2, e3)), low_of(low_of(e4, e5), low_of(e6, e7)));
    let hi = high_of(
        high_of(high_of(e0, e1), high_of(e2, e3)),
        high_of(high_of(e4, e5), high_of(e6, e7)),
    );
    Some(Iv32 { lo, hi })
}

fn carry_delta(model: QModel, offset: i64) -> (r: Option<Iv32>)
    requires
        0 <= offset <= 65535,
    ensures
        r == carried_delta(model, offset as int),
{
    let (b, c) = (model.qx, model.qxx);
    proof {
        assert(-65535 * 0x8000_0000 <= offset * c.lo <= 65535 * 0x8000_0000) by (nonlinear_arith)
            requires
                0 <= offset <= 65535,
                -0x8000_0000 <= c.lo < 0x8000_0000,
        ;
        assert(-65535 * 0x8000_0000 <= offset * c.hi <= 65535 * 0x8000_0000) by (nonlinear_arith)
            requires
                0 <= offset <= 65535,
                -0x8000_0000 <= c.hi < 0x8000_0000,
        ;
    }
    let v0: i64 = b.lo as i64 + offset * c.lo as i64;
    let v1: i64 = b.lo as i64 + offset * c.hi as i64;
    let v2: i64 = b.hi as i64 + offset * c.lo as i64;
    let v3: i64 = b.hi as i64 + offset * c.hi as i64;
    let lo = {
        let p = if v0 <= v1 {
            v0
        } else {
            v1
        };
        let q = if v2 <= v3 {
            v2
        } else {
            v3
        };
        if p <= q {
            p
        } else {
            q
        }
    };
    let hi = {
        let p = if v0 >= v1 {
            v0
        } else {
            v1
        };
        let q = if v2 >= v3 {
            v2
        } else {
            v3
        };
        if p >= q {
            p
        } else {
            q
        }
    };
    if lo < i32::MIN as i64 || lo > i32::MAX as i64 || hi < i32::MIN as i64 || hi > i32::MAX as i64 {
        return None;
    }
    Some(Iv32 { lo: lo as i32, hi: hi as i32 })
}

fn piece_width(remaining: u16) -> (r: u16)
    requires
        remaining >= 1,
    ensures
        r == initial_width(remaining as int),
        1 <= r <= remaining,
{
    if remaining >= 32 {
        32
    } else if remaining >= 16 {
        16
    } else if remaining >= 8 {
        8
    } else if remaining >= 4 {
        4
    } else if remaining >= 2 {
        2
    } else {
        1
    }
}

fn lower_piece(
    run: CertifiedRun,
    x0: u16,
    width: u16,
    domain: FixedDomain,
    material_summary: u32,
    light_summary: u32,
) -> (r: Result<RasterRun, SweepError>)
    requires
        run.x0 <= x0 < run.x1,
        width == initial_width(run.x1 - x0),
        1 <= width <= run.x1 - x0,
    ensures
        r == lowered_piece(run, x0 as int, domain, material_summary, light_summary),
{
    let offset: i64 = (x0 - run.x0) as i64;
    let previous: i64 = if offset > 0 {
        offset - 1
    } else {
        0
    };
    assert(offset * previous <= 65535 * 65535) by (nonlinear_arith)
        requires
            0 <= offset <= 65535,
            0 <= previous <= 65535,
    ;
    let tri: i64 = offset * previous / 2;
    let q0 = match carry_value(run.q_model, offset, tri) {
        Some(v) => v,
        None => return Err(SweepError::NumericFailure),
    };
    let qx = match carry_delta(run.q_model, offset) {
        Some(v) => v,
        None => return Err(SweepError::NumericFailure),
    };
    let piece = CertifiedRun {
        x0,
        x1: x0 + width,
        q_model: QModel { q0, qx, qxx: run.q_model.qxx },
        ..run
    };
    let mut record = lower_certified_run(piece, domain, material_summary, light_summary)?;
    record.debug_q_width = source_q_width_class(run.q_model.q0, run.q_error)?;
    Ok(record)
}

/// Splits a run into pieces of power-of-two width (at most 32), each with
/// its models carried to its first column and lowered on its own anchor.
#[verifier::loop_isolation(false)]
#[verifier::rlimit(40)]
pub fn lower_certified_runs(
    run: CertifiedRun,
    domain: FixedDomain,
    material_summary: u32,
    light_summary: u32,
    output: &mut [RasterRun],
) -> (r: Result<usize, SweepError>)
    ensures
        final(output)@.len() == old(output)@.len(),
        run.x0 >= run.x1 || run.event_left is Some || run.event_right is Some ==> r == Err::<
            usize,
            SweepError,
        >(SweepError::InternalInvariant),
        !(run.x0 >= run.x1 || run.event_left is Some || run.event_right is Some) ==> match split_records(
            run,
            domain,
            material_summary,
            light_summary,
            run.x0 as int,
            old(output)@.len() as int,
        ) {
            Err(e) => r == Err::<usize, SweepError>(e),
            Ok(records) => r == Ok::<usize, SweepError>(records.len() as usize)
                && final(output)@.take(records.len() as int) == records,
        },
{
    if run.x0 >= run.x1 || run.event_left.is_some() || run.event_right.is_some() {
        return Err(SweepError::InternalInvariant);
    }
    let ghost capacity = output@.len() as int;
    let ghost whole = split_records(
        run,
        domain,
        material_summary,
        light_summary,
        run.x0 as int,
        capacity,
    );
    let mut count: usize = 0;
    let mut x0 = run.x0;
    while x0 < run.x1
        invariant
            run.x0 <= x0 <= run.x1,
            count <= capacity,
            output@.len() == capacity,
            whole == after_records(
                output@.take(count as int),
                split_records(
                    run,
                    domain,
                    material_summary,
                    light_summary,
                    x0 as int,
                    capacity - count,
                ),
            ),
        decreases run.x1 - x0,
    {
        let width = piece_width(run.x1 - x0);
        let record = lower_piece(run, x0, width, domain, material_summary, light_summary)?;
        if count >= output.len() {
            return Err(SweepError::CapacityExceeded);
        }
        let ghost prior = output@;
        output[count] = record;
        proof {
            assert(output@.take(count + 1) =~= prior.take(count as int).push(record));
            assert(seq![record] + split_records(
                run,
                domain,
                material_summary,
                light_summary,
                x0 + width,
                capacity - count - 1,
            )->Ok_0 =~= seq![record].add(
                split_records(
                    run,
                    domain,
                    material_summary,
                    light_summary,
                    x0 + width,
                    capacity - count - 1,
                )->Ok_0,
            ));
            match split_records(
                run,
                domain,
                material_summary,
                light_summary,
                x0 + width,
                capacity - count - 1,
            ) {
                Ok(rest) => {
                    assert(prior.take(count as int) + (seq![record] + rest) =~= prior.take(
                        count as int,
                    ).push(record) + rest);
                },
                Err(_) => {},
            }
        }
        count = count + 1;
        x0 = x0 + width;
    }
    proof {
        assert(output@.take(count as int) + Seq::<RasterRun>::empty() =~= output@.take(
            count as int,
        ));
    }
    Ok(count)
}

/// `bytes` with `count` consecutive pixels from byte `start` painted `color`.
pub open spec fn span_painted(bytes: Seq<u8>, start: int, count: int, color: Seq<u8>) -> Seq<u8> {
    Seq::new(
        bytes.len(),
        |i: int|
            if start <= i < start + 4 * count {
                color[(i - start) % 4]
            } else {
                bytes[i]
            },
    )
}

proof fn lemma_span_grows(bytes: Seq<u8>, start: int, count: int, color: Seq<u8>)
    requires
        count >= 0,
    ensures
        put_pixel(span_painted(bytes, start, count, color), start + 4 * count, color)
            == span_painted(bytes, start, count + 1, color),
{
    let a = put_pixel(span_painted(bytes, start, count, color), start + 4 * count, color);
    let b = span_painted(bytes, start, count + 1, color);
    assert forall|i: int| 0 <= i < a.len() implies a[i] == b[i] by {
        if start + 4 * count <= i < start + 4 * count + 4 {
            assert((i - start) % 4 == i - (start + 4 * count)) by (nonlinear_arith)
                requires
                    start + 4 * count <= i < start + 4 * count + 4,
            ;
        }
    }
    assert(a =~= b);
}

/// Re-anchoring the recurrence `n` steps along succeeds.
pub open spec fn reset_ok(q: QRunScalar, n: int) -> bool {
    let t = triangular(n as nat);
    let value = q_after(q.q as int, q.dq as int, q.ddq as int, n as nat);
    let delta = dq_after(q.dq as int, q.ddq as int, n as nat);
    &&& fits_i64(n * (n - 1))
    &&& fits_i64(n * q.dq)
    &&& fits_i64(q.q + n * q.dq)
    &&& fits_i64(t * q.ddq)
    &&& fits_i64(value)
    &&& fits_i64(n * q.ddq)
    &&& fits_i64(delta)
    &&& fits_i32(value)
    &&& fits_i32(delta)
    &&& q.domain.holds(value)
    &&& q.domain.holds(delta)
}

/// Stepping the recurrence to step `n` stays inside `i32` and the domain.
pub open spec fn step_ok(q: QRunScalar, n: int) -> bool {
    let value = q_after(q.q as int, q.dq as int, q.ddq as int, n as nat);
    let delta = dq_after(q.dq as int, q.ddq as int, n as nat);
    fits_i32(value) && fits_i32(delta) && q.domain.holds(value) && q.domain.holds(delta)
}

/// Column `n` of a run: anchored at each microtile start, stepped elsewhere.
pub open spec fn lane_ok(q: QRunScalar, n: int) -> bool {
    if n % (q.microtile_width as int) == 0 {
        reset_ok(q, n)
    } else {
        step_ok(q, n)
    }
}

/// The scalar recurrence certifies every column of a run `len` wide.
pub open spec fn scalar_certified(q: QRunScalar, len: int) -> bool {
    forall|n: int| 0 <= n < len ==> #[trigger] lane_ok(q, n)
}

/// Lane `k` is the first of a run `len` wide whose recurrence check fails.
pub open spec fn first_failed_lane(q: QRunScalar, len: int, k: int) -> bool {
    &&& 0 <= k < len
    &&& !lane_ok(q, k)
    &&& forall|n: int| 0 <= n < k ==> #[trigger] lane_ok(q, n)
}

/// `painted` is `original` with the run's first columns painted, up to the
/// first column whose recurrence check fails.
pub open spec fn painted_until_failure(
    q: QRunScalar,
    len: int,
    original: Seq<u8>,
    start: int,
    color: Seq<u8>,
    painted: Seq<u8>,
) -> bool {
    exists|k: int| first_failed_lane(q, len, k) && painted == span_painted(original, start, k, color)
}

fn recurrence_at(run: QRunScalar, steps: u32) -> (r: Result<QRunScalar, SweepError>)
    requires
        steps <= 65535,
    ensures
        reset_ok(run, steps as int) ==> r == Ok::<QRunScalar, SweepError>(
            run.with_state(
                q_after(run.q as int, run.dq as int, run.ddq as int, steps as nat) as i32,
                dq_after(run.dq as int, run.ddq as int, steps as nat) as i32,
                0,
            ),
        ),
        !reset_ok(run, steps as int) ==> r == Err::<QRunScalar, SweepError>(
            SweepError::NumericFailure,
        ),
{
    if steps > 65535 {
        return Err(SweepError::CapacityExceeded);
    }
    match run.reset_at(steps) {
        Ok(v) => Ok(v),
        Err(e) => Err(map_numeric(e)),
    }
}

/// The color a run paints: its debug identity at full coverage.
pub open spec fn run_color(run: RasterRun) -> Seq<u8> {
    identity_bgra(run.identity, run.proof_code, 255, run.debug_q_width)
}

/// Rasters a run into one tile row with the scalar recurrence, re-anchored
/// at each microtile; the recurrence certifies each column, the color is
/// the run's debug identity.
#[verifier::loop_isolation(false)]
pub fn raster_run_scalar(
    run: &RasterRun,
    tile_x: u16,
    tile_y: u16,
    row: u16,
    visible_width: u16,
    visible_height: u16,
    bytes: &mut [u8; TILE_BYTES],
) -> (r: Result<(), SweepError>)
    requires
        run.q.microtile_width > 0,
        !destination_overflows(run.x0, run.x1, tile_x, tile_y, row, visible_width, visible_height),
    ensures
        !destination_ok(run.x0, run.x1, tile_x, tile_y, row, visible_width, visible_height) ==> r
            == Err::<(), SweepError>(SweepError::InternalInvariant) && final(bytes)@ == old(
            bytes,
        )@,
        destination_ok(run.x0, run.x1, tile_x, tile_y, row, visible_width, visible_height) ==> {
            &&& !scalar_certified(run.q, run.x1 - run.x0) ==> r == Err::<(), SweepError>(
                SweepError::NumericFailure,
            ) && painted_until_failure(
                run.q,
                run.x1 - run.x0,
                old(bytes)@,
                pixel_offset(tile_x, tile_y, run.x0, row),
                run_color(*run),
                final(bytes)@,
            )
            &&& scalar_certified(run.q, run.x1 - run.x0) ==> r is Ok && final(bytes)@
                == span_painted(
                old(bytes)@,
                pixel_offset(tile_x, tile_y, run.x0, row),
                run.x1 - run.x0,
                run_color(*run),
            )
        },
{
    validate_destination(run, tile_x, tile_y, row, visible_width, visible_height)?;
    let color = debug_identity_bgra(run.identity, run.proof_code, 255, run.debug_q_width);
    let ghost start = pixel_offset(tile_x, tile_y, run.x0, row);
    let ghost original = bytes@;
    let ghost len = run.x1 - run.x0;
    let mw = run.q.microtile_width as u16;
    let mut x = run.x0;
    assert(0int % (mw as int) == 0) by (nonlinear_arith)
        requires
            mw > 0,
    ;
    assert(span_painted(original, start, 0, color@) =~= original);
    while x < run.x1
        invariant
            run.x0 <= x <= run.x1,
            (x - run.x0) % (mw as int) == 0 || x == run.x1,
            forall|n: int| 0 <= n < x - run.x0 ==> #[trigger] lane_ok(run.q, n),
            bytes@ == span_painted(original, start, x - run.x0, color@),
        decreases run.x1 - x,
    {
        let anchor = x;
        let left = run.x1 - x;
        let reset = if left < mw {
            left
        } else {
            mw
        };
        let steps = (anchor - run.x0) as u32;
        assert(lane_ok(run.q, steps as int) == reset_ok(run.q, steps as int));
        let mut recurrence = match recurrence_at(run.q, steps) {
            Ok(anchored) => anchored,
            Err(e) => {
                proof {
                    assert(first_failed_lane(run.q, len, steps as int));
                    assert(painted_until_failure(run.q, len, original, start, color@, bytes@));
                }
                return Err(e);
            },
        };
        let mut lane: u16 = 0;
        while lane < reset
            invariant
                anchor == x,
                0 < reset <= mw,
                anchor + reset <= run.x1,
                lane <= reset,
                (anchor - run.x0) % (mw as int) == 0,
                recurrence == run.q.with_state(
                    q_after(run.q.q as int, run.q.dq as int, run.q.ddq as int, (steps + lane) as nat)
                        as i32,
                    dq_after(run.q.dq as int, run.q.ddq as int, (steps + lane) as nat) as i32,
                    lane as u8,
                ) || lane == reset,
                forall|n: int|
                    0 <= n <= steps + lane && n < steps + reset ==> #[trigger] lane_ok(run.q, n),
                bytes@ == span_painted(original, start, anchor - run.x0 + lane, color@),
            decreases reset - lane,
        {
            let px = x + lane;
            proof {
                assert((row - tile_y) * 256 + (px - tile_x) * 4 + 4 <= 8192) by (nonlinear_arith)
                    requires
                        0 <= row - tile_y < 32,
                        0 <= px - tile_x < 64,
                ;
                assert(pixel_offset(tile_x, tile_y, px, row) == start + 4 * (anchor - run.x0 + lane));
            }
            write_pixel(bytes, tile_x, tile_y, px, row, color)?;
            proof {
                lemma_span_grows(original, start, anchor - run.x0 + lane, color@);
            }
            if lane + 1 < reset {
                proof {
                    let m = steps + lane;
                    assert(lane_ok(run.q, m));
                    assert(fits_i32(q_after(run.q.q as int, run.q.dq as int, run.q.ddq as int, m as nat))
                        && fits_i32(dq_after(run.q.dq as int, run.q.ddq as int, m as nat)));
                    lemma_step(run.q.q as int, run.q.dq as int, run.q.ddq as int, (steps + lane) as nat);
                    let n = steps + lane + 1;
                    assert(n % (mw as int) != 0) by (nonlinear_arith)
                        requires
                            n == steps + lane + 1,
                            (steps as int) % (mw as int) == 0,
                            0 <= lane + 1 < mw,
                    ;
                }
                let ghost prior = recurrence;
                match recurrence.advance() {
                    Ok(_) => {},
                    Err(e) => {
                        proof {
                            assert(!step_ok(run.q, steps + lane + 1));
                            assert(!lane_ok(run.q, steps + lane + 1));
                            assert(first_failed_lane(run.q, len, steps + lane + 1));
                            assert(painted_until_failure(run.q, len, original, start, color@, bytes@));
                        }
                        return Err(map_numeric(e));
                    },
                }
                assert(recurrence == prior.with_state(
                    (prior.q + prior.dq) as i32,
                    (prior.dq + prior.ddq) as i32,
                    (lane + 1) as u8,
                ));
                assert(step_ok(run.q, steps + lane + 1));
                assert(lane_ok(run.q, steps + lane + 1));
            }
            lane = lane + 1;
        }
        x = match x.checked_add(reset) {
            Some(v) => v,
            None => return Err(SweepError::CapacityExceeded),
        };
        proof {
            assert((x - run.x0) % (mw as int) == 0 || x == run.x1) by (nonlinear_arith)
                requires
                    x - run.x0 == (anchor - run.x0) + reset,
                    (anchor - run.x0) % (mw as int) == 0,
                    reset == mw || x == run.x1,
                    mw > 0,
            ;
        }
    }
    Ok(())
}

/// Block `k` of four columns passes the packet checks: re-anchoring at
/// column `4k`, the four lane values, the packet carry and the carried lanes
/// all fit an `i32`.
pub open spec fn block_ok(q: QRunScalar, k: int) -> bool {
    let n = 4 * k;
    let a = q_after(q.q as int, q.dq as int, q.ddq as int, n as nat);
    let d = dq_after(q.dq as int, q.ddq as int, n as nat);
    let e = q.ddq as int;
    let carry = 4 * d + 6 * e;
    &&& reset_ok(q, n)
    &&& fits_i32(a + d)
    &&& fits_i32(a + 2 * d + e)
    &&& fits_i32(a + 3 * d + 3 * e)
    &&& fits_i32(carry)
    &&& fits_i32(a + carry)
    &&& fits_i32(a + d + carry)
    &&& fits_i32(a + 2 * d + e + carry)
    &&& fits_i32(a + 3 * d + 3 * e + carry)
}

/// The packet recurrence certifies every whole block of four columns.
pub open spec fn packet_certified(q: QRunScalar, len: int) -> bool {
    forall|k: int| 0 <= k && 4 * k + 4 <= len ==> #[trigger] block_ok(q, k)
}

/// Block `k` is the first of a run `len` wide that fails the packet checks.
pub open spec fn first_failed_block(q: QRunScalar, len: int, k: int) -> bool {
    &&& 0 <= k && 4 * k + 4 <= len
    &&& !block_ok(q, k)
    &&& forall|j: int| 0 <= j < k ==> #[trigger] block_ok(q, j)
}

/// `painted` is `original` with the run's whole blocks painted, up to the
/// first block that fails the packet checks.
pub open spec fn packets_painted_until_failure(
    q: QRunScalar,
    len: int,
    original: Seq<u8>,
    start: int,
    color: Seq<u8>,
    painted: Seq<u8>,
) -> bool {
    exists|k: int|
        first_failed_block(q, len, k) && painted == span_painted(original, start, 4 * k, color)
}

#[derive(Clone, Copy, Debug, Default, PartialEq, Eq)]
struct I32x4([i32; 4]);

impl I32x4 {
    /// Lane-wise checked sum.
    fn add(self, other: Self) -> (r: Option<Self>)
        ensures
            r is Some <==> forall|i: int| 0 <= i < 4 ==> #[trigger] fits_i32(self.0[i] + other.0[i]),
            r matches Some(v) ==> forall|i: int| 0 <= i < 4 ==> #[trigger] v.0[i] == self.0[i] + other.0[i],
    {
        let a = match self.0[0].checked_add(other.0[0]) {
            Some(v) => v,
            None => {
                assert(!fits_i32(self.0[0] + other.0[0]));
                return None;
            },
        };
        let b = match self.0[1].checked_add(other.0[1]) {
            Some(v) => v,
            None => {
                assert(!fits_i32(self.0[1] + other.0[1]));
                return None;
            },
        };
        let c = match self.0[2].checked_add(other.0[2]) {
            Some(v) => v,
            None => {
                assert(!fits_i32(self.0[2] + other.0[2]));
                return None;
            },
        };
        let d = match self.0[3].checked_add(other.0[3]) {
            Some(v) => v,
            None => {
                assert(!fits_i32(self.0[3] + other.0[3]));
                return None;
            },
        };
        let r = I32x4([a, b, c, d]);
        assert forall|i: int| 0 <= i < 4 implies #[trigger] fits_i32(self.0[i] + other.0[i]) by {
            if i == 0 {
            } else if i == 1 {
            } else if i == 2 {
            } else {
            }
        }
        Some(r)
    }
}

fn narrow(v: i64) -> (r: Option<i32>)
    ensures
        r == (if fits_i32(v as int) {
            Some(v as i32)
        } else {
            None
        }),
{
    if v < i32::MIN as i64 || v > i32::MAX as i64 {
        None
    } else {
        Some(v as i32)
    }
}

/// Rasters a run into one tile row four columns at a time, re-anchoring
/// the recurrence at each block and carrying the packet; any tail narrower
/// than a block is written directly.
#[verifier::loop_isolation(false)]
#[verifier::rlimit(30)]
pub fn raster_run4(
    run: &RasterRun,
    tile_x: u16,
    tile_y: u16,
    row: u16,
    visible_width: u16,
    visible_height: u16,
    bytes: &mut [u8; TILE_BYTES],
) -> (r: Result<(), SweepError>)
    requires
        !destination_overflows(run.x0, run.x1, tile_x, tile_y, row, visible_width, visible_height),
    ensures
        !destination_ok(run.x0, run.x1, tile_x, tile_y, row, visible_width, visible_height) ==> r
            == Err::<(), SweepError>(SweepError::InternalInvariant) && final(bytes)@ == old(
            bytes,
        )@,
        destination_ok(run.x0, run.x1, tile_x, tile_y, row, visible_width, visible_height) ==> {
            &&& !packet_certified(run.q, run.x1 - run.x0) ==> r == Err::<(), SweepError>(
                SweepError::NumericFailure,
            ) && packets_painted_until_failure(
                run.q,
                run.x1 - run.x0,
                old(bytes)@,
                pixel_offset(tile_x, tile_y, run.x0, row),
                run_color(*run),
                final(bytes)@,
            )
            &&& packet_certified(run.q, run.x1 - run.x0) ==> r is Ok && final(bytes)@
                == span_painted(
                old(bytes)@,
                pixel_offset(tile_x, tile_y, run.x0, row),
                run.x1 - run.x0,
                run_color(*run),
            )
        },
{
    validate_destination(run, tile_x, tile_y, row, visible_width, visible_height)?;
    let color = debug_identity_bgra(run.identity, run.proof_code, 255, run.debug_q_width);
    let ghost start = pixel_offset(tile_x, tile_y, run.x0, row);
    let ghost original = bytes@;
    let ghost len = run.x1 - run.x0;
    assert(span_painted(original, start, 0, color@) =~= original);
    let mut x = run.x0;
    while x < run.x1 && (x - run.x0) % 4 != 0
        invariant
            x == run.x0,
            bytes@ == original,
        decreases run.x1 - x,
    {
        write_pixel(bytes, tile_x, tile_y, x, row, color)?;
        x = x + 1;
    }
    while run.x1 - x >= 4
        invariant
            run.x0 <= x <= run.x1,
            (x - run.x0) % 4 == 0,
            forall|k: int| 0 <= k && 4 * k + 4 <= x - run.x0 ==> #[trigger] block_ok(run.q, k),
            bytes@ == span_painted(original, start, x - run.x0, color@),
        decreases run.x1 - x,
    {
        let n = (x - run.x0) as u32;
        let ghost k: int = n as int / 4;
        assert(4 * k == n);
        let scalar = match recurrence_at(run.q, n) {
            Ok(v) => v,
            Err(e) => {
                proof {
                    assert(!block_ok(run.q, k));
                    assert(first_failed_block(run.q, len, k));
                    assert(packets_painted_until_failure(run.q, len, original, start, color@, bytes@));
                }
                return Err(e);
            },
        };
        let q0 = scalar.q as i64;
        let d1 = scalar.dq as i64;
        let d2 = scalar.ddq as i64;
        let lane1 = narrow(q0 + d1);
        let lane2 = narrow(q0 + 2 * d1 + d2);
        let lane3 = narrow(q0 + 3 * d1 + 3 * d2);
        if lane1.is_none() || lane2.is_none() || lane3.is_none() {
            proof {
                assert(!block_ok(run.q, k));
                    assert(first_failed_block(run.q, len, k));
                    assert(packets_painted_until_failure(run.q, len, original, start, color@, bytes@));
            }
            return Err(SweepError::NumericFailure);
        }
        let lanes = I32x4([scalar.q, lane1.unwrap(), lane2.unwrap(), lane3.unwrap()]);
        let carry = match narrow(4 * d1 + 6 * d2) {
            Some(v) => v,
            None => {
                proof {
                    assert(!block_ok(run.q, k));
                    assert(first_failed_block(run.q, len, k));
                    assert(packets_painted_until_failure(run.q, len, original, start, color@, bytes@));
                }
                return Err(SweepError::NumericFailure);
            },
        };
        let next = lanes.add(I32x4([carry, carry, carry, carry]));
        if next.is_none() {
            proof {
                let i = choose|i: int| 0 <= i < 4 && !fits_i32(lanes.0[i] + carry);
                assert(!block_ok(run.q, k));
                    assert(first_failed_block(run.q, len, k));
                    assert(packets_painted_until_failure(run.q, len, original, start, color@, bytes@));
            }
            return Err(SweepError::NumericFailure);
        }
        proof {
            let a = q_after(run.q.q as int, run.q.dq as int, run.q.ddq as int, n as nat);
            let d = dq_after(run.q.dq as int, run.q.ddq as int, n as nat);
            assert(reset_ok(run.q, n as int));
            assert(scalar.q == a && scalar.dq == d && scalar.ddq == run.q.ddq);
            let others = I32x4([carry, carry, carry, carry]);
            assert(fits_i32(lanes.0[0] + others.0[0]));
            assert(fits_i32(lanes.0[1] + others.0[1]));
            assert(fits_i32(lanes.0[2] + others.0[2]));
            assert(fits_i32(lanes.0[3] + others.0[3]));
            assert(block_ok(run.q, k));
            assert forall|j: int| 0 <= j && 4 * j + 4 <= x - run.x0 + 4 implies #[trigger] block_ok(
                run.q,
                j,
            ) by {
                if j != k {
                    assert(4 * j + 4 <= x - run.x0);
                }
            }
        }
        let mut lane: u16 = 0;
        while lane < 4
            invariant
                lane <= 4,
                x + 4 <= run.x1,
                bytes@ == span_painted(original, start, x - run.x0 + lane, color@),
            decreases 4 - lane,
        {
            let px = x + lane;
            proof {
                assert((row - tile_y) * 256 + (px - tile_x) * 4 + 4 <= 8192) by (nonlinear_arith)
                    requires
                        0 <= row - tile_y < 32,
                        0 <= px - tile_x < 64,
                ;
                assert(pixel_offset(tile_x, tile_y, px, row) == start + 4 * (x - run.x0 + lane));
            }
            write_pixel(bytes, tile_x, tile_y, px, row, color)?;
            proof {
                lemma_span_grows(original, start, x - run.x0 + lane, color@);
            }
            lane = lane + 1;
        }
        x = x + 4;
    }
    while x < run.x1
        invariant
            run.x0 <= x <= run.x1,
            bytes@ == span_painted(original, start, x - run.x0, color@),
            forall|k: int| 0 <= k && 4 * k + 4 <= len ==> #[trigger] block_ok(run.q, k),
        decreases run.x1 - x,
    {
        proof {
            assert((row - tile_y) * 256 + (x - tile_x) * 4 + 4 <= 8192) by (nonlinear_arith)
                requires
                    0 <= row - tile_y < 32,
                    0 <= x - tile_x < 64,
            ;
        }
        write_pixel(bytes, tile_x, tile_y, x, row, color)?;
        proof {
            lemma_span_grows(original, start, x - run.x0, color@);
        }
        x = x + 1;
    }
    Ok(())
}

pub const F32_SIGN: u32 = 0x8000_0000;

pub const F32_EXP: u32 = 0x7f80_0000;

pub const F32_FRAC: u32 = 0x007f_ffff;

pub const F32_CANONICAL_NAN: u32 = 0x7fc0_0000;

pub open spec fn f32_is_nan(bits: u32) -> bool {
    f32_exponent_field(bits) == 255 && f32_fraction_field(bits) != 0
}

pub open spec fn f32_is_infinite(bits: u32) -> bool {
    f32_exponent_field(bits) == 255 && f32_fraction_field(bits) == 0
}

/// Either signed zero.
pub open spec fn f32_is_zero(bits: u32) -> bool {
    bits as int % 0x8000_0000 == 0
}

/// The unsigned integer significand of a finite binary32 value.
pub open spec fn f32_magnitude(bits: u32) -> nat {
    if f32_exponent_field(bits) == 0 {
        f32_fraction_field(bits) as nat
    } else {
        (0x80_0000 + f32_fraction_field(bits)) as nat
    }
}

/// The encoding of an infinity or a zero with the given sign.
pub open spec fn signed_bits(negative: bool, magnitude_bits: u32) -> u32 {
    if negative {
        (0x8000_0000 + magnitude_bits) as u32
    } else {
        magnitude_bits
    }
}

/// The result of a fused multiply-add whenever an operand is a NaN or an
/// infinity, or both terms are zero: NaN inputs, `inf * 0` and opposing
/// infinities give the canonical NaN; an infinite product gives that
/// signed infinity; an infinite addend is returned as it is; two zero
/// terms give a zero that is negative only when both terms are.
pub open spec fn fma_special(lhs: u32, rhs: u32, addend: u32) -> Option<u32> {
    let product_negative = f32_is_negative(lhs) != f32_is_negative(rhs);
    if f32_is_nan(lhs) || f32_is_nan(rhs) || f32_is_nan(addend) {
        Some(F32_CANONICAL_NAN)
    } else if f32_is_infinite(lhs) || f32_is_infinite(rhs) {
        if (f32_is_infinite(lhs) && f32_is_zero(rhs)) || (f32_is_infinite(rhs) && f32_is_zero(lhs)) {
            Some(F32_CANONICAL_NAN)
        } else if f32_is_infinite(addend) && f32_is_negative(addend) != product_negative {
            Some(F32_CANONICAL_NAN)
        } else {
            Some(signed_bits(product_negative, F32_EXP))
        }
    } else if f32_is_infinite(addend) {
        Some(addend)
    } else if f32_magnitude(lhs) * f32_magnitude(rhs) == 0 && f32_magnitude(addend) == 0 {
        Some(signed_bits(product_negative && f32_is_negative(addend), 0))
    } else {
        None
    }
}

/// The exact value of `lhs * rhs + addend` for finite operands: a signed
/// count of units of `2^e`, `e` the lower of the product's and the
/// addend's exponents.
pub open spec fn fma_exact(lhs: u32, rhs: u32, addend: u32) -> (int, int) {
    let pm = f32_magnitude(lhs) * f32_magnitude(rhs);
    let pe = f32_binary_exponent(lhs) + f32_binary_exponent(rhs);
    let am = f32_magnitude(addend);
    let ae = f32_binary_exponent(addend);
    let e = if pe <= ae {
        pe
    } else {
        ae
    };
    (
        signed(f32_is_negative(lhs) != f32_is_negative(rhs), (pm * two_pow((pe - e) as nat)) as int)
            + signed(f32_is_negative(addend), (am * two_pow((ae - e) as nat)) as int),
        e,
    )
}

/// The fused multiply-add of finite operands: the exact sum rounded once,
/// to nearest with ties to even; an exact zero sum of nonzero terms is `+0`.
pub open spec fn fma_rounded(lhs: u32, rhs: u32, addend: u32) -> u32 {
    let (s, e) = fma_exact(lhs, rhs, addend);
    if s == 0 {
        0
    } else {
        round_binary32(s < 0, abs_of(s) as nat, e)
    }
}

/// Highest position a term reaches, absent for a zero term.
pub open spec fn term_top(mantissa: nat, exponent: int) -> Option<int> {
    if mantissa == 0 {
        None
    } else {
        Some(exponent + top_bit_of(mantissa))
    }
}

/// Alignment position of the exact sum: a hundred bits below its highest term.
pub open spec fn fma_target(lhs: u32, rhs: u32, addend: u32) -> int {
    let p = term_top(
        f32_magnitude(lhs) * f32_magnitude(rhs),
        f32_binary_exponent(lhs) + f32_binary_exponent(rhs),
    );
    let a = term_top(f32_magnitude(addend), f32_binary_exponent(addend));
    match (p, a) {
        (Some(x), Some(y)) => max_int(x, y) - 100,
        (Some(x), None) => x - 100,
        (None, Some(y)) => y - 100,
        (None, None) => 0,
    }
}


struct FiniteF32 {
    negative: bool,
    mantissa: u64,
    exponent: i32,
}

fn finite_f32(bits: u32) -> (r: FiniteF32)
    ensures
        r.negative == f32_is_negative(bits),
        r.mantissa == f32_magnitude(bits),
        r.exponent == f32_binary_exponent(bits),
        r.mantissa < 0x100_0000,
        -149 <= r.exponent <= 105,
{
    let exponent_bits = (bits / 0x80_0000) % 0x100;
    let fraction = (bits % 0x80_0000) as u64;
    if exponent_bits == 0 {
        FiniteF32 { negative: bits >= F32_SIGN, mantissa: fraction, exponent: -149 }
    } else {
        FiniteF32 {
            negative: bits >= F32_SIGN,
            mantissa: 0x80_0000 + fraction,
            exponent: exponent_bits as i32 - 150,
        }
    }
}

fn pow2_u128(n: u32) -> (r: u128)
    requires
        n <= 127,
    ensures
        r == two_pow(n as nat),
{
    let mut r: u128 = 1;
    let mut i: u32 = 0;
    while i < n
        invariant
            i <= n <= 127,
            r == two_pow(i as nat),
        decreases n - i,
    {
        proof {
            lemma_two_pow_values();
            lemma_two_pow_monotone(i as nat, 126);
            lemma_two_pow_adds(63, 63);
            assert(two_pow(127) == 2 * two_pow(126));
        }
        r = r * 2;
        i = i + 1;
    }
    r
}

fn top_bit_u128(value: u128) -> (r: i32)
    requires
        value != 0,
    ensures
        r == top_bit_of(value as nat),
        0 <= r <= 127,
{
    let mut v = value;
    let mut t: i32 = 0;
    proof {
        lemma_two_pow_values();
        lemma_two_pow_adds(64, 64);
        lemma_top_bit(value as nat);
        assert(value < two_pow(128));
        if top_bit_of(value as nat) > 127 {
            lemma_two_pow_monotone(128, top_bit_of(value as nat));
        }
    }
    while v >= 2
        invariant
            v >= 1,
            0 <= t <= 127,
            t + top_bit_of(v as nat) == top_bit_of(value as nat),
            top_bit_of(value as nat) <= 127,
        decreases v,
    {
        v = v / 2;
        t = t + 1;
    }
    t
}

/// A value below the scale has a zero quotient and is its own remainder.
proof fn lemma_below_scale(v: nat, d: nat)
    requires
        v < two_pow(d),
    ensures
        v as int / (two_pow(d) as int) == 0,
        v as int % (two_pow(d) as int) == v,
{
    vstd::arithmetic::div_mod::lemma_fundamental_div_mod_converse(
        v as int,
        two_pow(d) as int,
        0,
        v as int,
    );
}

/// Every `u128` lies below `2^d` from `d = 128` on, and `2^127` is its top bit.
proof fn lemma_u128_scale(v: u128, d: nat)
    requires
        d >= 128,
    ensures
        (v as nat) < two_pow(d),
        two_pow(127) == 0x8000_0000_0000_0000_0000_0000_0000_0000,
        two_pow(128) == 0x1_0000_0000_0000_0000_0000_0000_0000_0000,
{
    lemma_two_pow_values();
    lemma_two_pow_adds(64, 64);
    lemma_two_pow_adds(63, 64);
    lemma_two_pow_monotone(128, d);
}

/// `value / 2^distance` with every discarded bit folded into the lowest
/// kept bit.
fn shift_right_jam(value: u128, distance: u32) -> (r: u128)
    ensures
        r == jam_shift(value as nat, distance as int),
        distance <= 127 ==> value as int / (two_pow(distance as nat) as int) <= r <= value as int
            / (two_pow(distance as nat) as int) + 1,
        distance > 127 ==> r <= 1,
        value == 0 ==> r == 0,
{
    if distance == 0 {
        proof {
            lemma_two_pow_values();
            assert(value * two_pow(0) == value) by (nonlinear_arith)
                requires
                    two_pow(0) == 1,
            ;
        }
        value
    } else if distance < 128 {
        let scale = pow2_u128(distance);
        proof {
            lemma_two_pow_pos(distance as nat);
        }
        let kept = value / scale;
        let sticky = value % scale != 0;
        if sticky && kept % 2 == 0 {
            proof {
                lemma_two_pow_monotone(1, distance as nat);
                lemma_two_pow_values();
                assert(kept < 0xffff_ffff_ffff_ffff_ffff_ffff_ffff_ffff) by (nonlinear_arith)
                    requires
                        kept == value as int / (scale as int),
                        scale >= 2,
                        value <= 0xffff_ffff_ffff_ffff_ffff_ffff_ffff_ffff,
                ;
            }
            kept + 1
        } else {
            kept
        }
    } else {
        proof {
            lemma_u128_scale(value, distance as nat);
            lemma_below_scale(value as nat, distance as nat);
        }
        if value != 0 {
            1
        } else {
            0
        }
    }
}

/// `value` aligned from `exponent` to `target`: shifted up exactly, or
/// down with the discarded bits jammed.
fn scale_to(value: u128, exponent: i32, target: i32) -> (r: u128)
    requires
        -0x1000_0000 <= exponent <= 0x1000_0000,
        -0x1000_0000 <= target <= 0x1000_0000,
        exponent - target >= 0 && value != 0 ==> exponent - target <= 127 && value * two_pow(
            (exponent - target) as nat,
        ) <= u128::MAX,
    ensures
        r == jam_shift(value as nat, target - exponent),
        exponent - target >= 0 ==> r == value * two_pow((exponent - target) as nat),
        exponent - target < 0 ==> r <= value as int / (two_pow((target - exponent) as nat) as int)
            + 1,
        exponent - target < 0 && target - exponent > 127 ==> r <= 1,
        value == 0 ==> r == 0,
{
    if value == 0 {
        proof {
            if exponent - target >= 0 {
                lemma_two_pow_pos((exponent - target) as nat);
            } else {
                lemma_two_pow_pos((target - exponent) as nat);
            }
        }
        return 0;
    }
    let distance = exponent - target;
    if distance >= 0 {
        value * pow2_u128(distance as u32)
    } else {
        proof {
            lemma_two_pow_pos((target - exponent) as nat);
        }
        shift_right_jam(value, (-distance) as u32)
    }
}

/// `value / 2^distance` rounded to nearest, ties to even.
fn round_shift_even(value: u128, distance: u32) -> (r: u128)
    ensures
        r == rne_shift(value as nat, distance as int),
        distance == 0 ==> r == value,
        1 <= distance <= 127 ==> value as int / (two_pow(distance as nat) as int) <= r <= value as int
            / (two_pow(distance as nat) as int) + 1,
        distance > 127 ==> r <= 1,
{
    if distance == 0 {
        proof {
            lemma_two_pow_values();
            assert(value * two_pow(0) == value) by (nonlinear_arith)
                requires
                    two_pow(0) == 1,
            ;
        }
        return value;
    }
    if distance > 128 {
        proof {
            lemma_u128_scale(value, distance as nat);
            lemma_u128_scale(value, (distance - 1) as nat);
            lemma_below_scale(value as nat, distance as nat);
        }
        return 0;
    }
    if distance == 128 {
        proof {
            lemma_u128_scale(value, 128);
            lemma_below_scale(value as nat, 128);
        }
        if value > 0x8000_0000_0000_0000_0000_0000_0000_0000u128 {
            return 1;
        } else {
            return 0;
        }
    }
    let scale = pow2_u128(distance);
    let half = pow2_u128(distance - 1);
    proof {
        lemma_two_pow_pos(distance as nat);
        lemma_two_pow_monotone(1, distance as nat);
        lemma_two_pow_values();
        assert(two_pow(distance as nat) == 2 * two_pow((distance - 1) as nat));
    }
    let kept = value / scale;
    let discarded = value % scale;
    proof {
        assert(kept < 0xffff_ffff_ffff_ffff_ffff_ffff_ffff_ffff) by (nonlinear_arith)
            requires
                kept == value as int / (scale as int),
                scale >= 2,
                value <= 0xffff_ffff_ffff_ffff_ffff_ffff_ffff_ffff,
        ;
    }
    if discarded > half || (discarded == half && kept % 2 != 0) {
        kept + 1
    } else {
        kept
    }
}

/// A nonzero term `m * 2^e` aligned to `target`: below `2^k`, where
/// `k = e + top_bit(m) - target + 1`, and at least `2^(k-1)` when shifted up.
proof fn lemma_term_aligned(m: nat, e: int, target: int)
    requires
        m >= 1,
    ensures
        ({
            let d = e - target;
            let k = e + top_bit_of(m) - target + 1;
            &&& d >= 0 ==> two_pow((k - 1) as nat) <= m * two_pow(d as nat) < two_pow(k as nat)
            &&& d < 0 && k >= 0 ==> (m as int) / (two_pow((-d) as nat) as int) < two_pow(k as nat)
            &&& d < 0 && k < 0 ==> (m as int) / (two_pow((-d) as nat) as int) == 0
        }),
{
    let tb = top_bit_of(m);
    lemma_top_bit(m);
    let d = e - target;
    let k = e + tb - target + 1;
    if d >= 0 {
        lemma_two_pow_adds(tb, d as nat);
        lemma_two_pow_adds(tb + 1, d as nat);
        let a = two_pow(tb) as int;
        let b = two_pow(tb + 1) as int;
        let c = two_pow(d as nat) as int;
        lemma_two_pow_pos(d as nat);
        assert(a * c <= m * c < b * c) by (nonlinear_arith)
            requires
                a <= m < b,
                c >= 1,
        {
        }
        lemma_two_pow_pos(d as nat);
    } else {
        lemma_two_pow_pos((-d) as nat);
        let q = two_pow((-d) as nat) as int;
        if k >= 0 {
            lemma_two_pow_adds(k as nat, (-d) as nat);
            assert((k + (-d)) as nat == tb + 1);
            let p = two_pow(k as nat) as int;
            assert(m < q * p) by (nonlinear_arith)
                requires
                    m < p * q,
            ;
            vstd::arithmetic::div_mod::lemma_multiply_divide_lt(m as int, q, p);
        } else {
            lemma_two_pow_monotone(tb + 1, (-d) as nat);
            assert(0 <= m < q);
            vstd::arithmetic::div_mod::lemma_basic_div(m as int, q);
        }
    }
}

/// Two aligned terms of opposite sign that differ leave at least `2^52`:
/// either the smaller sits two binades below the larger, or both are
/// multiples of `2^52`.
proof fn lemma_difference_bound(big: int, small: int, m: int, dm: nat, n: int, dn: nat)
    requires
        0x10_0000_0000_0000_0000_0000_0000 <= big,
        big == m * two_pow(dm),
        dm >= 52,
        0 <= small,
        small <= 0x8_0000_0000_0000_0000_0000_0000 || (small == n * two_pow(dn) && dn >= 52),
        big != small,
    ensures
        big - small >= 0x10_0000_0000_0000 || small - big >= 0x10_0000_0000_0000,
{
    if small <= 0x8_0000_0000_0000_0000_0000_0000 {
    } else {
        lemma_two_pow_values();
        lemma_two_pow_adds(52, (dm - 52) as nat);
        lemma_two_pow_adds(52, (dn - 52) as nat);
        assert(two_pow(52) == 0x10_0000_0000_0000) by {
            reveal_with_fuel(two_pow, 53);
        }
        let k = two_pow(52) as int;
        let a = m * two_pow((dm - 52) as nat);
        let b = n * two_pow((dn - 52) as nat);
        assert(big == a * k) by (nonlinear_arith)
            requires
                big == m * two_pow(dm),
                two_pow(dm) == k * two_pow((dm - 52) as nat),
                a == m * two_pow((dm - 52) as nat),
        ;
        assert(small == b * k) by (nonlinear_arith)
            requires
                small == n * two_pow(dn),
                two_pow(dn) == k * two_pow((dn - 52) as nat),
                b == n * two_pow((dn - 52) as nat),
        ;
        assert(a * k - b * k >= k || b * k - a * k >= k) by (nonlinear_arith)
            requires
                a * k != b * k,
                k >= 1,
        {
            assert(a * k - b * k == (a - b) * k);
        }
    }
}

/// The two terms of an exact sum aligned a hundred bits below the higher
/// one: the higher lands in `[2^100, 2^101)`, the other below `2^101`, and
/// when they differ they differ by at least `2^52`.
proof fn lemma_aligned_terms(
    top_mantissa: nat,
    top_exponent: int,
    other_mantissa: nat,
    other_exponent: int,
    target: int,
    top_scaled: int,
    other_scaled: int,
)
    requires
        1 <= top_mantissa < 0x1_0000_0000_0000,
        other_mantissa < 0x1_0000_0000_0000,
        top_exponent + top_bit_of(top_mantissa) - target == 100,
        other_mantissa >= 1 ==> other_exponent + top_bit_of(other_mantissa) - target <= 100,
        top_exponent - target >= 0 ==> top_scaled == top_mantissa * two_pow(
            (top_exponent - target) as nat,
        ),
        other_exponent - target >= 0 ==> other_scaled == other_mantissa * two_pow(
            (other_exponent - target) as nat,
        ),
        other_exponent - target < 0 ==> 0 <= other_scaled <= (other_mantissa as int) / (two_pow(
            (target - other_exponent) as nat,
        ) as int) + 1,
        other_mantissa == 0 ==> other_scaled == 0,
        other_scaled >= 0,
    ensures
        0x10_0000_0000_0000_0000_0000_0000 <= top_scaled < 0x20_0000_0000_0000_0000_0000_0000,
        other_scaled < 0x20_0000_0000_0000_0000_0000_0000,
        top_scaled != other_scaled ==> top_scaled - other_scaled >= 0x10_0000_0000_0000
            || other_scaled - top_scaled >= 0x10_0000_0000_0000,
{
    lemma_two_pow_values();
    assert(two_pow(48) == 0x1_0000_0000_0000) by {
        reveal_with_fuel(two_pow, 49);
    }
    lemma_two_pow_adds(64, 35);
    lemma_two_pow_adds(64, 36);
    lemma_two_pow_adds(64, 37);
    assert(two_pow(35) == 0x8_0000_0000) by {
        reveal_with_fuel(two_pow, 36);
    }
    assert(two_pow(99) == two_pow(64) * two_pow(35));
    assert(two_pow(100) == 2 * two_pow(99));
    assert(two_pow(101) == 2 * two_pow(100));
    assert(two_pow(99) == 0x8_0000_0000_0000_0000_0000_0000);
    assert(two_pow(100) == 0x10_0000_0000_0000_0000_0000_0000);
    assert(two_pow(101) == 0x20_0000_0000_0000_0000_0000_0000);
    lemma_top_bit(top_mantissa);
    let top_bits = top_bit_of(top_mantissa);
    if top_bits >= 48 {
        lemma_two_pow_monotone(48, top_bits);
    }
    lemma_term_aligned(top_mantissa, top_exponent, target);
    let dm = (top_exponent - target) as nat;
    if other_mantissa == 0 {
        lemma_difference_bound(top_scaled, other_scaled, top_mantissa as int, dm, 0, 52);
    } else {
        lemma_top_bit(other_mantissa);
        let other_bits = top_bit_of(other_mantissa);
        if other_bits >= 48 {
            lemma_two_pow_monotone(48, other_bits);
        }
        lemma_term_aligned(other_mantissa, other_exponent, target);
        let k = other_exponent + other_bits - target + 1;
        if k <= 99 {
            if other_exponent - target >= 0 {
                lemma_two_pow_monotone(k as nat, 99);
            } else if k >= 0 {
                lemma_two_pow_monotone(k as nat, 99);
            }
            lemma_difference_bound(top_scaled, other_scaled, top_mantissa as int, dm, 0, 52);
        } else {
            let dn = (other_exponent - target) as nat;
            lemma_two_pow_monotone((k - 1) as nat, 100);
            if top_scaled != other_scaled {
                lemma_difference_bound(
                    top_scaled,
                    other_scaled,
                    top_mantissa as int,
                    dm,
                    other_mantissa as int,
                    dn,
                );
            }
        }
    }
}

fn is_nan_bits(bits: u32) -> (r: bool)
    ensures
        r == f32_is_nan(bits),
{
    (bits / 0x80_0000) % 0x100 == 0xff && bits % 0x80_0000 != 0
}

fn is_infinite_bits(bits: u32) -> (r: bool)
    ensures
        r == f32_is_infinite(bits),
{
    (bits / 0x80_0000) % 0x100 == 0xff && bits % 0x80_0000 == 0
}

fn is_zero_bits(bits: u32) -> (r: bool)
    ensures
        r == f32_is_zero(bits),
{
    bits % 0x8000_0000 == 0
}

/// Lower and upper binade of a quotient by a power of two.
proof fn lemma_shifted_binade(x: nat, leading: nat, d: nat)
    requires
        two_pow(leading) <= x < two_pow(leading + 1),
        d <= leading,
    ensures
        (x as int) / (two_pow(d) as int) < two_pow((leading + 1 - d) as nat),
{
    lemma_two_pow_pos(d);
    lemma_two_pow_adds((leading + 1 - d) as nat, d);
    let q = two_pow(d) as int;
    let p = two_pow((leading + 1 - d) as nat) as int;
    assert(x < q * p) by (nonlinear_arith)
        requires
            x < p * q,
    ;
    vstd::arithmetic::div_mod::lemma_multiply_divide_lt(x as int, q, p);
}

/// Rounds `magnitude * 2^target` once to binary32 with the given sign:
/// to nearest, ties to even, overflowing to infinity and underflowing
/// through the subnormals.
#[verifier::rlimit(40)]
fn round_aligned(negative: bool, magnitude: u128, target: i32) -> (r: u32)
    requires
        0x10_0000_0000_0000 <= magnitude < 0x40_0000_0000_0000_0000_0000_0000,
        -1000 <= target <= 1000,
    ensures
        r == round_binary32(negative, magnitude as nat, target as int),
{
    let mut leading = top_bit_u128(magnitude);
    proof {
        lemma_two_pow_values();
        lemma_top_bit(magnitude as nat);
        if leading < 52 {
            lemma_two_pow_monotone((leading + 1) as nat, 52);
            assert(two_pow(52) == 0x10_0000_0000_0000) by {
                reveal_with_fuel(two_pow, 53);
            }
        }
        if leading > 101 {
            lemma_two_pow_monotone(102, leading as nat);
            lemma_two_pow_adds(64, 38);
            assert(two_pow(38) == 0x40_0000_0000) by {
                reveal_with_fuel(two_pow, 39);
            }
        }
    }
    let mut unbiased = target + leading;
    let sign: u32 = if negative {
        F32_SIGN
    } else {
        0
    };
    if unbiased > 127 {
        return sign + F32_EXP;
    }
    if unbiased >= -126 {
        let d = (leading - 23) as u32;
        let mut rounded = round_shift_even(magnitude, d);
        proof {
            lemma_shifted_binade(magnitude as nat, leading as nat, d as nat);
            assert((leading + 1 - d) as nat == 24);
        }
        if rounded == 0x100_0000 {
            rounded = rounded / 2;
            unbiased = unbiased + 1;
            leading = leading + 1;
            if unbiased > 127 {
                return sign + F32_EXP;
            }
        }
        let exponent = (unbiased + 127) as u32;
        return sign + exponent * 0x80_0000 + (rounded as u32) % 0x80_0000;
    }
    let distance = -149 - target;
    let rounded = if distance <= 0 {
        magnitude * pow2_u128((-distance) as u32)
    } else {
        round_shift_even(magnitude, distance as u32)
    };
    proof {
        if distance > 0 && distance <= 127 {
            lemma_term_aligned(magnitude as nat, 0, distance as int);
            let k = leading - distance + 1;
            if k >= 0 {
                lemma_two_pow_monotone(k as nat, 23);
            }
        }
    }
    if rounded >= 0x80_0000 {
        return sign + 0x80_0000;
    }
    sign + rounded as u32
}

/// The term whose leading bit sits 100 bits above the target lands exactly
/// and at least 53 bits up, at or above `2^100`.
proof fn lemma_exact_lead(m: nat, e: int, target: int)
    requires
        1 <= m < 0x1_0000_0000_0000,
        e + top_bit_of(m) - target == 100,
    ensures
        e - target >= 53,
        m * two_pow((e - target) as nat) >= two_pow(100),
{
    lemma_top_bit(m);
    let t = top_bit_of(m);
    if t > 47 {
        lemma_two_pow_monotone(48, t);
        assert(two_pow(48) == 0x1_0000_0000_0000) by {
            reveal_with_fuel(two_pow, 49);
        }
    }
    let k = (e - target) as nat;
    lemma_two_pow_adds(t, k);
    assert(t + k == 100);
    assert(m * two_pow(k) >= two_pow(t) * two_pow(k)) by (nonlinear_arith)
        requires
            m >= two_pow(t),
    ;
}

/// The exact sum of the product and the addend, in units of the lower
/// exponent, against the two terms aligned to `target`.
pub open spec fn aligned_against_exact(
    product_negative: bool,
    product_mantissa: nat,
    product_exponent: int,
    addend_negative: bool,
    addend_mantissa: nat,
    addend_exponent: int,
    target: int,
) -> bool {
    let e = if product_exponent <= addend_exponent {
        product_exponent
    } else {
        addend_exponent
    };
    let s = signed(
        product_negative,
        (product_mantissa * two_pow((product_exponent - e) as nat)) as int,
    ) + signed(addend_negative, (addend_mantissa * two_pow((addend_exponent - e) as nat)) as int);
    let v = signed(
        product_negative,
        jam_shift(product_mantissa, target - product_exponent) as int,
    ) + signed(addend_negative, jam_shift(addend_mantissa, target - addend_exponent) as int);
    aligned_matches_exact(v, s, target - e)
}

/// The leading term lands exactly; the other may carry a sticky bit.
proof fn lemma_lead_aligned(
    lead_negative: bool,
    lead_mantissa: nat,
    lead_exponent: int,
    other_negative: bool,
    other_mantissa: nat,
    other_exponent: int,
    target: int,
)
    requires
        1 <= lead_mantissa < 0x1_0000_0000_0000,
        other_mantissa < 0x1_0000_0000_0000,
        lead_exponent + top_bit_of(lead_mantissa) - target == 100,
    ensures
        aligned_against_exact(
            lead_negative,
            lead_mantissa,
            lead_exponent,
            other_negative,
            other_mantissa,
            other_exponent,
            target,
        ),
        aligned_against_exact(
            other_negative,
            other_mantissa,
            other_exponent,
            lead_negative,
            lead_mantissa,
            lead_exponent,
            target,
        ),
{
    assert(two_pow(48) == 0x1_0000_0000_0000) by {
        reveal_with_fuel(two_pow, 49);
    }
    lemma_exact_lead(lead_mantissa, lead_exponent, target);
    assert(jam_shift(lead_mantissa, target - lead_exponent) == lead_mantissa * two_pow(
        (lead_exponent - target) as nat,
    ));
    lemma_sum_alignment(
        lead_negative,
        lead_mantissa,
        lead_exponent,
        other_negative,
        other_mantissa,
        other_exponent,
        target,
    );
    let e = if lead_exponent <= other_exponent {
        lead_exponent
    } else {
        other_exponent
    };
    let e2 = if other_exponent <= lead_exponent {
        other_exponent
    } else {
        lead_exponent
    };
    assert(e2 == e);
}

/// The aligned terms against the exact sum, whichever term leads.
proof fn lemma_aligned_sum_exact(
    product_negative: bool,
    product_mantissa: nat,
    product_exponent: int,
    addend_negative: bool,
    addend_mantissa: nat,
    addend_exponent: int,
    target: int,
)
    requires
        product_mantissa < 0x1_0000_0000_0000,
        addend_mantissa < 0x100_0000,
        product_mantissa != 0 || addend_mantissa != 0,
        target == (match (
            term_top(product_mantissa, product_exponent),
            term_top(addend_mantissa, addend_exponent),
        ) {
            (Some(x), Some(y)) => max_int(x, y) - 100,
            (Some(x), None) => x - 100,
            (None, Some(y)) => y - 100,
            (None, None) => 0,
        }),
    ensures
        aligned_against_exact(
            product_negative,
            product_mantissa,
            product_exponent,
            addend_negative,
            addend_mantissa,
            addend_exponent,
            target,
        ),
{
    if product_mantissa != 0 && (addend_mantissa == 0 || product_exponent + top_bit_of(
        product_mantissa,
    ) >= addend_exponent + top_bit_of(addend_mantissa)) {
        lemma_lead_aligned(
            product_negative,
            product_mantissa,
            product_exponent,
            addend_negative,
            addend_mantissa,
            addend_exponent,
            target,
        );
    } else {
        lemma_lead_aligned(
            addend_negative,
            addend_mantissa,
            addend_exponent,
            product_negative,
            product_mantissa,
            product_exponent,
            target,
        );
    }
}

/// The exact sum `±product * 2^product_exponent ± addend * 2^addend_exponent`
/// aligned to `target`: its sign and magnitude.
#[verifier::rlimit(40)]
fn aligned_sum(
    product_negative: bool,
    product_mantissa: u128,
    product_exponent: i32,
    addend_negative: bool,
    addend_mantissa: u128,
    addend_exponent: i32,
    target: i32,
) -> (r: (bool, u128))
    requires
        product_mantissa < 0x1_0000_0000_0000,
        addend_mantissa < 0x100_0000,
        product_mantissa != 0 || addend_mantissa != 0,
        -400 <= product_exponent <= 400,
        -400 <= addend_exponent <= 400,
        target == (match (
            term_top(product_mantissa as nat, product_exponent as int),
            term_top(addend_mantissa as nat, addend_exponent as int),
        ) {
            (Some(x), Some(y)) => max_int(x, y) - 100,
            (Some(x), None) => x - 100,
            (None, Some(y)) => y - 100,
            (None, None) => 0,
        }),
    ensures
        r.1 == 0 || 0x10_0000_0000_0000 <= r.1 < 0x40_0000_0000_0000_0000_0000_0000,
        ({
            let e = if product_exponent <= addend_exponent {
                product_exponent as int
            } else {
                addend_exponent as int
            };
            let d = target - e;
            let s = signed(
                product_negative,
                (product_mantissa * two_pow((product_exponent - e) as nat)) as int,
            ) + signed(
                addend_negative,
                (addend_mantissa * two_pow((addend_exponent - e) as nat)) as int,
            );
            let v = signed(r.0, r.1 as int);
            aligned_matches_exact(v, s, d)
        }),
{
    proof {
        if product_mantissa != 0 {
            lemma_top_bit(product_mantissa as nat);
            lemma_term_aligned(product_mantissa as nat, product_exponent as int, target as int);
        }
        if addend_mantissa != 0 {
            lemma_top_bit(addend_mantissa as nat);
            lemma_term_aligned(addend_mantissa as nat, addend_exponent as int, target as int);
        }
        lemma_two_pow_values();
        lemma_two_pow_adds(64, 64);
        if product_exponent - target >= 0 && product_mantissa != 0 {
            lemma_two_pow_monotone(
                (product_exponent + top_bit_of(product_mantissa as nat) - target + 1) as nat,
                128,
            );
        }
        if addend_exponent - target >= 0 && addend_mantissa != 0 {
            lemma_two_pow_monotone(
                (addend_exponent + top_bit_of(addend_mantissa as nat) - target + 1) as nat,
                128,
            );
        }
        if product_mantissa != 0 {
            let t = top_bit_of(product_mantissa as nat);
            if t >= 48 {
                lemma_two_pow_monotone(48, t);
                assert(two_pow(48) == 0x1_0000_0000_0000) by {
                    reveal_with_fuel(two_pow, 49);
                }
            }
        }
        if addend_mantissa != 0 {
            let t = top_bit_of(addend_mantissa as nat);
            if t >= 24 {
                lemma_two_pow_monotone(24, t);
            }
        }
    }
    let product_scaled = scale_to(product_mantissa, product_exponent, target);
    let addend_scaled = scale_to(addend_mantissa, addend_exponent, target);
    proof {
        if product_mantissa != 0 && (addend_mantissa == 0 || product_exponent + top_bit_of(
            product_mantissa as nat,
        ) >= addend_exponent + top_bit_of(addend_mantissa as nat)) {
            lemma_aligned_terms(
                product_mantissa as nat,
                product_exponent as int,
                addend_mantissa as nat,
                addend_exponent as int,
                target as int,
                product_scaled as int,
                addend_scaled as int,
            );
        } else {
            lemma_aligned_terms(
                addend_mantissa as nat,
                addend_exponent as int,
                product_mantissa as nat,
                product_exponent as int,
                target as int,
                addend_scaled as int,
                product_scaled as int,
            );
        }
    }

    let r = if product_negative == addend_negative {
        (product_negative, product_scaled + addend_scaled)
    } else if product_scaled > addend_scaled {
        (product_negative, product_scaled - addend_scaled)
    } else if addend_scaled > product_scaled {
        (addend_negative, addend_scaled - product_scaled)
    } else {
        (false, 0)
    };
    assert(signed(r.0, r.1 as int) == signed(product_negative, product_scaled as int) + signed(
        addend_negative,
        addend_scaled as int,
    ));
    proof {
        lemma_aligned_sum_exact(
            product_negative,
            product_mantissa as nat,
            product_exponent as int,
            addend_negative,
            addend_mantissa as nat,
            addend_exponent as int,
            target as int,
        );
    }
    r
}

/// Bit-exact binary32 fused multiply-add on integer mantissas: the two
/// exact terms are aligned in a wide fixed-point accumulator and rounded
/// once, to nearest with ties to even. NaN inputs, `inf * 0` and opposing
/// infinities give the canonical NaN.
pub fn f32_fma_bits(lhs_bits: u32, rhs_bits: u32, addend_bits: u32) -> (r: u32)
    ensures
        fma_special(lhs_bits, rhs_bits, addend_bits) matches Some(v) ==> r == v,
        fma_special(lhs_bits, rhs_bits, addend_bits) is None ==> r == fma_rounded(
            lhs_bits,
            rhs_bits,
            addend_bits,
        ),
{
    if is_nan_bits(lhs_bits) || is_nan_bits(rhs_bits) || is_nan_bits(addend_bits) {
        return F32_CANONICAL_NAN;
    }
    let product_negative = (lhs_bits >= F32_SIGN) != (rhs_bits >= F32_SIGN);
    if is_infinite_bits(lhs_bits) || is_infinite_bits(rhs_bits) {
        if (is_infinite_bits(lhs_bits) && is_zero_bits(rhs_bits)) || (is_infinite_bits(rhs_bits)
            && is_zero_bits(lhs_bits)) {
            return F32_CANONICAL_NAN;
        }
        if is_infinite_bits(addend_bits) && (addend_bits >= F32_SIGN) != product_negative {
            return F32_CANONICAL_NAN;
        }
        return if product_negative {
            F32_SIGN + F32_EXP
        } else {
            F32_EXP
        };
    }
    if is_infinite_bits(addend_bits) {
        return addend_bits;
    }
    let lhs = finite_f32(lhs_bits);
    let rhs = finite_f32(rhs_bits);
    let addend = finite_f32(addend_bits);
    assert(lhs.mantissa * rhs.mantissa < 0x1_0000_0000_0000) by (nonlinear_arith)
        requires
            lhs.mantissa < 0x100_0000,
            rhs.mantissa < 0x100_0000,
    ;
    let product_mantissa = lhs.mantissa as u128 * rhs.mantissa as u128;
    let product_exponent = lhs.exponent + rhs.exponent;
    let addend_mantissa = addend.mantissa as u128;
    if product_mantissa == 0 && addend_mantissa == 0 {
        return if product_negative && addend.negative {
            F32_SIGN
        } else {
            0
        };
    }
    let top = if product_mantissa != 0 && addend_mantissa != 0 {
        let p = product_exponent + top_bit_u128(product_mantissa);
        let a = addend.exponent + top_bit_u128(addend_mantissa);
        if p >= a {
            p
        } else {
            a
        }
    } else if product_mantissa != 0 {
        product_exponent + top_bit_u128(product_mantissa)
    } else {
        addend.exponent + top_bit_u128(addend_mantissa)
    };
    let target = top - 100;
    assert(target == fma_target(lhs_bits, rhs_bits, addend_bits));
    let (negative, magnitude) = aligned_sum(
        product_negative,
        product_mantissa,
        product_exponent,
        addend.negative,
        addend_mantissa,
        addend.exponent,
        target,
    );
    proof {
        lemma_fma_rounding(
            negative,
            magnitude as nat,
            target as int,
            lhs_bits,
            rhs_bits,
            addend_bits,
        );
    }
    if magnitude == 0 {
        return 0;
    }
    round_aligned(negative, magnitude, target)
}

/// The aligned sum rounds as the exact sum does.
#[verifier::spinoff_prover]
#[verifier::rlimit(40)]
proof fn lemma_fma_rounding(
    negative: bool,
    magnitude: nat,
    target: int,
    lhs: u32,
    rhs: u32,
    addend: u32,
)
    requires
        magnitude == 0 || 0x10_0000_0000_0000 <= magnitude,
        ({
            let (s, e) = fma_exact(lhs, rhs, addend);
            let d = target - e;
            let v = signed(negative, magnitude as int);
            aligned_matches_exact(v, s, d)
        }),
    ensures
        magnitude == 0 ==> fma_rounded(lhs, rhs, addend) == 0,
        magnitude != 0 ==> fma_rounded(lhs, rhs, addend) == round_binary32(
            negative,
            magnitude,
            target,
        ),
{
    reveal(aligned_matches_exact);
    let (s, e) = fma_exact(lhs, rhs, addend);
    let d = target - e;
    let v = signed(negative, magnitude as int);
    if d <= 0 {
        let k = (-d) as nat;
        lemma_two_pow_pos(k);
        let pk = two_pow(k) as int;
        if magnitude == 0 {
            assert(s == 0) by (nonlinear_arith)
                requires
                    0 == s * pk,
                    pk >= 1,
            ;
        } else {
            assert(abs_of(v) == abs_of(s) * pk && (v < 0) == (s < 0) && s != 0) by (
            nonlinear_arith)
                requires
                    v == s * pk,
                    pk >= 1,
                    v != 0,
            ;
            lemma_round_scale(negative, abs_of(s) as nat, e, k);
            assert(e - k == target);
            assert((abs_of(s) as nat) * two_pow(k) == magnitude);
            assert((s < 0) == negative);
        }
    } else {
        let dn = d as nat;
        lemma_two_pow_pos(dn);
        let p = two_pow(dn) as int;
        if abs_of(s) % p == 0 {
            if magnitude == 0 {
                assert(s == 0);
            } else {
                assert(abs_of(s) == magnitude * p && (v < 0) == (s < 0)) by (nonlinear_arith)
                    requires
                        v * p == s,
                        p >= 1,
                        v == signed(negative, magnitude as int),
                        magnitude > 0,
                ;
                lemma_round_scale(negative, magnitude, target, dn);
                assert(target - dn == e);
                assert(abs_of(s) as nat == magnitude * two_pow(dn));
                assert((s < 0) == negative);
                assert(magnitude * p >= 1) by (nonlinear_arith)
                    requires
                        magnitude >= 1,
                        p >= 1,
                ;
                assert(s != 0);
            }
        } else {
            assert(magnitude != 0);
            assert(two_pow(52) == 0x10_0000_0000_0000) by {
                reveal_with_fuel(two_pow, 53);
            }
            assert(abs_of(v) == magnitude);
            lemma_round_sticky(negative, abs_of(s) as nat, magnitude, dn, e);
            lemma_round_scale(negative, magnitude, target, dn);
            assert(target - dn == e);
            assert((s < 0) == negative);
            assert(s != 0);
        }
    }
}

} // verus!
