//! Tile coverage validation, deterministic debug output, and worker collection.
use vstd::prelude::*;
use sha2::Digest;
use crate::sweep::{CertifiedRun, IdentitySetId, SweepError};
use crate::telemetry::{
    CertificateTelemetry, tally, add_tallies, tally_fits, lemma_tally_merge, lemma_tally_index,
};
use crate::arrange::{
    keys_distinct, strictly_sorted, is_key_sorting, sorted_by_key, lemma_swap_to_multiset,
    lemma_keys_distinct_rearranged, lemma_sorted_by_key_is, lemma_rearranged_sorts_alike,
};

verus! {

#[derive(Clone, Copy, Debug, Default, PartialEq, Eq, Structural)]
pub struct CoverageRecord {
    pub x0: u16,
    pub x1: u16,
    pub kind: u8,
    pub record_index: u16,
}

#[derive(Clone, Copy, Debug, Default, PartialEq, Eq, Structural)]
pub struct DebugPixel {
    pub object_material_code: u32,
    pub q_class: u16,
    pub coverage: u8,
    pub flags: u8,
}

#[derive(Clone, Copy, Debug, Default, PartialEq, Eq)]
pub struct CompletedTile {
    pub tile_id: u32,
    pub digest: [u8; 32],
}

#[derive(Clone, Copy, Debug)]
pub struct WorkerCompletion<'a> {
    pub worker_index: u16,
    pub tiles: &'a [CompletedTile],
    pub error: Option<SweepError>,
    pub telemetry: &'a CertificateTelemetry,
}

/// Names the SHA-256 digest of a byte string.
pub uninterp spec fn sha256_of(bytes: Seq<u8>) -> Seq<u8>;

/// SHA-256 of `bytes`, by `sha2::Sha256::digest`; the contract names the
/// digest and says nothing of its value.
#[verifier::external_body]
pub(crate) fn sha256(bytes: &[u8]) -> (r: [u8; 32])
    ensures
        r@ == sha256_of(bytes@),
{
    let digest = sha2::Sha256::digest(bytes);
    let mut out = [0u8; 32];
    out.copy_from_slice(&digest);
    out
}

/// The records tile `[tile_x0, tile_x1)` left to right, without gaps or
/// overlaps, each non-empty and of kind 0 (run) or 1 (corridor).
pub open spec fn row_is_covered(tile_x0: int, tile_x1: int, records: Seq<CoverageRecord>) -> bool {
    &&& tile_x0 < tile_x1
    &&& records.len() > 0
    &&& records[0].x0 == tile_x0
    &&& records[records.len() - 1].x1 == tile_x1
    &&& forall|k: int|
        0 <= k < records.len() ==> (#[trigger] records[k]).x0 < records[k].x1 <= tile_x1
            && records[k].kind <= 1
    &&& forall|k: int| 0 <= k < records.len() - 1 ==> #[trigger] records[k + 1].x0 == records[k].x1
}

pub fn validate_row_coverage(tile_x0: u16, tile_x1: u16, records: &[CoverageRecord]) -> (r: Result<
    (),
    SweepError,
>)
    ensures
        r is Ok <==> row_is_covered(tile_x0 as int, tile_x1 as int, records@),
        r matches Err(e) ==> e == SweepError::InternalInvariant,
{
    if tile_x0 >= tile_x1 || records.len() == 0 {
        return Err(SweepError::InternalInvariant);
    }
    let mut cursor = tile_x0;
    let mut k: usize = 0;
    while k < records.len()
        invariant
            k <= records@.len(),
            records@.len() > 0,
            tile_x0 < tile_x1,
            k == 0 ==> cursor == tile_x0,
            k > 0 ==> cursor == records@[k - 1].x1,
            records@[0].x0 == tile_x0 || k == 0,
            forall|j: int|
                0 <= j < k ==> (#[trigger] records@[j]).x0 < records@[j].x1 <= tile_x1
                    && records@[j].kind <= 1,
            forall|j: int| 0 <= j < k - 1 ==> #[trigger] records@[j + 1].x0 == records@[j].x1,
        decreases records@.len() - k,
    {
        let record = records[k];
        if record.x0 != cursor || record.x0 >= record.x1 || record.x1 > tile_x1 || record.kind > 1 {
            proof {
                if k > 0 && record.x0 != cursor {
                    let j = k - 1;
                    assert(records@[j + 1] == records@[k as int]);
                    assert(records@[j + 1].x0 != records@[j].x1);
                }
            }
            return Err(SweepError::InternalInvariant);
        }
        cursor = record.x1;
        k = k + 1;
    }
    if cursor != tile_x1 {
        return Err(SweepError::InternalInvariant);
    }
    Ok(())
}

/// Debug class of a q interval: leading zeros of its larger endpoint
/// magnitude in the high byte, its width (capped at 255) in the low byte.
pub open spec fn q_class_of(q_lo: i32, q_hi: i32) -> u16 {
    let width = q_hi - q_lo;
    let abs_width = if width < 0 {
        -width
    } else {
        width
    };
    let lo_abs = if q_lo < 0 {
        -q_lo
    } else {
        q_lo as int
    };
    let hi_abs = if q_hi < 0 {
        -q_hi
    } else {
        q_hi as int
    };
    let magnitude = if lo_abs >= hi_abs {
        lo_abs
    } else {
        hi_abs
    };
    let low = if abs_width < 255 {
        abs_width
    } else {
        255
    };
    (((vstd::std_specs::bits::u64_leading_zeros(magnitude as u64) as u16) << 8u16) | (low as u16))
}

pub open spec fn debug_pixel_spec(identity: IdentitySetId, q_lo: i32, q_hi: i32, coverage: u8) -> DebugPixel {
    DebugPixel {
        object_material_code: ((identity.0 as int * 0x9e37_79b1) % 0x1_0000_0000) as u32,
        q_class: q_class_of(q_lo, q_hi),
        coverage,
        flags: if identity.0 != 0 {
            1
        } else {
            0
        },
    }
}

pub fn debug_pixel(identity: IdentitySetId, q_lo: i32, q_hi: i32, coverage: u8) -> (r: DebugPixel)
    ensures
        r == debug_pixel_spec(identity, q_lo, q_hi, coverage),
{
    let width: i64 = q_hi as i64 - q_lo as i64;
    let abs_width: i64 = if width < 0 {
        -width
    } else {
        width
    };
    let lo_abs: i64 = if q_lo < 0 {
        -(q_lo as i64)
    } else {
        q_lo as i64
    };
    let hi_abs: i64 = if q_hi < 0 {
        -(q_hi as i64)
    } else {
        q_hi as i64
    };
    let magnitude: u64 = if lo_abs >= hi_abs {
        lo_abs as u64
    } else {
        hi_abs as u64
    };
    let low: u16 = if abs_width < 255 {
        abs_width as u16
    } else {
        255
    };
    let zeros = magnitude.leading_zeros();
    proof {
        vstd::std_specs::bits::axiom_u64_leading_zeros(magnitude);
    }
    let q_class: u16 = ((zeros as u16) << 8) | low;
    let code = identity.0.wrapping_mul(0x9e37_79b1);
    DebugPixel {
        object_material_code: code,
        q_class,
        coverage,
        flags: if identity.0 != 0 {
            1
        } else {
            0
        },
    }
}

/// The pixel a run paints: its identity and q class when visible, the
/// default pixel otherwise.
pub open spec fn run_pixel(run: CertifiedRun) -> DebugPixel {
    if run.visible is Some {
        debug_pixel_spec(run.identity, run.q_model.q0.lo, run.q_model.q0.hi, 255)
    } else {
        DebugPixel { object_material_code: 0, q_class: 0, coverage: 0, flags: 0 }
    }
}

pub fn raster_debug_run(run: CertifiedRun, pixels: &mut [DebugPixel]) -> (r: Result<(), SweepError>)
    ensures
        run.x1 < run.x0 ==> r == Err::<(), SweepError>(SweepError::InternalInvariant),
        run.x1 >= run.x0 && old(pixels)@.len() != run.x1 - run.x0 ==> r == Err::<(), SweepError>(
            SweepError::CapacityExceeded,
        ),
        run.x1 >= run.x0 && old(pixels)@.len() == run.x1 - run.x0 ==> r is Ok,
        r is Ok ==> final(pixels)@ == Seq::new(old(pixels)@.len(), |i: int| run_pixel(run)),
        r is Err ==> final(pixels)@ == old(pixels)@,
{
    if run.x1 < run.x0 {
        return Err(SweepError::InternalInvariant);
    }
    let width = (run.x1 - run.x0) as usize;
    if pixels.len() != width {
        return Err(SweepError::CapacityExceeded);
    }
    let pixel = if run.visible.is_some() {
        debug_pixel(run.identity, run.q_model.q0.lo, run.q_model.q0.hi, 255)
    } else {
        DebugPixel { object_material_code: 0, q_class: 0, coverage: 0, flags: 0 }
    };
    let mut i: usize = 0;
    while i < pixels.len()
        invariant
            i <= pixels@.len(),
            pixels@.len() == old(pixels)@.len(),
            pixel == run_pixel(run),
            forall|j: int| 0 <= j < i ==> #[trigger] pixels@[j] == pixel,
        decreases pixels@.len() - i,
    {
        pixels[i] = pixel;
        i = i + 1;
    }
    assert(pixels@ =~= Seq::new(old(pixels)@.len(), |i: int| run_pixel(run)));
    Ok(())
}

pub open spec fn le16(v: u16) -> Seq<u8> {
    seq![(v & 0xff) as u8, (v >> 8u16) as u8]
}

pub open spec fn le32(v: u32) -> Seq<u8> {
    seq![(v & 0xff) as u8, ((v >> 8u32) & 0xff) as u8, ((v >> 16u32) & 0xff) as u8, (v >> 24u32) as u8]
}

/// The eight bytes a pixel contributes to the tile digest.
pub open spec fn pixel_bytes(p: DebugPixel) -> Seq<u8> {
    le32(p.object_material_code) + le16(p.q_class) + seq![p.coverage, p.flags]
}

pub open spec fn zero_digest() -> Seq<u8> {
    Seq::new(32, |i: int| 0u8)
}

/// Digest chain over the first `k` pixels: each step hashes the previous
/// state followed by the pixel's bytes.
pub open spec fn tile_digest_upto(pixels: Seq<DebugPixel>, k: nat) -> Seq<u8>
    decreases k,
{
    if k == 0 {
        zero_digest()
    } else {
        sha256_of(tile_digest_upto(pixels, (k - 1) as nat) + pixel_bytes(pixels[k - 1]))
    }
}

/// Digest chain over the first `k` tiles: previous state, tile id, tile digest.
pub open spec fn frame_digest_upto(tiles: Seq<CompletedTile>, k: nat) -> Seq<u8>
    decreases k,
{
    if k == 0 {
        zero_digest()
    } else {
        sha256_of(frame_digest_upto(tiles, (k - 1) as nat) + le32(tiles[k - 1].tile_id) + tiles[k
            - 1].digest@)
    }
}

fn write_le32(bytes: &mut [u8], at: usize, v: u32)
    requires
        at + 4 <= old(bytes)@.len(),
    ensures
        final(bytes)@.len() == old(bytes)@.len(),
        final(bytes)@.subrange(at as int, at + 4) == le32(v),
        forall|i: int|
            0 <= i < old(bytes)@.len() && !(at <= i < at + 4) ==> #[trigger] final(bytes)@[i]
                == old(bytes)@[i],
{
    bytes[at] = (v & 0xff) as u8;
    bytes[at + 1] = ((v >> 8) & 0xff) as u8;
    bytes[at + 2] = ((v >> 16) & 0xff) as u8;
    bytes[at + 3] = (v >> 24) as u8;
    assert(bytes@.subrange(at as int, at + 4) =~= le32(v));
}

fn debug_tile_digest(pixels: &[DebugPixel]) -> (r: [u8; 32])
    ensures
        r@ == tile_digest_upto(pixels@, pixels@.len()),
{
    let mut state = [0u8; 32];
    assert(state@ =~= zero_digest());
    let mut k: usize = 0;
    while k < pixels.len()
        invariant
            k <= pixels@.len(),
            state@ == tile_digest_upto(pixels@, k as nat),
        decreases pixels@.len() - k,
    {
        let pixel = pixels[k];
        let mut bytes = [0u8; 40];
        let mut i: usize = 0;
        while i < 32
            invariant
                i <= 32,
                bytes@.len() == 40,
                forall|j: int| 0 <= j < i ==> #[trigger] bytes@[j] == state@[j],
            decreases 32 - i,
        {
            bytes[i] = state[i];
            i = i + 1;
        }
        let ghost prefix = bytes@.subrange(0, 32);
        write_le32(&mut bytes, 32, pixel.object_material_code);
        bytes[36] = (pixel.q_class & 0xff) as u8;
        bytes[37] = (pixel.q_class >> 8) as u8;
        bytes[38] = pixel.coverage;
        bytes[39] = pixel.flags;
        proof {
            assert(bytes@ =~= state@ + pixel_bytes(pixel));
        }
        state = sha256(&bytes);
        k = k + 1;
    }
    state
}

pub fn debug_frame_digest(tiles: &[CompletedTile]) -> (r: [u8; 32])
    ensures
        r@ == frame_digest_upto(tiles@, tiles@.len()),
{
    let mut state = [0u8; 32];
    assert(state@ =~= zero_digest());
    let mut k: usize = 0;
    while k < tiles.len()
        invariant
            k <= tiles@.len(),
            state@ == frame_digest_upto(tiles@, k as nat),
        decreases tiles@.len() - k,
    {
        let tile = tiles[k];
        let mut bytes = [0u8; 68];
        let mut i: usize = 0;
        while i < 32
            invariant
                i <= 32,
                bytes@.len() == 68,
                forall|j: int| 0 <= j < i ==> #[trigger] bytes@[j] == state@[j],
            decreases 32 - i,
        {
            bytes[i] = state[i];
            i = i + 1;
        }
        write_le32(&mut bytes, 32, tile.tile_id);
        let mut j: usize = 0;
        while j < 32
            invariant
                j <= 32,
                bytes@.len() == 68,
                forall|m: int| 0 <= m < 32 ==> #[trigger] bytes@[m] == state@[m],
                bytes@.subrange(32, 36) == le32(tile.tile_id),
                forall|m: int| 0 <= m < j ==> #[trigger] bytes@[36 + m] == tile.digest@[m],
            decreases 32 - j,
        {
            bytes[36 + j] = tile.digest[j];
            j = j + 1;
        }
        proof {
            assert forall|m: int| 32 <= m < 36 implies #[trigger] bytes@[m] == le32(tile.tile_id)[m
                - 32] by {
                assert(bytes@.subrange(32, 36)[m - 32] == bytes@[m]);
            }
            assert forall|m: int| 36 <= m < 68 implies #[trigger] bytes@[m] == tile.digest@[m - 36] by {
                assert(bytes@[36 + (m - 36)] == tile.digest@[m - 36]);
            }
            assert(bytes@ =~= state@ + le32(tile.tile_id) + tile.digest@);
        }
        state = sha256(&bytes);
        k = k + 1;
    }
    state
}

/// The pixel a coverage record paints.
pub open spec fn record_pixel(
    record: CoverageRecord,
    runs: Seq<CertifiedRun>,
    corridor_pixels: Seq<DebugPixel>,
) -> DebugPixel {
    if record.kind == 0 {
        run_pixel(runs[record.record_index as int])
    } else {
        corridor_pixels[record.record_index as int]
    }
}

/// A record names an existing run spanning exactly its pixels, or an
/// existing corridor pixel.
pub open spec fn record_resolves(
    record: CoverageRecord,
    runs: Seq<CertifiedRun>,
    corridor_pixels: Seq<DebugPixel>,
) -> bool {
    if record.kind == 0 {
        record.record_index < runs.len() && runs[record.record_index as int].x0 == record.x0
            && runs[record.record_index as int].x1 == record.x1
    } else {
        record.record_index < corridor_pixels.len()
    }
}

pub open spec fn row_records(offsets: Seq<u32>, coverage: Seq<CoverageRecord>, row: int) -> Seq<
    CoverageRecord,
> {
    coverage.subrange(offsets[row] as int, offsets[row + 1] as int)
}

/// Every check `render_tile` makes passes.
pub open spec fn tile_is_renderable(
    tile_x0: u16,
    tile_x1: u16,
    tile_y0: u16,
    tile_y1: u16,
    offsets: Seq<u32>,
    coverage: Seq<CoverageRecord>,
    runs: Seq<CertifiedRun>,
    corridor_pixels: Seq<DebugPixel>,
    output_len: int,
) -> bool {
    let width = tile_x1 - tile_x0;
    let height = tile_y1 - tile_y0;
    &&& tile_x0 < tile_x1
    &&& tile_y0 < tile_y1
    &&& offsets.len() == height + 1
    &&& output_len == width * height
    &&& offsets[0] == 0
    &&& offsets[height] == coverage.len()
    &&& forall|row: int|
        0 <= row < height ==> offsets[row] <= #[trigger] offsets[row + 1] <= coverage.len()
            && row_is_covered(tile_x0 as int, tile_x1 as int, row_records(offsets, coverage, row))
    &&& forall|row: int, k: int|
        0 <= row < height && offsets[row] <= k < offsets[row + 1] ==> record_resolves(
            #[trigger] coverage[k],
            runs,
            corridor_pixels,
        ) && #[trigger] offsets[row] >= 0
}

/// On success every pixel of row `row`, column `x`, holds the pixel of the
/// record covering `x` in that row.
pub open spec fn tile_pixels_written(
    tile_x0: u16,
    tile_x1: u16,
    tile_y0: u16,
    tile_y1: u16,
    offsets: Seq<u32>,
    coverage: Seq<CoverageRecord>,
    runs: Seq<CertifiedRun>,
    corridor_pixels: Seq<DebugPixel>,
    output: Seq<DebugPixel>,
) -> bool {
    let width = tile_x1 - tile_x0;
    let height = tile_y1 - tile_y0;
    forall|row: int, k: int, x: int|
        0 <= row < height && offsets[row] <= k < offsets[row + 1] && coverage[k].x0 <= x
            < coverage[k].x1 ==> #[trigger] output[row * width + (x - tile_x0)] == record_pixel(
            #[trigger] coverage[k],
            runs,
            corridor_pixels,
        )
}

/// Writes `pixel` over positions `from..to`.
fn fill_range(output: &mut [DebugPixel], from: usize, to: usize, pixel: DebugPixel)
    requires
        from <= to <= old(output)@.len(),
    ensures
        final(output)@.len() == old(output)@.len(),
        forall|i: int| from <= i < to ==> #[trigger] final(output)@[i] == pixel,
        forall|i: int|
            0 <= i < old(output)@.len() && !(from <= i < to) ==> #[trigger] final(output)@[i]
                == old(output)@[i],
{
    let mut i = from;
    while i < to
        invariant
            from <= i <= to <= output@.len(),
            output@.len() == old(output)@.len(),
            forall|j: int| from <= j < i ==> #[trigger] output@[j] == pixel,
            forall|j: int|
                0 <= j < old(output)@.len() && !(from <= j < i) ==> #[trigger] output@[j]
                    == old(output)@[j],
        decreases to - i,
    {
        output[i] = pixel;
        i = i + 1;
    }
}

/// Records that tile a row lie left to right: each starts at or after
/// the tile's left edge and ends at or before the start of every later one.
proof fn lemma_covered_row_ordered(tile_x0: int, tile_x1: int, records: Seq<CoverageRecord>, j: int)
    requires
        row_is_covered(tile_x0, tile_x1, records),
        0 <= j < records.len(),
    ensures
        tile_x0 <= records[j].x0,
        forall|i: int| 0 <= i < j ==> (#[trigger] records[i]).x1 <= records[j].x0,
    decreases j,
{
    if j > 0 {
        lemma_covered_row_ordered(tile_x0, tile_x1, records, j - 1);
        assert(records[j - 1 + 1].x0 == records[j - 1].x1);
        assert forall|i: int| 0 <= i < j implies (#[trigger] records[i]).x1 <= records[j].x0 by {
            if i < j - 1 {
                assert(records[i].x1 <= records[j - 1].x0);
                assert(records[j - 1].x0 < records[j - 1].x1);
            }
        }
    }
}

proof fn lemma_row_position(r: int, row: int, width: int, c: int)
    by (nonlinear_arith)
    requires
        0 <= r < row,
        0 <= c < width,
    ensures
        0 <= r * width + c < row * width,
        r * width + c < r * width + width,
{
}

/// Paints one covered row, starting at `base` of `output`, record by record;
/// false at the first record naming a missing run or corridor pixel, or a
/// run that does not span it.
fn paint_row(
    tile_x0: u16,
    tile_x1: u16,
    records: &[CoverageRecord],
    runs: &[CertifiedRun],
    corridor_pixels: &[DebugPixel],
    output: &mut [DebugPixel],
    base: usize,
) -> (ok: bool)
    requires
        row_is_covered(tile_x0 as int, tile_x1 as int, records@),
        base + (tile_x1 - tile_x0) <= old(output)@.len(),
    ensures
        final(output)@.len() == old(output)@.len(),
        ok <==> forall|j: int|
            0 <= j < records@.len() ==> record_resolves(
                #[trigger] records@[j],
                runs@,
                corridor_pixels@,
            ),
        ok ==> forall|j: int, x: int|
            0 <= j < records@.len() && records@[j].x0 <= x < records@[j].x1
                ==> #[trigger] final(output)@[base + (x - tile_x0)] == record_pixel(
                #[trigger] records@[j],
                runs@,
                corridor_pixels@,
            ),
        forall|i: int|
            0 <= i < old(output)@.len() && !(base <= i < base + (tile_x1 - tile_x0))
                ==> #[trigger] final(output)@[i] == old(output)@[i],
{
    let width = (tile_x1 - tile_x0) as usize;
    let limit = output.len();
    proof {
        assert forall|j: int| 0 <= j < records@.len() implies tile_x0 <= (
        #[trigger] records@[j]).x0 && records@[j].x1 <= tile_x1 && forall|i: int|
            0 <= i < j ==> records@[i].x1 <= records@[j].x0 by {
            lemma_covered_row_ordered(tile_x0 as int, tile_x1 as int, records@, j);
        }
    }
    let mut k: usize = 0;
    while k < records.len()
        invariant
            k <= records@.len(),
            width == tile_x1 - tile_x0,
            row_is_covered(tile_x0 as int, tile_x1 as int, records@),
            forall|j: int|
                0 <= j < records@.len() ==> tile_x0 <= (#[trigger] records@[j]).x0
                    && records@[j].x1 <= tile_x1 && forall|i: int|
                    0 <= i < j ==> records@[i].x1 <= records@[j].x0,
            base + width <= output@.len(),
            output@.len() == old(output)@.len(),
            output@.len() == limit,
            forall|j: int|
                0 <= j < k ==> record_resolves(#[trigger] records@[j], runs@, corridor_pixels@),
            forall|j: int, x: int|
                0 <= j < k && records@[j].x0 <= x < records@[j].x1
                    ==> #[trigger] output@[base + (x - tile_x0)] == record_pixel(
                    #[trigger] records@[j],
                    runs@,
                    corridor_pixels@,
                ),
            forall|i: int|
                0 <= i < output@.len() && !(base <= i < base + width) ==> #[trigger] output@[i]
                    == old(output)@[i],
        decreases records@.len() - k,
    {
        let record = records[k];
        assert(record == records@[k as int]);
        let first = (record.x0 - tile_x0) as usize;
        let last = (record.x1 - tile_x0) as usize;
        let pixel = if record.kind == 0 {
            if record.record_index as usize >= runs.len() {
                return false;
            }
            let run = runs[record.record_index as usize];
            if run.x0 != record.x0 || run.x1 != record.x1 {
                return false;
            }
            if run.visible.is_some() {
                debug_pixel(run.identity, run.q_model.q0.lo, run.q_model.q0.hi, 255)
            } else {
                DebugPixel { object_material_code: 0, q_class: 0, coverage: 0, flags: 0 }
            }
        } else {
            if record.record_index as usize >= corridor_pixels.len() {
                return false;
            }
            corridor_pixels[record.record_index as usize]
        };
        assert(pixel == record_pixel(records@[k as int], runs@, corridor_pixels@));
        let ghost mid = output@;
        fill_range(output, base + first, base + last, pixel);
        proof {
            assert forall|j: int, x: int|
                0 <= j < k + 1 && records@[j].x0 <= x < records@[j].x1 implies #[trigger] output@[base
                + (x - tile_x0)] == record_pixel(#[trigger] records@[j], runs@, corridor_pixels@) by {
                if j < k {
                    assert(records@[j].x1 <= records@[k as int].x0);
                    assert(output@[base + (x - tile_x0)] == mid[base + (x - tile_x0)]);
                }
            }
        }
        k = k + 1;
    }
    true
}

/// Paints every row of the tile from its coverage records (runs and
/// corridor pixels) after checking that each row is exactly covered, and
/// seals the painted pixels with the tile digest.
#[verifier::loop_isolation(false)]
#[verifier::rlimit(40)]
pub fn render_tile(
    tile_id: u32,
    tile_x0: u16,
    tile_x1: u16,
    tile_y0: u16,
    tile_y1: u16,
    row_record_offsets: &[u32],
    coverage: &[CoverageRecord],
    runs: &[CertifiedRun],
    corridor_pixels: &[DebugPixel],
    output: &mut [DebugPixel],
) -> (r: Result<CompletedTile, SweepError>)
    ensures
        final(output)@.len() == old(output)@.len(),
        r is Ok <==> tile_is_renderable(
            tile_x0,
            tile_x1,
            tile_y0,
            tile_y1,
            row_record_offsets@,
            coverage@,
            runs@,
            corridor_pixels@,
            old(output)@.len() as int,
        ),
        r matches Err(e) ==> e == SweepError::InternalInvariant,
        r matches Ok(tile) ==> tile.tile_id == tile_id && tile.digest@ == tile_digest_upto(
            final(output)@,
            final(output)@.len(),
        ) && tile_pixels_written(
            tile_x0,
            tile_x1,
            tile_y0,
            tile_y1,
            row_record_offsets@,
            coverage@,
            runs@,
            corridor_pixels@,
            final(output)@,
        ),
{
    if tile_x1 < tile_x0 || tile_y1 < tile_y0 {
        return Err(SweepError::InternalInvariant);
    }
    let width = (tile_x1 - tile_x0) as usize;
    let height = (tile_y1 - tile_y0) as usize;
    proof {
        assert(width * height <= 0xffff * 0xffff) by (nonlinear_arith)
            requires
                width <= 0xffff,
                height <= 0xffff,
        ;
    }
    if width == 0 || height == 0 || row_record_offsets.len() != height + 1 || output.len() != width
        * height || row_record_offsets[0] != 0 || row_record_offsets[height] as usize
        != coverage.len() {
        return Err(SweepError::InternalInvariant);
    }
    let ghost offsets = row_record_offsets@;
    let mut row: usize = 0;
    while row < height
        invariant
            row <= height,
            width == tile_x1 - tile_x0,
            height == tile_y1 - tile_y0,
            width > 0,
            offsets == row_record_offsets@,
            offsets.len() == height + 1,
            output@.len() == width * height,
            output@.len() == old(output)@.len(),
            offsets[0] == 0,
            offsets[height as int] == coverage@.len(),
            forall|r: int|
                0 <= r < row ==> offsets[r] <= #[trigger] offsets[r + 1] <= coverage@.len()
                    && row_is_covered(
                    tile_x0 as int,
                    tile_x1 as int,
                    row_records(offsets, coverage@, r),
                ),
            forall|r: int, k: int|
                0 <= r < row && offsets[r] <= k < offsets[r + 1] ==> record_resolves(
                    #[trigger] coverage@[k],
                    runs@,
                    corridor_pixels@,
                ) && #[trigger] offsets[r] >= 0 && tile_x0 <= coverage@[k].x0 && coverage@[k].x1
                    <= tile_x1,
            forall|r: int, k: int, x: int|
                0 <= r < row && offsets[r] <= k < offsets[r + 1] && coverage@[k].x0 <= x
                    < coverage@[k].x1 ==> #[trigger] output@[r * width + (x - tile_x0)]
                    == record_pixel(#[trigger] coverage@[k], runs@, corridor_pixels@),
        decreases height - row,
    {
        let start = row_record_offsets[row] as usize;
        let end = row_record_offsets[row + 1] as usize;
        if start > end || end > coverage.len() {
            return Err(SweepError::InternalInvariant);
        }
        let records = vstd::slice::slice_subrange(coverage, start, end);
        let checked = validate_row_coverage(tile_x0, tile_x1, records);
        if checked.is_err() {
            return Err(SweepError::InternalInvariant);
        }
        proof {
            assert(records@ == row_records(offsets, coverage@, row as int));
            assert(row * width + width <= height * width) by (nonlinear_arith)
                requires
                    row < height,
            ;
            assert(row * width >= 0) by (nonlinear_arith)
                requires
                    row >= 0,
                    width >= 0,
            ;
            assert forall|j: int| 0 <= j < records@.len() implies tile_x0 <= (
            #[trigger] records@[j]).x0 && records@[j].x1 <= tile_x1 && forall|i: int|
                0 <= i < j ==> records@[i].x1 <= records@[j].x0 by {
                lemma_covered_row_ordered(tile_x0 as int, tile_x1 as int, records@, j);
            }
        }
        let base = row * width;
        let ghost before = output@;
        let painted = paint_row(tile_x0, tile_x1, records, runs, corridor_pixels, output, base);
        if !painted {
            proof {
                let j = choose|j: int|
                    0 <= j < records@.len() && !record_resolves(
                        #[trigger] records@[j],
                        runs@,
                        corridor_pixels@,
                    );
                assert(records@[j] == coverage@[start + j]);
                assert(offsets[row as int] >= 0);
            }
            return Err(SweepError::InternalInvariant);
        }
        proof {
            assert forall|r: int, kk: int|
                0 <= r < row + 1 && offsets[r] <= kk < offsets[r + 1] implies record_resolves(
                #[trigger] coverage@[kk],
                runs@,
                corridor_pixels@,
            ) && #[trigger] offsets[r] >= 0 && tile_x0 <= coverage@[kk].x0 && coverage@[kk].x1
                <= tile_x1 by {
                if r == row {
                    assert(records@[kk - start] == coverage@[kk]);
                }
            }
            assert forall|r: int, kk: int, x: int|
                0 <= r < row + 1 && offsets[r] <= kk < offsets[r + 1] && coverage@[kk].x0 <= x
                    < coverage@[kk].x1 implies #[trigger] output@[r * width + (x - tile_x0)]
                == record_pixel(#[trigger] coverage@[kk], runs@, corridor_pixels@) by {
                if r < row {
                    lemma_row_position(r, row as int, width as int, x - tile_x0);
                    assert(output@[r * width + (x - tile_x0)] == before[r * width + (x - tile_x0)]);
                } else {
                    assert(records@[kk - start] == coverage@[kk]);
                    assert(row * width + (x - tile_x0) == base + (x - tile_x0));
                }
            }
        }
        row = row + 1;
    }
    let digest = debug_tile_digest(output);
    Ok(CompletedTile { tile_id, digest })
}

/// Completions are ordered by worker index.
pub open spec fn worker_key<'a>() -> spec_fn(WorkerCompletion<'a>) -> int {
    |c: WorkerCompletion<'a>| c.worker_index as int
}

/// Tiles are ordered by tile id.
pub open spec fn tile_key() -> spec_fn(CompletedTile) -> int {
    |t: CompletedTile| t.tile_id as int
}

/// The completions at the first `n` positions named by `order`.
pub open spec fn picked<'a>(completions: Seq<WorkerCompletion<'a>>, order: Seq<usize>, n: int) -> Seq<
    WorkerCompletion<'a>,
> {
    Seq::new(n as nat, |p: int| completions[order[p] as int])
}

/// The start telemetry plus the telemetry of the first `k` completions of `s`.
pub open spec fn running_tally<'a>(
    start: CertificateTelemetry,
    s: Seq<WorkerCompletion<'a>>,
    k: nat,
) -> Seq<int>
    decreases k,
{
    if k == 0 {
        tally(start)
    } else {
        add_tallies(running_tally(start, s, (k - 1) as nat), tally(*s[k - 1].telemetry))
    }
}

/// The tiles of the first `k` completions of `s`, one completion after another.
pub open spec fn gathered<'a>(s: Seq<WorkerCompletion<'a>>, k: nat) -> Seq<CompletedTile>
    decreases k,
{
    if k == 0 {
        Seq::empty()
    } else {
        gathered(s, (k - 1) as nat) + s[k - 1].tiles@
    }
}

/// How taking in completion `k` of `s` fails, once those before it were
/// taken in: its own error, a telemetry counter overflowing, or more tiles
/// than `capacity`.
pub open spec fn step_failure<'a>(
    start: CertificateTelemetry,
    s: Seq<WorkerCompletion<'a>>,
    capacity: nat,
    k: int,
) -> Option<SweepError> {
    if s[k].error is Some {
        s[k].error
    } else if !tally_fits(running_tally(start, s, (k + 1) as nat)) {
        Some(SweepError::InternalInvariant)
    } else if gathered(s, (k + 1) as nat).len() > capacity {
        Some(SweepError::CapacityExceeded)
    } else {
        None
    }
}

/// The first failure among the first `k` completions of `s`, taken in order.
pub open spec fn first_failure<'a>(
    start: CertificateTelemetry,
    s: Seq<WorkerCompletion<'a>>,
    capacity: nat,
    k: nat,
) -> Option<SweepError>
    decreases k,
{
    if k == 0 {
        None
    } else {
        match first_failure(start, s, capacity, (k - 1) as nat) {
            Some(e) => Some(e),
            None => step_failure(start, s, capacity, k - 1),
        }
    }
}

proof fn lemma_first_failure_sticks<'a>(
    start: CertificateTelemetry,
    s: Seq<WorkerCompletion<'a>>,
    capacity: nat,
    k: nat,
    m: nat,
)
    requires
        k <= m,
        first_failure(start, s, capacity, k) is Some,
    ensures
        first_failure(start, s, capacity, m) == first_failure(start, s, capacity, k),
    decreases m - k,
{
    if k < m {
        lemma_first_failure_sticks(start, s, capacity, k, (m - 1) as nat);
    }
}

/// Sorts the first `count` tiles by tile id; false when two share an id.
fn sort_tiles_by_id(tiles: &mut [CompletedTile], count: usize) -> (r: bool)
    requires
        count <= old(tiles)@.len(),
    ensures
        final(tiles)@.len() == old(tiles)@.len(),
        final(tiles)@.take(count as int).to_multiset() == old(tiles)@.take(count as int).to_multiset(),
        r <==> keys_distinct(old(tiles)@.take(count as int), tile_key()),
        r ==> strictly_sorted(final(tiles)@.take(count as int), tile_key()),
{
    let ghost original = tiles@.take(count as int);
    if count == 0 {
        return true;
    }
    let mut index: usize = 1;
    while index < count
        invariant
            1 <= index <= count <= tiles@.len(),
            tiles@.len() == old(tiles)@.len(),
            original == old(tiles)@.take(count as int),
            tiles@.take(count as int).to_multiset() == original.to_multiset(),
            forall|a: int, b: int|
                0 <= a < b < index ==> (#[trigger] tiles@[a]).tile_id < (#[trigger] tiles@[b]).tile_id,
        decreases count - index,
    {
        let mut d = index;
        while d > 0 && tiles[d].tile_id < tiles[d - 1].tile_id
            invariant
                0 <= d <= index < count <= tiles@.len(),
                tiles@.len() == old(tiles)@.len(),
                tiles@.take(count as int).to_multiset() == original.to_multiset(),
                forall|a: int, b: int|
                    0 <= a < b < d ==> (#[trigger] tiles@[a]).tile_id < (#[trigger] tiles@[b]).tile_id,
                forall|a: int, b: int|
                    d <= a < b <= index ==> (#[trigger] tiles@[a]).tile_id < (
                    #[trigger] tiles@[b]).tile_id,
                forall|a: int, b: int|
                    0 <= a < d < b <= index ==> (#[trigger] tiles@[a]).tile_id < (
                    #[trigger] tiles@[b]).tile_id,
            decreases d,
        {
            let ghost prior = tiles@;
            let moving = tiles[d];
            tiles[d] = tiles[d - 1];
            tiles[d - 1] = moving;
            proof {
                let t = prior.take(count as int);
                lemma_swap_to_multiset(t, d as int, d - 1);
                assert(tiles@.take(count as int) =~= t.update(d as int, t[d - 1]).update(
                    d - 1,
                    t[d as int],
                ));
            }
            d = d - 1;
        }
        if d > 0 && tiles[d].tile_id == tiles[d - 1].tile_id {
            proof {
                let t = tiles@.take(count as int);
                assert(t[d - 1].tile_id == t[d as int].tile_id);
                assert(!keys_distinct(t, tile_key()));
                if keys_distinct(original, tile_key()) {
                    lemma_keys_distinct_rearranged(t, original, tile_key());
                }
            }
            return false;
        }
        index = index + 1;
    }
    proof {
        let t = tiles@.take(count as int);
        assert(strictly_sorted(t, tile_key()));
        assert(keys_distinct(t, tile_key()));
        lemma_keys_distinct_rearranged(original, t, tile_key());
    }
    true
}

/// Orders the first `n` indices by the worker index of the completions
/// they name; false when two completions share a worker index.
fn order_by_worker<'a>(completions: &[WorkerCompletion<'a>], order: &mut [usize], n: usize) -> (r:
    bool)
    requires
        n == completions@.len(),
        n <= old(order)@.len(),
        forall|p: int| 0 <= p < n ==> #[trigger] old(order)@[p] == p,
    ensures
        final(order)@.len() == old(order)@.len(),
        forall|p: int| 0 <= p < n ==> #[trigger] final(order)@[p] < n,
        picked(completions@, final(order)@, n as int).to_multiset() == completions@.to_multiset(),
        r <==> keys_distinct(completions@, worker_key()),
        r ==> strictly_sorted(picked(completions@, final(order)@, n as int), worker_key()),
{
    proof {
        assert(picked(completions@, order@, n as int) =~= completions@);
    }
    if n == 0 {
        return true;
    }
    let mut index: usize = 1;
    while index < n
        invariant
            1 <= index <= n <= order@.len(),
            n == completions@.len(),
            order@.len() == old(order)@.len(),
            forall|p: int| 0 <= p < n ==> #[trigger] order@[p] < n,
            picked(completions@, order@, n as int).to_multiset() == completions@.to_multiset(),
            forall|a: int, b: int|
                0 <= a < b < index ==> completions@[(#[trigger] order@[a]) as int].worker_index
                    < completions@[(#[trigger] order@[b]) as int].worker_index,
        decreases n - index,
    {
        let mut d = index;
        while d > 0 && completions[order[d]].worker_index < completions[order[d - 1]].worker_index
            invariant
                0 <= d <= index < n <= order@.len(),
                n == completions@.len(),
                order@.len() == old(order)@.len(),
                forall|p: int| 0 <= p < n ==> #[trigger] order@[p] < n,
                picked(completions@, order@, n as int).to_multiset() == completions@.to_multiset(),
                forall|a: int, b: int|
                    0 <= a < b < d ==> completions@[(#[trigger] order@[a]) as int].worker_index
                        < completions@[(#[trigger] order@[b]) as int].worker_index,
                forall|a: int, b: int|
                    d <= a < b <= index ==> completions@[(#[trigger] order@[a]) as int].worker_index
                        < completions@[(#[trigger] order@[b]) as int].worker_index,
                forall|a: int, b: int|
                    0 <= a < d < b <= index ==> completions@[(
                    #[trigger] order@[a]) as int].worker_index < completions@[(
                    #[trigger] order@[b]) as int].worker_index,
            decreases d,
        {
            let ghost prior = order@;
            let moving = order[d];
            order[d] = order[d - 1];
            order[d - 1] = moving;
            proof {
                let t = picked(completions@, prior, n as int);
                lemma_swap_to_multiset(t, d as int, d - 1);
                assert(picked(completions@, order@, n as int) =~= t.update(d as int, t[d - 1]).update(
                    d - 1,
                    t[d as int],
                ));
            }
            d = d - 1;
        }
        if d > 0 && completions[order[d]].worker_index == completions[order[d - 1]].worker_index {
            proof {
                let t = picked(completions@, order@, n as int);
                assert(t[d - 1].worker_index == t[d as int].worker_index);
                assert(!keys_distinct(t, worker_key()));
                if keys_distinct(completions@, worker_key()) {
                    lemma_keys_distinct_rearranged(t, completions@, worker_key());
                }
            }
            return false;
        }
        index = index + 1;
    }
    proof {
        let t = picked(completions@, order@, n as int);
        assert forall|a: int, b: int| 0 <= a < b < t.len() implies (worker_key())(#[trigger] t[a])
            < (worker_key())(#[trigger] t[b]) by {
            assert(t[a] == completions@[order@[a] as int]);
            assert(t[b] == completions@[order@[b] as int]);
        }
        assert(keys_distinct(t, worker_key()));
        lemma_keys_distinct_rearranged(completions@, t, worker_key());
    }
    true
}

/// Takes in the workers' completions in worker order: the first worker
/// error, a telemetry overflow or more tiles than `tiles` holds ends it;
/// otherwise the tiles are laid out in tile-id order and the telemetry is
/// the sum of all. Duplicate worker indices or tile ids are refused.
#[verifier::loop_isolation(false)]
#[verifier::rlimit(40)]
pub fn collect_worker_completions<'a>(
    completions: &[WorkerCompletion<'a>],
    worker_scratch: &mut [usize],
    tiles: &mut [CompletedTile],
    telemetry: &mut CertificateTelemetry,
) -> (r: Result<usize, SweepError>)
    ensures
        final(worker_scratch)@.len() == old(worker_scratch)@.len(),
        final(tiles)@.len() == old(tiles)@.len(),
        completions@.len() > old(worker_scratch)@.len() ==> r == Err::<usize, SweepError>(
            SweepError::CapacityExceeded,
        ),
        completions@.len() <= old(worker_scratch)@.len() && !keys_distinct(
            completions@,
            worker_key(),
        ) ==> r == Err::<usize, SweepError>(SweepError::InternalInvariant),
        ({
            let s = sorted_by_key(completions@, worker_key());
            let failure = first_failure(
                *old(telemetry),
                s,
                old(tiles)@.len(),
                completions@.len(),
            );
            let all = gathered(s, completions@.len());
            completions@.len() <= old(worker_scratch)@.len() && keys_distinct(
                completions@,
                worker_key(),
            ) ==> {
                &&& failure matches Some(e) ==> r == Err::<usize, SweepError>(e)
                &&& failure is None && !keys_distinct(all, tile_key()) ==> r == Err::<
                    usize,
                    SweepError,
                >(SweepError::InternalInvariant)
                &&& failure is None && keys_distinct(all, tile_key()) ==> {
                    &&& r == Ok::<usize, SweepError>(all.len() as usize)
                    &&& final(tiles)@.take(all.len() as int) == sorted_by_key(all, tile_key())
                    &&& tally(*final(telemetry)) == running_tally(
                        *old(telemetry),
                        s,
                        completions@.len(),
                    )
                }
            }
        }),
{
    let n = completions.len();
    if n > worker_scratch.len() {
        return Err(SweepError::CapacityExceeded);
    }
    let mut i: usize = 0;
    while i < n
        invariant
            i <= n <= worker_scratch@.len(),
            worker_scratch@.len() == old(worker_scratch)@.len(),
            forall|p: int| 0 <= p < i ==> #[trigger] worker_scratch@[p] == p,
        decreases n - i,
    {
        worker_scratch[i] = i;
        i = i + 1;
    }
    if !order_by_worker(completions, worker_scratch, n) {
        return Err(SweepError::InternalInvariant);
    }
    let ghost s = picked(completions@, worker_scratch@, n as int);
    let ghost start = *telemetry;
    let ghost capacity = tiles@.len();
    proof {
        lemma_sorted_by_key_is(s, completions@, worker_key());
    }
    let mut tile_count: usize = 0;
    let mut p: usize = 0;
    while p < n
        invariant
            p <= n,
            n == completions@.len(),
            n <= worker_scratch@.len(),
            forall|q: int| 0 <= q < n ==> #[trigger] worker_scratch@[q] < n,
            s == picked(completions@, worker_scratch@, n as int),
            s == sorted_by_key(completions@, worker_key()),
            tiles@.len() == capacity,
            first_failure(start, s, capacity, p as nat) is None,
            tally(*telemetry) == running_tally(start, s, p as nat),
            tile_count == gathered(s, p as nat).len(),
            tile_count <= capacity,
            tiles@.take(tile_count as int) == gathered(s, p as nat),
        decreases n - p,
    {
        let completion = &completions[worker_scratch[p]];
        assert(*completion == s[p as int]);
        if let Some(error) = completion.error {
            proof {
                assert(first_failure(start, s, capacity, (p + 1) as nat) == Some(error));
                lemma_first_failure_sticks(start, s, capacity, (p + 1) as nat, n as nat);
            }
            return Err(error);
        }
        let ghost before = *telemetry;
        let merge = telemetry.merge_in_tile_order(completion.telemetry);
        proof {
            lemma_tally_merge(before, *completion.telemetry, *telemetry);
        }
        if merge.is_err() {
            proof {
                assert(first_failure(start, s, capacity, (p + 1) as nat) == Some(
                    SweepError::InternalInvariant,
                ));
                lemma_first_failure_sticks(start, s, capacity, (p + 1) as nat, n as nat);
            }
            return Err(SweepError::InternalInvariant);
        }
        let ghost count_before = tile_count;
        let own = completion.tiles;
        let mut j: usize = 0;
        while j < own.len()
            invariant
                j <= own@.len(),
                own@ == s[p as int].tiles@,
                tiles@.len() == capacity,
                tile_count == count_before + j,
                tile_count <= capacity,
                count_before == gathered(s, p as nat).len(),
                tiles@.take(tile_count as int) == gathered(s, p as nat) + own@.take(j as int),
            decreases own@.len() - j,
        {
            if tile_count >= tiles.len() {
                proof {
                    assert(gathered(s, (p + 1) as nat) == gathered(s, p as nat) + own@);
                    assert(first_failure(start, s, capacity, (p + 1) as nat) == Some(
                        SweepError::CapacityExceeded,
                    ));
                    lemma_first_failure_sticks(start, s, capacity, (p + 1) as nat, n as nat);
                }
                return Err(SweepError::CapacityExceeded);
            }
            let ghost prior = tiles@;
            tiles[tile_count] = own[j];
            proof {
                assert(tiles@.take(tile_count + 1) =~= prior.take(tile_count as int).push(own@[j as int]));
                assert(own@.take(j + 1) =~= own@.take(j as int).push(own@[j as int]));
            }
            tile_count = tile_count + 1;
            j = j + 1;
        }
        proof {
            assert(own@.take(j as int) =~= own@);
            assert(gathered(s, (p + 1) as nat) == gathered(s, p as nat) + own@);
            assert(running_tally(start, s, (p + 1) as nat) == add_tallies(
                tally(before),
                tally(*completion.telemetry),
            ));
            assert(step_failure(start, s, capacity, p as int) is None);
        }
        p = p + 1;
    }
    let ghost all = gathered(s, n as nat);
    if !sort_tiles_by_id(tiles, tile_count) {
        return Err(SweepError::InternalInvariant);
    }
    proof {
        lemma_sorted_by_key_is(tiles@.take(tile_count as int), all, tile_key());
    }
    Ok(tile_count)
}

/// Completions may arrive in any order: two arrivals of the same
/// completions are refused alike for duplicate workers and otherwise taken
/// in the same worker order, so `collect_worker_completions` gives the same
/// result, tiles and telemetry for both.
pub proof fn completion_arrival_order_is_irrelevant<'a>(
    a: Seq<WorkerCompletion<'a>>,
    b: Seq<WorkerCompletion<'a>>,
)
    requires
        a.to_multiset() == b.to_multiset(),
    ensures
        a.len() == b.len(),
        keys_distinct(a, worker_key()) == keys_distinct(b, worker_key()),
        sorted_by_key(a, worker_key()) == sorted_by_key(b, worker_key()),
{
    broadcast use vstd::seq_lib::group_to_multiset_ensures;

    assert(a.len() == a.to_multiset().len());
    assert(b.len() == b.to_multiset().len());
    lemma_rearranged_sorts_alike(a, b, worker_key());
}

/// How the tiles were split among workers does not show in the frame: the
/// same tiles, gathered in any order, are refused alike for a duplicate id
/// and otherwise laid out identically.
pub proof fn tile_partition_is_irrelevant(a: Seq<CompletedTile>, b: Seq<CompletedTile>)
    requires
        a.to_multiset() == b.to_multiset(),
    ensures
        keys_distinct(a, tile_key()) == keys_distinct(b, tile_key()),
        sorted_by_key(a, tile_key()) == sorted_by_key(b, tile_key()),
{
    lemma_rearranged_sorts_alike(a, b, tile_key());
}

/// Counter-wise total of the telemetry of the first `k` completions.
pub open spec fn tally_total<'a>(s: Seq<WorkerCompletion<'a>>, k: nat) -> Seq<int>
    decreases k,
{
    if k == 0 {
        Seq::new(33, |i: int| 0)
    } else {
        add_tallies(tally_total(s, (k - 1) as nat), tally(*s[k - 1].telemetry))
    }
}

/// The merged telemetry is the start plus the counter-wise total over the
/// completions taken in, whatever their order and however the counts were
/// split among the workers.
pub proof fn merged_telemetry_is_the_total<'a>(
    start: CertificateTelemetry,
    s: Seq<WorkerCompletion<'a>>,
    k: nat,
)
    ensures
        running_tally(start, s, k) == add_tallies(tally(start), tally_total(s, k)),
    decreases k,
{
    lemma_tally_index(start);
    if k > 0 {
        merged_telemetry_is_the_total(start, s, (k - 1) as nat);
        lemma_tally_index(*s[k - 1].telemetry);
        lemma_tally_total_len(s, (k - 1) as nat);
        let left = running_tally(start, s, k);
        let right = add_tallies(tally(start), tally_total(s, k));
        assert(left =~= right);
    } else {
        assert(running_tally(start, s, 0) =~= add_tallies(tally(start), tally_total(s, 0)));
    }
}

proof fn lemma_tally_total_len<'a>(s: Seq<WorkerCompletion<'a>>, k: nat)
    ensures
        tally_total(s, k).len() == 33,
    decreases k,
{
    if k > 0 {
        lemma_tally_total_len(s, (k - 1) as nat);
    }
}

} // verus!
