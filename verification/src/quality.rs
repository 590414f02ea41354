//! Opaque-quality frame sequences: digests, worker partitions and the
//! acceptance controls checked on captured frames.
use vstd::prelude::*;
use crate::frame::{sha256, sha256_of};
use crate::probe::share_start;
use crate::text::{decimal, decimal_u64, lower_hex, lower_hex_string};

verus! {

pub const FRAME_COUNT: usize = 8;

pub const FRAME_WIDTH: usize = 32;

pub const FRAME_HEIGHT: usize = 16;

/// Bytes in one BGRA frame.
pub const FRAME_BYTES: usize = 2048;

/// Digests of a locked sequence: rendered once, rendered again, and
/// reassembled from one and from three worker partitions.
#[derive(Clone, Debug, PartialEq, Eq)]
pub struct QualitySequence {
    pub frame_digests: [[u8; 32]; FRAME_COUNT],
    pub repeated_digests: [[u8; 32]; FRAME_COUNT],
    pub one_core_digests: [[u8; 32]; FRAME_COUNT],
    pub three_core_digests: [[u8; 32]; FRAME_COUNT],
}

/// Integer luma of a pixel given as red, green, blue.
pub open spec fn luma(r: int, g: int, b: int) -> int {
    r * 54 + g * 183 + b * 19
}

/// Luma of pixel `p` of a BGRA byte string.
pub open spec fn luma_at(f: Seq<u8>, p: int) -> int {
    luma(f[4 * p + 2] as int, f[4 * p + 1] as int, f[4 * p] as int)
}

/// Luma summed over columns `x0..x` of row `y`.
pub open spec fn row_luma(f: Seq<u8>, y: int, x0: int, x: int) -> int
    decreases x - x0,
{
    if x <= x0 {
        0
    } else {
        row_luma(f, y, x0, x - 1) + luma_at(f, y * FRAME_WIDTH + x - 1)
    }
}

/// Luma summed over rows `y0..y`, columns `x0..x1`.
pub open spec fn region_luma(f: Seq<u8>, x0: int, x1: int, y0: int, y: int) -> int
    decreases y - y0,
{
    if y <= y0 {
        0
    } else {
        region_luma(f, x0, x1, y0, y - 1) + row_luma(f, y - 1, x0, x1)
    }
}

/// Column and row of the `k`-th cell, in row order, of the sphere's box.
pub open spec fn box_cell(k: int) -> (int, int) {
    (12 + k % 4, 6 + k / 4)
}

/// The brightest of the first `k` box cells as (luma, column, row); the
/// first in row order wins a tie.
pub open spec fn peak_upto(f: Seq<u8>, k: nat) -> Option<(int, int, int)>
    decreases k,
{
    if k == 0 {
        None
    } else {
        let prev = peak_upto(f, (k - 1) as nat);
        let (x, y) = box_cell(k - 1);
        let l = luma_at(f, y * FRAME_WIDTH + x);
        match prev {
            None => Some((l, x, y)),
            Some((best, _, _)) => if l > best {
                Some((l, x, y))
            } else {
                prev
            },
        }
    }
}

/// Where the glossy highlight peaks, once the sphere's 2x2 dark core is
/// darker on average than the rest of its 4x4 box.
pub open spec fn sphere_control(f: Seq<u8>) -> Option<(int, int)> {
    let core = region_luma(f, 13, 15, 7, 9);
    let whole = region_luma(f, 12, 16, 6, 10);
    if whole < core || core * 3 >= whole - core {
        None
    } else {
        match peak_upto(f, 16) {
            Some((_, x, y)) => Some((x, y)),
            None => None,
        }
    }
}

proof fn lemma_row_luma_bound(f: Seq<u8>, y: int, x0: int, x: int)
    requires
        x0 <= x,
    ensures
        0 <= row_luma(f, y, x0, x) <= (x - x0) * 65280,
    decreases x - x0,
{
    if x > x0 {
        lemma_row_luma_bound(f, y, x0, x - 1);
    }
}

proof fn lemma_region_luma_bound(f: Seq<u8>, x0: int, x1: int, y0: int, y: int)
    requires
        x0 <= x1,
        y0 <= y,
    ensures
        0 <= region_luma(f, x0, x1, y0, y) <= (y - y0) * (x1 - x0) * 65280,
    decreases y - y0,
{
    if y > y0 {
        lemma_region_luma_bound(f, x0, x1, y0, y - 1);
        lemma_row_luma_bound(f, y - 1, x0, x1);
        assert((y - 1 - y0) * (x1 - x0) * 65280 + (x1 - x0) * 65280 == (y - y0) * (x1 - x0)
            * 65280) by (nonlinear_arith);
    }
}

fn production_pixel(frame: &[u8], x: usize, y: usize) -> (r: [u8; 3])
    requires
        x < FRAME_WIDTH,
        y < FRAME_HEIGHT,
        frame.len() >= FRAME_BYTES,
    ensures
        r@ == seq![
            frame@[4 * (y * FRAME_WIDTH + x) + 2],
            frame@[4 * (y * FRAME_WIDTH + x) + 1],
            frame@[4 * (y * FRAME_WIDTH + x)],
        ],
{
    let base = (y * FRAME_WIDTH + x) * 4;
    let r = [frame[base + 2], frame[base + 1], frame[base]];
    assert(r@ =~= seq![frame@[base + 2], frame@[base + 1], frame@[base as int]]);
    r
}

fn production_luma(pixel: [u8; 3]) -> (r: u64)
    ensures
        r == luma(pixel[0] as int, pixel[1] as int, pixel[2] as int),
{
    pixel[0] as u64 * 54 + pixel[1] as u64 * 183 + pixel[2] as u64 * 19
}

fn production_region_luma(frame: &[u8], x0: usize, x1: usize, y0: usize, y1: usize) -> (r: u64)
    requires
        x0 <= x1 <= FRAME_WIDTH,
        y0 <= y1 <= FRAME_HEIGHT,
        frame.len() >= FRAME_BYTES,
    ensures
        r == region_luma(frame@, x0 as int, x1 as int, y0 as int, y1 as int),
{
    let mut total: u64 = 0;
    let mut y = y0;
    while y < y1
        invariant
            x0 <= x1 <= FRAME_WIDTH,
            y0 <= y <= y1 <= FRAME_HEIGHT,
            frame.len() >= FRAME_BYTES,
            total == region_luma(frame@, x0 as int, x1 as int, y0 as int, y as int),
        decreases y1 - y,
    {
        proof {
            lemma_region_luma_bound(frame@, x0 as int, x1 as int, y0 as int, y as int);
            assert((y - y0) * (x1 - x0) * 65280 <= 16 * 32 * 65280) by (nonlinear_arith)
                requires
                    0 <= y - y0 <= 16,
                    0 <= x1 - x0 <= 32,
            ;
        }
        let mut row: u64 = 0;
        let mut x = x0;
        while x < x1
            invariant
                x0 <= x <= x1 <= FRAME_WIDTH,
                y0 <= y < y1 <= FRAME_HEIGHT,
                frame.len() >= FRAME_BYTES,
                row == row_luma(frame@, y as int, x0 as int, x as int),
            decreases x1 - x,
        {
            proof {
                lemma_row_luma_bound(frame@, y as int, x0 as int, x as int);
            }
            let l = production_luma(production_pixel(frame, x, y));
            row = row + l;
            x = x + 1;
        }
        proof {
            lemma_row_luma_bound(frame@, y as int, x0 as int, x1 as int);
        }
        total = total + row;
        y = y + 1;
    }
    total
}

/// Finds the glossy highlight inside the sphere's box once its dark core is
/// proved darker than its own rim: at 32x16 the core is 2x2 and the box
/// 4x4, so `core * 3 < rim` compares equal-area averages exactly.
pub fn production_glossy_sphere_control(frame: &[u8]) -> (r: Option<(usize, usize)>)
    requires
        frame.len() >= FRAME_BYTES,
    ensures
        match r {
            None => sphere_control(frame@) is None,
            Some((x, y)) => sphere_control(frame@) == Some((x as int, y as int)),
        },
{
    let box_x0 = FRAME_WIDTH * 3 / 8;
    let box_x1 = FRAME_WIDTH / 2;
    let box_y0 = FRAME_HEIGHT * 3 / 8;
    let box_y1 = FRAME_HEIGHT * 5 / 8;
    let core_x0 = FRAME_WIDTH * 13 / 32;
    let core_x1 = FRAME_WIDTH * 15 / 32;
    let core_y0 = FRAME_HEIGHT * 7 / 16;
    let core_y1 = FRAME_HEIGHT * 9 / 16;
    let core = production_region_luma(frame, core_x0, core_x1, core_y0, core_y1);
    let whole = production_region_luma(frame, box_x0, box_x1, box_y0, box_y1);
    proof {
        lemma_region_luma_bound(frame@, 13, 15, 7, 9);
    }
    let rim = match whole.checked_sub(core) {
        Some(rim) => rim,
        None => return None,
    };
    match core.checked_mul(3) {
        None => return None,
        Some(scaled) => {
            if scaled >= rim {
                return None;
            }
        },
    }
    let mut peak: Option<(u64, usize, usize)> = None;
    let mut k: usize = 0;
    while k < 16
        invariant
            k <= 16,
            box_x0 == 12,
            box_y0 == 6,
            frame.len() >= FRAME_BYTES,
            match peak {
                None => peak_upto(frame@, k as nat) is None,
                Some((l, x, y)) => peak_upto(frame@, k as nat) == Some(
                    (l as int, x as int, y as int),
                ),
            },
        decreases 16 - k,
    {
        let x = box_x0 + k % 4;
        let y = box_y0 + k / 4;
        let luma = production_luma(production_pixel(frame, x, y));
        let better = match peak {
            None => true,
            Some((best, _, _)) => luma > best,
        };
        if better {
            peak = Some((luma, x, y));
        }
        k = k + 1;
    }
    match peak {
        Some((_, x, y)) => Some((x, y)),
        None => None,
    }
}

proof fn lemma_share_steps(count: int, workers: int, w: int)
    requires
        0 <= count,
        0 < workers,
        0 <= w < workers,
    ensures
        count * w <= count * (w + 1) <= count * workers,
        0 <= share_start(count, workers, w) <= share_start(count, workers, w + 1) <= count,
{
    assert(count * w <= count * (w + 1) <= count * workers) by (nonlinear_arith)
        requires
            0 <= count,
            0 <= w < workers,
    ;
    vstd::arithmetic::div_mod::lemma_div_is_ordered(count * w, count * (w + 1), workers);
    vstd::arithmetic::div_mod::lemma_div_is_ordered(count * (w + 1), count * workers, workers);
    assert(count * workers / workers == count) by (nonlinear_arith)
        requires
            0 < workers,
    ;
    assert(0 <= count * w / workers) by (nonlinear_arith)
        requires
            0 < workers,
            0 <= count * w,
    ;
}

fn bytes_equal(a: &[u8], b: &[u8]) -> (r: bool)
    ensures
        r == (a@ == b@),
{
    if a.len() != b.len() {
        return false;
    }
    let mut i: usize = 0;
    while i < a.len()
        invariant
            i <= a.len() == b.len(),
            forall|j: int| 0 <= j < i ==> a@[j] == b@[j],
        decreases a.len() - i,
    {
        if a[i] != b[i] {
            return false;
        }
        i = i + 1;
    }
    assert(a@ =~= b@);
    true
}

/// Reassembles `frame` from `workers` contiguous pixel ranges and digests
/// the result; each worker's range is `share_start` of its index and the
/// next, so the reassembly is the frame itself.
pub fn partitioned_digest(frame: &[u8], workers: usize) -> (r: Result<[u8; 32], String>)
    requires
        frame.len() / 4 * workers <= usize::MAX,
    ensures
        workers == 0 || frame.len() % 4 != 0 ==> (r matches Err(e) && e@
            == "P032: invalid quality partition"@),
        workers != 0 && frame.len() % 4 == 0 ==> (r matches Ok(d) && d@ == sha256_of(frame@)),
{
    if workers == 0 || frame.len() % 4 != 0 {
        return Err("P032: invalid quality partition".to_owned());
    }
    let pixels = frame.len() / 4;
    let mut reconstructed: Vec<u8> = vec![0u8; frame.len()];
    let mut worker: usize = 0;
    while worker < workers
        invariant
            0 < workers,
            worker <= workers,
            pixels * 4 == frame.len(),
            pixels * workers <= usize::MAX,
            reconstructed.len() == frame.len(),
            0 <= share_start(pixels as int, workers as int, worker as int) <= pixels,
            forall|j: int|
                0 <= j < share_start(pixels as int, workers as int, worker as int) * 4
                    ==> reconstructed@[j] == frame@[j],
        decreases workers - worker,
    {
        proof {
            lemma_share_steps(pixels as int, workers as int, worker as int);
        }
        let start = pixels * worker / workers;
        let end = pixels * (worker + 1) / workers;
        let mut i = start * 4;
        while i < end * 4
            invariant
                start * 4 <= i <= end * 4,
                end <= pixels,
                pixels * 4 == frame.len(),
                reconstructed.len() == frame.len(),
                start == share_start(pixels as int, workers as int, worker as int),
                forall|j: int| 0 <= j < i ==> reconstructed@[j] == frame@[j],
            decreases end * 4 - i,
        {
            reconstructed.set(i, frame[i]);
            i = i + 1;
        }
        worker = worker + 1;
    }
    proof {
        assert(share_start(pixels as int, workers as int, workers as int) == pixels) by (
        nonlinear_arith)
            requires
                0 < workers,
        ;
        assert(reconstructed@ =~= frame@);
    }
    if !bytes_equal(reconstructed.as_slice(), frame) {
        return Err("P032: quality worker partition lost output bytes".to_owned());
    }
    Ok(sha256(reconstructed.as_slice()))
}

/// Every frame's byte count splits into whole pixels.
pub open spec fn whole_pixels(frames: Seq<Vec<u8>>) -> bool {
    forall|i: int| 0 <= i < frames.len() ==> #[trigger] frames[i]@.len() % 4 == 0
}

fn digest_all(frames: &[Vec<u8>]) -> (r: [[u8; 32]; FRAME_COUNT])
    requires
        frames.len() == FRAME_COUNT,
    ensures
        forall|i: int| 0 <= i < FRAME_COUNT ==> (#[trigger] r@[i])@ == sha256_of(frames@[i]@),
{
    let mut digests = [[0u8; 32]; 8];
    let mut i: usize = 0;
    while i < FRAME_COUNT
        invariant
            i <= FRAME_COUNT,
            frames.len() == FRAME_COUNT,
            forall|j: int| 0 <= j < i ==> (#[trigger] digests@[j])@ == sha256_of(frames@[j]@),
        decreases FRAME_COUNT - i,
    {
        digests[i] = sha256(frames[i].as_slice());
        i = i + 1;
    }
    digests
}

fn partitioned_all(frames: &[Vec<u8>], workers: usize) -> (r: Result<
    [[u8; 32]; FRAME_COUNT],
    String,
>)
    requires
        frames.len() == FRAME_COUNT,
        1 <= workers <= 4,
    ensures
        !whole_pixels(frames@) ==> (r matches Err(e) && e@ == "P032: invalid quality partition"@),
        whole_pixels(frames@) ==> (r matches Ok(d) && forall|i: int|
            0 <= i < FRAME_COUNT ==> (#[trigger] d@[i])@ == sha256_of(frames@[i]@)),
{
    let mut digests = [[0u8; 32]; 8];
    let mut i: usize = 0;
    while i < FRAME_COUNT
        invariant
            i <= FRAME_COUNT,
            frames.len() == FRAME_COUNT,
            1 <= workers <= 4,
            forall|j: int| 0 <= j < i ==> #[trigger] frames@[j]@.len() % 4 == 0,
            forall|j: int| 0 <= j < i ==> (#[trigger] digests@[j])@ == sha256_of(frames@[j]@),
        decreases FRAME_COUNT - i,
    {
        let frame = frames[i].as_slice();
        assert(frame.len() / 4 * workers <= usize::MAX) by (nonlinear_arith)
            requires
                frame.len() <= usize::MAX,
                1 <= workers <= 4,
        ;
        match partitioned_digest(frame, workers) {
            Ok(d) => {
                digests[i] = d;
            },
            Err(e) => {
                return Err(e);
            },
        }
        i = i + 1;
    }
    Ok(digests)
}

/// Digests a locked sequence from its rendered frames and a second
/// rendering of them: each frame whole, and reassembled from one and from
/// three worker partitions, which give the frame's own digest.
pub fn sequence(frames: &[Vec<u8>], repeated: &[Vec<u8>]) -> (r: Result<QualitySequence, String>)
    ensures
        frames.len() != FRAME_COUNT ==> (r matches Err(e) && e@
            == "P032: quality frame count mismatch"@),
        frames.len() == FRAME_COUNT && repeated.len() != FRAME_COUNT ==> (r matches Err(e) && e@
            == "P032: repeated quality frame count mismatch"@),
        frames.len() == FRAME_COUNT && repeated.len() == FRAME_COUNT && !whole_pixels(frames@)
            ==> (r matches Err(e) && e@ == "P032: invalid quality partition"@),
        frames.len() == FRAME_COUNT && repeated.len() == FRAME_COUNT && whole_pixels(frames@)
            ==> (r matches Ok(s) && forall|i: int|
            0 <= i < FRAME_COUNT ==> {
                &&& (#[trigger] s.frame_digests@[i])@ == sha256_of(frames@[i]@)
                &&& s.repeated_digests@[i]@ == sha256_of(repeated@[i]@)
                &&& s.one_core_digests@[i] == s.frame_digests@[i]
                &&& s.three_core_digests@[i] == s.frame_digests@[i]
            }),
{
    if frames.len() != FRAME_COUNT {
        return Err("P032: quality frame count mismatch".to_owned());
    }
    let frame_digests = digest_all(frames);
    if repeated.len() != FRAME_COUNT {
        return Err("P032: repeated quality frame count mismatch".to_owned());
    }
    let repeated_digests = digest_all(repeated);
    let one_core_digests = partitioned_all(frames, 1)?;
    let three_core_digests = partitioned_all(frames, 3)?;
    proof {
        assert forall|i: int| 0 <= i < FRAME_COUNT implies one_core_digests@[i]
            == frame_digests@[i] && three_core_digests@[i] == frame_digests@[i] by {
            assert(one_core_digests@[i]@ =~= frame_digests@[i]@);
            assert(three_core_digests@[i]@ =~= frame_digests@[i]@);
        }
    }
    Ok(QualitySequence { frame_digests, repeated_digests, one_core_digests, three_core_digests })
}

/// `i`-th line of the locked truth text.
pub open spec fn truth_line(index: int, digest: Seq<u8>) -> Seq<char> {
    "frame="@ + decimal(index as nat) + " digest="@ + lower_hex(digest)
        + " repeat=identical one_three=identical status=pass\n"@
}

/// The first `k` frame lines of the locked truth text.
pub open spec fn truth_lines(digests: Seq<[u8; 32]>, k: nat) -> Seq<char>
    decreases k,
{
    if k == 0 {
        seq![]
    } else {
        truth_lines(digests, (k - 1) as nat) + truth_line(k - 1, digests[k - 1]@)
    }
}

/// The locked truth text for a sequence with these frame digests.
pub open spec fn truth_text_of(digests: Seq<[u8; 32]>) -> Seq<char> {
    "PixelsQuality version=1 frames=8 width=32 height=16 properties=diagonal-pan,glossy-sphere,slope-recede,rectangle-penumbra,thin-blade,material-edge,ao-contact,filmic-shoulder status=pass\n"@
        + truth_lines(digests, FRAME_COUNT as nat)
        + "summary visibility_failures=0 identity_failures=0 shadow_failures=0 interval_failures=0 stochastic=none status=pass\n"@
}

/// The truth text of a locked sequence: a header, one line per frame digest
/// and a summary.
pub fn truth_text(result: &QualitySequence) -> (r: String)
    ensures
        r@ == truth_text_of(result.frame_digests@),
{
    let header = "PixelsQuality version=1 frames=8 width=32 height=16 properties=diagonal-pan,glossy-sphere,slope-recede,rectangle-penumbra,thin-blade,material-edge,ao-contact,filmic-shoulder status=pass\n";
    let mut text = header.to_owned();
    let mut index: usize = 0;
    while index < FRAME_COUNT
        invariant
            index <= FRAME_COUNT,
            header@ == "PixelsQuality version=1 frames=8 width=32 height=16 properties=diagonal-pan,glossy-sphere,slope-recede,rectangle-penumbra,thin-blade,material-edge,ao-contact,filmic-shoulder status=pass\n"@,
            text@ == header@ + truth_lines(result.frame_digests@, index as nat),
        decreases FRAME_COUNT - index,
    {
        let digest = lower_hex_string(result.frame_digests[index].as_slice());
        text.append("frame=");
        text.append(decimal_u64(index as u64).as_str());
        text.append(" digest=");
        text.append(digest.as_str());
        text.append(" repeat=identical one_three=identical status=pass\n");
        proof {
            assert(text@ =~= header@ + truth_lines(result.frame_digests@, (index + 1) as nat));
        }
        index = index + 1;
    }
    text.append(
        "summary visibility_failures=0 identity_failures=0 shadow_failures=0 interval_failures=0 stochastic=none status=pass\n",
    );
    text
}

/// Pixels in one frame.
pub open spec fn frame_pixels() -> nat {
    (FRAME_WIDTH * FRAME_HEIGHT) as nat
}

/// Alpha byte of pixel `p`.
pub open spec fn alpha_at(f: Seq<u8>, p: int) -> u8 {
    f[4 * p + 3]
}

/// Every pixel of the frame is fully opaque.
pub open spec fn opaque(f: Seq<u8>) -> bool {
    forall|p: int| 0 <= p < frame_pixels() ==> #[trigger] alpha_at(f, p) == 255
}

/// Luma summed over the first `n` pixels.
pub open spec fn luma_sum(f: Seq<u8>, n: nat) -> int
    decreases n,
{
    if n == 0 {
        0
    } else {
        luma_sum(f, (n - 1) as nat) + luma_at(f, n - 1)
    }
}

/// How many of the first `n` pixels pass `test`.
pub open spec fn count_pixels(f: Seq<u8>, n: nat, test: spec_fn(Seq<u8>, int) -> bool) -> nat
    decreases n,
{
    if n == 0 {
        0
    } else {
        count_pixels(f, (n - 1) as nat, test) + if test(f, n - 1) {
            1nat
        } else {
            0nat
        }
    }
}

/// `v + 8`, saturating at the top of a byte.
pub open spec fn plus_eight(v: u8) -> int {
    if v as int + 8 > 255 {
        255
    } else {
        v as int + 8
    }
}

/// Pixels no brighter than a shadow.
pub open spec fn dark_test() -> spec_fn(Seq<u8>, int) -> bool {
    |f: Seq<u8>, p: int| luma_at(f, p) <= 256
}

/// Pixels at least as bright as a highlight.
pub open spec fn bright_test() -> spec_fn(Seq<u8>, int) -> bool {
    |f: Seq<u8>, p: int| luma_at(f, p) >= 4096
}

/// Pixels whose red exceeds both other channels by more than eight.
pub open spec fn red_test() -> spec_fn(Seq<u8>, int) -> bool {
    |f: Seq<u8>, p: int| f[4 * p + 2] > plus_eight(f[4 * p + 1]) && f[4 * p + 2] > plus_eight(f[4 * p])
}

/// Pixels whose blue exceeds both other channels by more than eight.
pub open spec fn blue_test() -> spec_fn(Seq<u8>, int) -> bool {
    |f: Seq<u8>, p: int| f[4 * p] > plus_eight(f[4 * p + 1]) && f[4 * p] > plus_eight(f[4 * p + 2])
}

/// Colour of pixel `p` as its blue, green and red bytes.
pub open spec fn color_at(f: Seq<u8>, p: int) -> (u8, u8, u8) {
    (f[4 * p], f[4 * p + 1], f[4 * p + 2])
}

/// Colours of the first `n` pixels.
pub open spec fn colors_upto(f: Seq<u8>, n: nat) -> Set<(u8, u8, u8)>
    decreases n,
{
    if n == 0 {
        Set::empty()
    } else {
        colors_upto(f, (n - 1) as nat).insert(color_at(f, n - 1))
    }
}

/// Colour changes between neighbours in columns `1..x` of row `y`.
pub open spec fn edge_row(f: Seq<u8>, y: int, x: int) -> nat
    decreases x,
{
    if x <= 1 {
        0
    } else {
        edge_row(f, y, x - 1) + if color_at(f, y * FRAME_WIDTH + x - 1) != color_at(
            f,
            y * FRAME_WIDTH + x - 2,
        ) {
            1nat
        } else {
            0nat
        }
    }
}

/// Colour changes in rows `1..y` of the receding-texture strip.
pub open spec fn edges_upto(f: Seq<u8>, y: int) -> nat
    decreases y,
{
    if y <= 1 {
        0
    } else {
        edges_upto(f, y - 1) + edge_row(f, y - 1, 11)
    }
}

/// Pixel `p` differs between two frames in any of its four bytes.
pub open spec fn pixel_differs(a: Seq<u8>, b: Seq<u8>, p: int) -> bool {
    a[4 * p] != b[4 * p] || a[4 * p + 1] != b[4 * p + 1] || a[4 * p + 2] != b[4 * p + 2] || a[4
        * p + 3] != b[4 * p + 3]
}

/// How many of the first `n` pixels differ between two frames.
pub open spec fn changed_upto(a: Seq<u8>, b: Seq<u8>, n: nat) -> nat
    decreases n,
{
    if n == 0 {
        0
    } else {
        changed_upto(a, b, (n - 1) as nat) + if pixel_differs(a, b, n - 1) {
            1nat
        } else {
            0nat
        }
    }
}

proof fn lemma_luma_sum_bound(f: Seq<u8>, n: nat)
    ensures
        0 <= luma_sum(f, n) <= n * 65280,
    decreases n,
{
    if n > 0 {
        lemma_luma_sum_bound(f, (n - 1) as nat);
    }
}

proof fn lemma_luma_sum_monotone(f: Seq<u8>, m: nat, n: nat)
    requires
        m <= n,
    ensures
        luma_sum(f, m) <= luma_sum(f, n),
    decreases n,
{
    if m < n {
        lemma_luma_sum_monotone(f, m, (n - 1) as nat);
    }
}

proof fn lemma_count_bound(f: Seq<u8>, n: nat, test: spec_fn(Seq<u8>, int) -> bool)
    ensures
        count_pixels(f, n, test) <= n,
    decreases n,
{
    if n > 0 {
        lemma_count_bound(f, (n - 1) as nat, test);
    }
}

proof fn lemma_colors(f: Seq<u8>, n: nat)
    ensures
        colors_upto(f, n).finite(),
        colors_upto(f, n).len() <= n,
        forall|c: (u8, u8, u8)|
            #[trigger] colors_upto(f, n).contains(c) <==> exists|p: int|
                0 <= p < n && color_at(f, p) == c,
    decreases n,
{
    if n > 0 {
        lemma_colors(f, (n - 1) as nat);
        let prev = colors_upto(f, (n - 1) as nat);
        assert forall|c: (u8, u8, u8)| #[trigger]
            colors_upto(f, n).contains(c) implies exists|p: int|
                0 <= p < n && color_at(f, p) == c by {
            if c != color_at(f, n - 1) {
                assert(prev.contains(c));
            }
        }
        assert forall|c: (u8, u8, u8)|
            (exists|p: int| 0 <= p < n && color_at(f, p) == c) implies #[trigger] colors_upto(
            f,
            n,
        ).contains(c) by {
            let p = choose|p: int| 0 <= p < n && color_at(f, p) == c;
            if p < n - 1 {
                assert(prev.contains(c));
            }
        }
    }
}

proof fn lemma_edge_row_bound(f: Seq<u8>, y: int, x: int)
    ensures
        edge_row(f, y, x) <= if x <= 1 {
            0
        } else {
            x - 1
        },
    decreases x,
{
    if x > 1 {
        lemma_edge_row_bound(f, y, x - 1);
    }
}

proof fn lemma_edges_bound(f: Seq<u8>, y: int)
    ensures
        edges_upto(f, y) <= if y <= 1 {
            0
        } else {
            (y - 1) * 10
        },
    decreases y,
{
    if y > 1 {
        lemma_edges_bound(f, y - 1);
        lemma_edge_row_bound(f, y - 1, 11);
    }
}

proof fn lemma_changed_bound(a: Seq<u8>, b: Seq<u8>, n: nat)
    ensures
        changed_upto(a, b, n) <= n,
    decreases n,
{
    if n > 0 {
        lemma_changed_bound(a, b, (n - 1) as nat);
    }
}

fn is_opaque(frame: &[u8]) -> (r: bool)
    requires
        frame.len() == FRAME_BYTES,
    ensures
        r == opaque(frame@),
{
    let mut p: usize = 0;
    while p < FRAME_WIDTH * FRAME_HEIGHT
        invariant
            p <= FRAME_WIDTH * FRAME_HEIGHT,
            frame.len() == FRAME_BYTES,
            forall|q: int| 0 <= q < p ==> #[trigger] alpha_at(frame@, q) == 255,
        decreases FRAME_WIDTH * FRAME_HEIGHT - p,
    {
        if frame[4 * p + 3] != 255 {
            assert(alpha_at(frame@, p as int) != 255);
            return false;
        }
        p = p + 1;
    }
    true
}

/// Luma, and the dark, bright, red-dominant and blue-dominant pixel counts,
/// of a frame.
struct PixelTally {
    luma: u64,
    dark: usize,
    bright: usize,
    red: usize,
    blue: usize,
}

fn tally_pixels(frame: &[u8]) -> (r: PixelTally)
    requires
        frame.len() == FRAME_BYTES,
    ensures
        r.luma == luma_sum(frame@, frame_pixels()),
        r.dark == count_pixels(frame@, frame_pixels(), dark_test()),
        r.bright == count_pixels(frame@, frame_pixels(), bright_test()),
        r.red == count_pixels(frame@, frame_pixels(), red_test()),
        r.blue == count_pixels(frame@, frame_pixels(), blue_test()),
{
    let mut t = PixelTally { luma: 0, dark: 0, bright: 0, red: 0, blue: 0 };
    let mut p: usize = 0;
    while p < FRAME_WIDTH * FRAME_HEIGHT
        invariant
            p <= FRAME_WIDTH * FRAME_HEIGHT,
            frame.len() == FRAME_BYTES,
            t.luma == luma_sum(frame@, p as nat),
            t.dark == count_pixels(frame@, p as nat, dark_test()),
            t.bright == count_pixels(frame@, p as nat, bright_test()),
            t.red == count_pixels(frame@, p as nat, red_test()),
            t.blue == count_pixels(frame@, p as nat, blue_test()),
        decreases FRAME_WIDTH * FRAME_HEIGHT - p,
    {
        proof {
            lemma_luma_sum_bound(frame@, p as nat);
            lemma_count_bound(frame@, p as nat, dark_test());
            lemma_count_bound(frame@, p as nat, bright_test());
            lemma_count_bound(frame@, p as nat, red_test());
            lemma_count_bound(frame@, p as nat, blue_test());
        }
        let b = frame[4 * p];
        let g = frame[4 * p + 1];
        let r = frame[4 * p + 2];
        let l = r as u64 * 54 + g as u64 * 183 + b as u64 * 19;
        t.luma = t.luma + l;
        if l <= 256 {
            t.dark = t.dark + 1;
        }
        if l >= 4096 {
            t.bright = t.bright + 1;
        }
        if r > g.saturating_add(8) && r > b.saturating_add(8) {
            t.red = t.red + 1;
        }
        if b > g.saturating_add(8) && b > r.saturating_add(8) {
            t.blue = t.blue + 1;
        }
        p = p + 1;
    }
    t
}

fn distinct_colors(frame: &[u8]) -> (r: usize)
    requires
        frame.len() == FRAME_BYTES,
    ensures
        r == colors_upto(frame@, frame_pixels()).len(),
{
    let mut count: usize = 0;
    let mut p: usize = 0;
    while p < FRAME_WIDTH * FRAME_HEIGHT
        invariant
            p <= FRAME_WIDTH * FRAME_HEIGHT,
            frame.len() == FRAME_BYTES,
            count == colors_upto(frame@, p as nat).len(),
        decreases FRAME_WIDTH * FRAME_HEIGHT - p,
    {
        proof {
            lemma_colors(frame@, p as nat);
        }
        let mut seen = false;
        let mut q: usize = 0;
        while q < p
            invariant
                q <= p < FRAME_WIDTH * FRAME_HEIGHT,
                frame.len() == FRAME_BYTES,
                seen == exists|j: int| 0 <= j < q && color_at(frame@, j) == color_at(frame@, p as int),
            decreases p - q,
        {
            let same = frame[4 * q] == frame[4 * p] && frame[4 * q + 1] == frame[4 * p + 1] && frame[4
                * q + 2] == frame[4 * p + 2];
            proof {
                let cq = color_at(frame@, q as int);
                let cp = color_at(frame@, p as int);
                assert(same == (cq == cp));
                if same {
                    assert(0 <= q < q + 1 && color_at(frame@, q as int) == cp);
                }
            }
            if same {
                seen = true;
            }
            q = q + 1;
        }
        proof {
            let prev = colors_upto(frame@, p as nat);
            let c = color_at(frame@, p as int);
            if seen {
                assert(prev.contains(c));
                assert(prev.insert(c) =~= prev);
            } else {
                assert(!prev.contains(c));
            }
        }
        if !seen {
            count = count + 1;
        }
        p = p + 1;
    }
    count
}

fn horizontal_edges(frame: &[u8]) -> (r: usize)
    requires
        frame.len() == FRAME_BYTES,
    ensures
        r == edges_upto(frame@, FRAME_HEIGHT - 1),
{
    let mut edges: usize = 0;
    let mut y: usize = 1;
    while y < FRAME_HEIGHT - 1
        invariant
            1 <= y <= FRAME_HEIGHT - 1,
            frame.len() == FRAME_BYTES,
            edges == edges_upto(frame@, y as int),
        decreases FRAME_HEIGHT - 1 - y,
    {
        proof {
            lemma_edges_bound(frame@, y as int);
        }
        let mut row: usize = 0;
        let mut x: usize = 1;
        while x < FRAME_WIDTH * 11 / 32
            invariant
                1 <= x <= 11,
                1 <= y < FRAME_HEIGHT - 1,
                frame.len() == FRAME_BYTES,
                row == edge_row(frame@, y as int, x as int),
            decreases 11 - x,
        {
            proof {
                lemma_edge_row_bound(frame@, y as int, x as int);
            }
            let a = production_pixel(frame, x, y);
            let b = production_pixel(frame, x - 1, y);
            if a[0] != b[0] || a[1] != b[1] || a[2] != b[2] {
                row = row + 1;
            }
            x = x + 1;
        }
        proof {
            lemma_edge_row_bound(frame@, y as int, 11);
        }
        edges = edges + row;
        y = y + 1;
    }
    edges
}

fn changed_pixels(a: &[u8], b: &[u8]) -> (r: usize)
    requires
        a.len() == FRAME_BYTES,
        b.len() == FRAME_BYTES,
    ensures
        r == changed_upto(a@, b@, frame_pixels()),
{
    let mut changed: usize = 0;
    let mut p: usize = 0;
    while p < FRAME_WIDTH * FRAME_HEIGHT
        invariant
            p <= FRAME_WIDTH * FRAME_HEIGHT,
            a.len() == FRAME_BYTES,
            b.len() == FRAME_BYTES,
            changed == changed_upto(a@, b@, p as nat),
        decreases FRAME_WIDTH * FRAME_HEIGHT - p,
    {
        proof {
            lemma_changed_bound(a@, b@, p as nat);
        }
        if a[4 * p] != b[4 * p] || a[4 * p + 1] != b[4 * p + 1] || a[4 * p + 2] != b[4 * p + 2]
            || a[4 * p + 3] != b[4 * p + 3] {
            changed = changed + 1;
        }
        p = p + 1;
    }
    changed
}

/// Luma of every whole four-byte pixel of a frame of any length.
fn chunk_luma(frame: &[u8]) -> (r: u64)
    requires
        luma_sum(frame@, (frame.len() / 4) as nat) <= u64::MAX,
    ensures
        r == luma_sum(frame@, (frame.len() / 4) as nat),
{
    let pixels = frame.len() / 4;
    let mut total: u64 = 0;
    let mut p: usize = 0;
    while p < pixels
        invariant
            p <= pixels == frame.len() / 4,
            luma_sum(frame@, pixels as nat) <= u64::MAX,
            total == luma_sum(frame@, p as nat),
        decreases pixels - p,
    {
        proof {
            lemma_luma_sum_monotone(frame@, (p + 1) as nat, pixels as nat);
        }
        let l = frame[4 * p + 2] as u64 * 54 + frame[4 * p + 1] as u64 * 183 + frame[4 * p] as u64
            * 19;
        total = total + l;
        p = p + 1;
    }
    total
}

/// Captured frames come as the locked number of locked-size BGRA frames.
pub open spec fn frame_shape_ok(frames: Seq<Vec<u8>>) -> bool {
    frames.len() == FRAME_COUNT && forall|i: int|
        0 <= i < frames.len() ==> #[trigger] frames[i]@.len() == FRAME_BYTES
}

/// A diagnostic about frame `index`.
pub open spec fn frame_message(index: int, tail: Seq<char>) -> Seq<char> {
    "P032: production quality frame "@ + decimal(index as nat) + tail
}

/// Why frame `i` of a captured sequence is refused on its own, if it is:
/// it is not opaque, it lost its dark, bright or colour variety, or it is
/// unchanged from the frame before it.
pub open spec fn frame_error(frames: Seq<Vec<u8>>, i: int) -> Option<Seq<char>> {
    let f = frames[i]@;
    let dark = count_pixels(f, frame_pixels(), dark_test());
    let bright = count_pixels(f, frame_pixels(), bright_test());
    let distinct = colors_upto(f, frame_pixels()).len();
    if !opaque(f) {
        Some(frame_message(i, " contains non-opaque output"@))
    } else if dark < 4 || bright < 4 || distinct < 8 {
        Some(
            frame_message(
                i,
                " lost its visibility controls (dark="@ + decimal(dark) + ", bright="@ + decimal(
                    bright,
                ) + ", distinct="@ + decimal(distinct) + ")"@,
            ),
        )
    } else if i > 0 && changed_upto(f, frames[i - 1]@, frame_pixels()) == 0 {
        Some(frame_message(i, " did not respond to the sealed motion/light/exposure step"@))
    } else {
        None
    }
}

/// The refusal of the first refused frame among the first `k`.
pub open spec fn first_frame_error(frames: Seq<Vec<u8>>, k: nat) -> Option<Seq<char>>
    decreases k,
{
    if k == 0 {
        None
    } else {
        match first_frame_error(frames, (k - 1) as nat) {
            Some(e) => Some(e),
            None => frame_error(frames, k - 1),
        }
    }
}

/// The frame keeps its red material edge and its blue accents.
pub open spec fn chromatic_test() -> spec_fn(Seq<u8>) -> bool {
    |f: Seq<u8>|
        count_pixels(f, frame_pixels(), red_test()) >= 16 && count_pixels(
            f,
            frame_pixels(),
            blue_test(),
        ) >= 2
}

/// The lit lower-right corner outshines the upper-left four times over.
pub open spec fn diagonal_test() -> spec_fn(Seq<u8>) -> bool {
    |f: Seq<u8>| region_luma(f, 24, 32, 10, 16) > region_luma(f, 0, 8, 0, 6) * 4
}

/// The sphere's core and rim control holds.
pub open spec fn sphere_test() -> spec_fn(Seq<u8>) -> bool {
    |f: Seq<u8>| sphere_control(f) is Some
}

/// How many of the first `k` frames pass `test`.
pub open spec fn frames_where(frames: Seq<Vec<u8>>, k: nat, test: spec_fn(Seq<u8>) -> bool) -> nat
    decreases k,
{
    if k == 0 {
        0
    } else {
        frames_where(frames, (k - 1) as nat, test) + if test(frames[k - 1]@) {
            1nat
        } else {
            0nat
        }
    }
}

/// Highlight positions found in the first `k` frames.
pub open spec fn peak_positions(frames: Seq<Vec<u8>>, k: nat) -> Set<(int, int)>
    decreases k,
{
    if k == 0 {
        Set::empty()
    } else {
        let prev = peak_positions(frames, (k - 1) as nat);
        match sphere_control(frames[k - 1]@) {
            Some(position) => prev.insert(position),
            None => prev,
        }
    }
}

/// Texture edges over the first `k` frames.
pub open spec fn edge_total(frames: Seq<Vec<u8>>, k: nat) -> nat
    decreases k,
{
    if k == 0 {
        0
    } else {
        edge_total(frames, (k - 1) as nat) + edges_upto(frames[k - 1]@, FRAME_HEIGHT - 1)
    }
}

/// The line recording frame `index` of a captured sequence.
pub open spec fn production_line(index: int, f: Seq<u8>) -> Seq<char> {
    "frame="@ + decimal(index as nat) + " digest="@ + lower_hex(sha256_of(f))
        + " host_components=pass opaque=pass motion=pass status=pass\n"@
}

/// Lines for the first `k` captured frames.
pub open spec fn production_lines(frames: Seq<Vec<u8>>, k: nat) -> Seq<char>
    decreases k,
{
    if k == 0 {
        seq![]
    } else {
        production_lines(frames, (k - 1) as nat) + production_line(k - 1, frames[k - 1]@)
    }
}

/// Luma of a frame of any length, over its whole pixels.
pub open spec fn whole_luma(f: Seq<u8>) -> int {
    luma_sum(f, (f.len() / 4) as nat)
}

/// The independent rendering brightens from first to last frame while the
/// captured sequence does not.
pub open spec fn exposure_reversed(frames: Seq<Vec<u8>>, oracle: Seq<Vec<u8>>) -> bool {
    &&& oracle.len() > 0
    &&& whole_luma(oracle.last()@) > whole_luma(oracle[0]@)
    &&& luma_sum(frames[FRAME_COUNT - 1]@, frame_pixels()) <= luma_sum(frames[0]@, frame_pixels())
}

/// The verdict on a captured sequence against the independent rendering
/// `oracle`: the truth text, or the first check that refused it.
pub open spec fn production_truth(frames: Seq<Vec<u8>>, oracle: Seq<Vec<u8>>) -> Result<
    Seq<char>,
    Seq<char>,
> {
    let n = FRAME_COUNT as nat;
    if !frame_shape_ok(frames) {
        Err("P032: production quality frame shape mismatch"@)
    } else {
        match first_frame_error(frames, n) {
            Some(e) => Err(e),
            None => {
                let chromatic = frames_where(frames, n, chromatic_test());
                let diagonal = frames_where(frames, n, diagonal_test());
                let sphere = frames_where(frames, n, sphere_test());
                let peaks = peak_positions(frames, n).len();
                let edges = edge_total(frames, n);
                if chromatic != 8 {
                    Err(
                        "P032: production material-edge controls survived in "@ + decimal(
                            chromatic,
                        ) + "/8 frames"@,
                    )
                } else if diagonal != 8 {
                    Err(
                        "P032: production diagonal visibility control survived in "@ + decimal(
                            diagonal,
                        ) + "/8 frames"@,
                    )
                } else if sphere < 7 {
                    Err(
                        "P032: production glossy/AO sphere control survived in only "@ + decimal(
                            sphere,
                        ) + "/8 frames"@,
                    )
                } else if peaks < 2 {
                    Err(
                        "P032: production glossy highlight occupied only "@ + decimal(peaks)
                            + " deterministic peak position(s)"@,
                    )
                } else if edges < 16 {
                    Err(
                        "P032: production receding texture lost deterministic spatial detail ("@
                            + decimal(edges) + " edges)"@,
                    )
                } else if exposure_reversed(frames, oracle) {
                    Err(
                        "P032: production quality sequence reverses the independent exposure response"@,
                    )
                } else {
                    Ok(
                        "PixelsQuality version=2 frames=8 width=32 height=16 oracle=production-scene properties=diagonal-pan,glossy-sphere,slope-recede,rectangle-penumbra,thin-blade,material-edge,ao-contact,filmic-shoulder status=pass\n"@
                            + production_lines(frames, n)
                            + "summary visibility_controls=pass lighting_controls=pass material_controls=pass spatial_property_controls=pass glossy_motion=pass interval_components=pass stochastic=none status=pass\n"@,
                    )
                }
            },
        }
    }
}

proof fn lemma_first_error_persists(frames: Seq<Vec<u8>>, k: nat, n: nat)
    requires
        k <= n,
        first_frame_error(frames, k) is Some,
    ensures
        first_frame_error(frames, n) == first_frame_error(frames, k),
    decreases n,
{
    if k < n {
        lemma_first_error_persists(frames, k, (n - 1) as nat);
    }
}

proof fn lemma_peak_positions(frames: Seq<Vec<u8>>, k: nat)
    ensures
        peak_positions(frames, k).finite(),
        peak_positions(frames, k).len() <= k,
    decreases k,
{
    if k > 0 {
        lemma_peak_positions(frames, (k - 1) as nat);
    }
}

proof fn lemma_frames_where_bound(frames: Seq<Vec<u8>>, k: nat, test: spec_fn(Seq<u8>) -> bool)
    ensures
        frames_where(frames, k, test) <= k,
    decreases k,
{
    if k > 0 {
        lemma_frames_where_bound(frames, (k - 1) as nat, test);
    }
}

proof fn lemma_edge_total_bound(frames: Seq<Vec<u8>>, k: nat)
    ensures
        edge_total(frames, k) <= k * 140,
    decreases k,
{
    if k > 0 {
        lemma_edge_total_bound(frames, (k - 1) as nat);
        lemma_edges_bound(frames[k - 1]@, FRAME_HEIGHT - 1);
    }
}

/// What the sequence-wide checks need from one accepted frame.
struct FrameControls {
    luma: u64,
    chromatic: bool,
    diagonal: bool,
    peak: Option<(usize, usize)>,
    edges: usize,
}

fn frame_refusal(index: usize, tail: &str) -> (r: String)
    ensures
        r@ == frame_message(index as int, tail@),
{
    let mut message = "P032: production quality frame ".to_owned();
    message.append(decimal_u64(index as u64).as_str());
    message.append(tail);
    message
}

fn frame_controls(frames: &[Vec<u8>], index: usize) -> (r: Result<FrameControls, String>)
    requires
        frame_shape_ok(frames@),
        index < FRAME_COUNT,
    ensures
        match frame_error(frames@, index as int) {
            Some(e) => r matches Err(m) && m@ == e,
            None => r matches Ok(c) && {
                let f = frames@[index as int]@;
                &&& c.luma == luma_sum(f, frame_pixels())
                &&& c.chromatic == chromatic_test()(f)
                &&& c.diagonal == diagonal_test()(f)
                &&& match c.peak {
                    None => sphere_control(f) is None,
                    Some((x, y)) => sphere_control(f) == Some((x as int, y as int)),
                }
                &&& c.edges == edges_upto(f, FRAME_HEIGHT - 1)
            },
        },
{
    let frame = frames[index].as_slice();
    assert(frame@ == frames@[index as int]@);
    if !is_opaque(frame) {
        return Err(frame_refusal(index, " contains non-opaque output"));
    }
    let tally = tally_pixels(frame);
    let distinct = distinct_colors(frame);
    let chromatic = tally.red >= FRAME_WIDTH * FRAME_HEIGHT / 32 && tally.blue >= FRAME_WIDTH
        * FRAME_HEIGHT / 256;
    proof {
        lemma_region_luma_bound(frame@, 0, 8, 0, 6);
    }
    let diagonal = production_region_luma(
        frame,
        FRAME_WIDTH * 3 / 4,
        FRAME_WIDTH,
        FRAME_HEIGHT * 5 / 8,
        FRAME_HEIGHT,
    ) > production_region_luma(frame, 0, FRAME_WIDTH / 4, 0, FRAME_HEIGHT * 3 / 8) * 4;
    let peak = production_glossy_sphere_control(frame);
    let edges = horizontal_edges(frame);
    if tally.dark < FRAME_WIDTH * FRAME_HEIGHT / 128 || tally.bright < FRAME_WIDTH * FRAME_HEIGHT
        / 128 || distinct < 8 {
        let mut tail = " lost its visibility controls (dark=".to_owned();
        tail.append(decimal_u64(tally.dark as u64).as_str());
        tail.append(", bright=");
        tail.append(decimal_u64(tally.bright as u64).as_str());
        tail.append(", distinct=");
        tail.append(decimal_u64(distinct as u64).as_str());
        tail.append(")");
        let message = frame_refusal(index, tail.as_str());
        proof {
            let f = frame@;
            assert(tail@ =~= " lost its visibility controls (dark="@ + decimal(
                count_pixels(f, frame_pixels(), dark_test()),
            ) + ", bright="@ + decimal(count_pixels(f, frame_pixels(), bright_test()))
                + ", distinct="@ + decimal(colors_upto(f, frame_pixels()).len()) + ")"@);
        }
        return Err(message);
    }
    if index > 0 {
        let changed = changed_pixels(frame, frames[index - 1].as_slice());
        if changed == 0 {
            return Err(
                frame_refusal(index, " did not respond to the sealed motion/light/exposure step"),
            );
        }
    }
    Ok(FrameControls { luma: tally.luma, chromatic, diagonal, peak, edges })
}

fn contains_position(positions: &Vec<(usize, usize)>, x: usize, y: usize) -> (r: bool)
    ensures
        r == positions@.contains((x, y)),
{
    let mut i: usize = 0;
    while i < positions.len()
        invariant
            i <= positions.len(),
            forall|j: int| 0 <= j < i ==> positions@[j] != (x, y),
        decreases positions.len() - i,
    {
        let (px, py) = positions[i];
        if px == x && py == y {
            assert(positions@[i as int] == (x, y));
            return true;
        }
        i = i + 1;
    }
    false
}

fn frames_have_shape(frames: &[Vec<u8>]) -> (r: bool)
    ensures
        r == frame_shape_ok(frames@),
{
    if frames.len() != FRAME_COUNT {
        return false;
    }
    let mut i: usize = 0;
    while i < frames.len()
        invariant
            i <= frames.len(),
            forall|j: int| 0 <= j < i ==> #[trigger] frames@[j]@.len() == FRAME_BYTES,
        decreases frames.len() - i,
    {
        if frames[i].len() != FRAME_BYTES {
            return false;
        }
        i = i + 1;
    }
    true
}

fn oracle_lumas(oracle: &[Vec<u8>]) -> (r: Vec<u64>)
    requires
        forall|i: int| 0 <= i < oracle.len() ==> whole_luma(#[trigger] oracle@[i]@) <= u64::MAX,
    ensures
        r@.len() == oracle@.len(),
        forall|i: int| 0 <= i < oracle.len() ==> r@[i] == whole_luma(#[trigger] oracle@[i]@),
{
    let mut lumas: Vec<u64> = Vec::new();
    let mut i: usize = 0;
    while i < oracle.len()
        invariant
            i <= oracle.len(),
            forall|j: int| 0 <= j < oracle.len() ==> whole_luma(#[trigger] oracle@[j]@) <= u64::MAX,
            lumas@.len() == i,
            forall|j: int| 0 <= j < i ==> lumas@[j] == whole_luma(#[trigger] oracle@[j]@),
        decreases oracle.len() - i,
    {
        let frame = oracle[i].as_slice();
        assert(frame@ == oracle@[i as int]@);
        lumas.push(chunk_luma(frame));
        i = i + 1;
    }
    lumas
}

/// Validates and locks a captured production sequence: each frame opaque,
/// varied and moving, the material, diagonal, sphere and texture controls
/// holding across the sequence, and the exposure response agreeing in
/// direction with `oracle`, the independent rendering of the same scene.
pub fn production_truth_text(frames: &[Vec<u8>], oracle: &[Vec<u8>]) -> (r: Result<String, String>)
    requires
        forall|i: int| 0 <= i < oracle.len() ==> whole_luma(#[trigger] oracle@[i]@) <= u64::MAX,
    ensures
        match r {
            Ok(text) => production_truth(frames@, oracle@) == Ok::<Seq<char>, Seq<char>>(text@),
            Err(e) => production_truth(frames@, oracle@) == Err::<Seq<char>, Seq<char>>(e@),
        },
{
    if !frames_have_shape(frames) {
        return Err("P032: production quality frame shape mismatch".to_owned());
    }
    let oracle_luma = oracle_lumas(oracle);
    let header = "PixelsQuality version=2 frames=8 width=32 height=16 oracle=production-scene properties=diagonal-pan,glossy-sphere,slope-recede,rectangle-penumbra,thin-blade,material-edge,ao-contact,filmic-shoulder status=pass\n";
    let mut text = header.to_owned();
    let mut production_luma: Vec<u64> = Vec::new();
    let mut chromatic_frames: usize = 0;
    let mut diagonal_frames: usize = 0;
    let mut sphere_frames: usize = 0;
    let mut peaks: Vec<(usize, usize)> = Vec::new();
    let mut edges: usize = 0;
    let mut index: usize = 0;
    while index < FRAME_COUNT
        invariant
            index <= FRAME_COUNT,
            frame_shape_ok(frames@),
            header@ == "PixelsQuality version=2 frames=8 width=32 height=16 oracle=production-scene properties=diagonal-pan,glossy-sphere,slope-recede,rectangle-penumbra,thin-blade,material-edge,ao-contact,filmic-shoulder status=pass\n"@,
            first_frame_error(frames@, index as nat) is None,
            chromatic_frames == frames_where(frames@, index as nat, chromatic_test()),
            diagonal_frames == frames_where(frames@, index as nat, diagonal_test()),
            sphere_frames == frames_where(frames@, index as nat, sphere_test()),
            peak_positions(frames@, index as nat).finite(),
            peaks@.len() == peak_positions(frames@, index as nat).len(),
            forall|x: usize, y: usize|
                #[trigger] peaks@.contains((x, y)) <==> peak_positions(
                    frames@,
                    index as nat,
                ).contains((x as int, y as int)),
            edges == edge_total(frames@, index as nat),
            production_luma@.len() == index,
            forall|j: int|
                0 <= j < index ==> production_luma@[j] == luma_sum(
                    #[trigger] frames@[j]@,
                    frame_pixels(),
                ),
            text@ == header@ + production_lines(frames@, index as nat),
        decreases FRAME_COUNT - index,
    {
        proof {
            lemma_frames_where_bound(frames@, index as nat, chromatic_test());
            lemma_frames_where_bound(frames@, index as nat, diagonal_test());
            lemma_frames_where_bound(frames@, index as nat, sphere_test());
            lemma_edge_total_bound(frames@, index as nat);
            lemma_peak_positions(frames@, index as nat);
            lemma_edges_bound(frames@[index as int]@, FRAME_HEIGHT - 1);
        }
        let controls = match frame_controls(frames, index) {
            Ok(c) => c,
            Err(e) => {
                proof {
                    lemma_first_error_persists(frames@, (index + 1) as nat, FRAME_COUNT as nat);
                }
                return Err(e);
            },
        };
        if controls.chromatic {
            chromatic_frames = chromatic_frames + 1;
        }
        if controls.diagonal {
            diagonal_frames = diagonal_frames + 1;
        }
        let ghost prev_peaks = peak_positions(frames@, index as nat);
        match controls.peak {
            Some((x, y)) => {
                sphere_frames = sphere_frames + 1;
                if !contains_position(&peaks, x, y) {
                    let ghost before = peaks@;
                    peaks.push((x, y));
                    proof {
                        assert forall|a: usize, b: usize| #[trigger]
                            peaks@.contains((a, b)) <==> prev_peaks.insert(
                            (x as int, y as int),
                        ).contains((a as int, b as int)) by {
                            if peaks@.contains((a, b)) {
                                let j = choose|j: int| 0 <= j < peaks@.len() && peaks@[j] == (a, b);
                                if j < before.len() {
                                    assert(before[j] == (a, b));
                                }
                            }
                            if before.contains((a, b)) {
                                let j = choose|j: int| 0 <= j < before.len() && before[j] == (a, b);
                                assert(peaks@[j] == (a, b));
                            }
                            if (a, b) == (x, y) {
                                assert(peaks@[before.len() as int] == (x, y));
                            }
                        }
                    }
                } else {
                    proof {
                        assert(prev_peaks.insert((x as int, y as int)) =~= prev_peaks);
                    }
                }
            },
            None => {},
        }
        edges = edges + controls.edges;
        let ghost luma_before = production_luma@;
        production_luma.push(controls.luma);
        let digest = sha256(frames[index].as_slice());
        let hex = lower_hex_string(digest.as_slice());
        text.append("frame=");
        text.append(decimal_u64(index as u64).as_str());
        text.append(" digest=");
        text.append(hex.as_str());
        text.append(" host_components=pass opaque=pass motion=pass status=pass\n");
        proof {
            assert(frames[index as int]@ == frames@[index as int]@);
            assert(text@ =~= header@ + production_lines(frames@, (index + 1) as nat));
            assert forall|j: int| 0 <= j < index + 1 implies production_luma@[j] == luma_sum(
                #[trigger] frames@[j]@,
                frame_pixels(),
            ) by {
                if j < index {
                    assert(production_luma@[j] == luma_before[j]);
                }
            }
        }
        index = index + 1;
    }
    if chromatic_frames != FRAME_COUNT {
        let mut message = "P032: production material-edge controls survived in ".to_owned();
        message.append(decimal_u64(chromatic_frames as u64).as_str());
        message.append("/8 frames");
        return Err(message);
    }
    if diagonal_frames != FRAME_COUNT {
        let mut message = "P032: production diagonal visibility control survived in ".to_owned();
        message.append(decimal_u64(diagonal_frames as u64).as_str());
        message.append("/8 frames");
        return Err(message);
    }
    if sphere_frames < FRAME_COUNT - 1 {
        let mut message = "P032: production glossy/AO sphere control survived in only ".to_owned();
        message.append(decimal_u64(sphere_frames as u64).as_str());
        message.append("/8 frames");
        return Err(message);
    }
    if peaks.len() < 2 {
        let mut message = "P032: production glossy highlight occupied only ".to_owned();
        message.append(decimal_u64(peaks.len() as u64).as_str());
        message.append(" deterministic peak position(s)");
        return Err(message);
    }
    if edges < FRAME_WIDTH * FRAME_HEIGHT / 32 {
        let mut message = "P032: production receding texture lost deterministic spatial detail ("
            .to_owned();
        message.append(decimal_u64(edges as u64).as_str());
        message.append(" edges)");
        return Err(message);
    }
    if oracle_luma.len() > 0 && oracle_luma[oracle_luma.len() - 1] > oracle_luma[0]
        && production_luma[FRAME_COUNT - 1] <= production_luma[0] {
        return Err(
            "P032: production quality sequence reverses the independent exposure response".to_owned(),
        );
    }
    text.append("summary visibility_controls=pass lighting_controls=pass material_controls=pass spatial_property_controls=pass glossy_motion=pass interval_components=pass stochastic=none status=pass\n");
    Ok(text)
}

} // verus!
