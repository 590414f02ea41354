//! Probe-field scheduling that does not depend on geometry.
use vstd::prelude::*;

verus! {

/// Versions of the inputs a probe field was computed from.
#[derive(Clone, Copy, Debug, PartialEq, Eq)]
pub struct DependencyVersions {
    pub scene: u32,
    pub light: u32,
    pub material: u32,
}

/// First item of worker `w`'s share when `count` items are split evenly
/// among `workers`.
pub open spec fn share_start(count: int, workers: int, w: int) -> int {
    count * w / workers
}

/// Splits `count` items into `workers` contiguous ranges in worker order.
pub fn contiguous_worker_ranges(count: u32, workers: u32) -> (r: Result<
    Vec<core::ops::Range<u32>>,
    &'static str,
>)
    ensures
        workers == 0 ==> (r matches Err(message) && message@
            == "probe initialization needs a worker"@),
        workers != 0 ==> (r matches Ok(ranges) && ranges@.len() == workers && forall|w: int|
            0 <= w < workers ==> (#[trigger] ranges@[w]).start == share_start(
                count as int,
                workers as int,
                w,
            ) && ranges@[w].end == share_start(count as int, workers as int, w + 1)),
{
    if workers == 0 {
        return Err("probe initialization needs a worker");
    }
    let mut ranges: Vec<core::ops::Range<u32>> = Vec::new();
    let mut worker: u32 = 0;
    while worker < workers
        invariant
            worker <= workers,
            workers > 0,
            ranges@.len() == worker,
            forall|w: int|
                0 <= w < worker ==> (#[trigger] ranges@[w]).start == share_start(
                    count as int,
                    workers as int,
                    w,
                ) && ranges@[w].end == share_start(count as int, workers as int, w + 1),
        decreases workers - worker,
    {
        proof {
            lemma_share_fits(count as int, workers as int, worker as int);
            lemma_share_fits(count as int, workers as int, worker + 1);
        }
        let start = count as u64 * worker as u64 / workers as u64;
        let end = count as u64 * (worker + 1) as u64 / workers as u64;
        ranges.push(start as u32..end as u32);
        worker = worker + 1;
    }
    Ok(ranges)
}

proof fn lemma_share_fits(count: int, workers: int, w: int)
    by (nonlinear_arith)
    requires
        0 <= count <= u32::MAX,
        0 < workers <= u32::MAX,
        0 <= w <= workers,
    ensures
        0 <= count * w <= u32::MAX * u32::MAX,
        0 <= share_start(count, workers, w) <= count,
{
    assert(count * w <= count * workers);
}

/// The worker shares tile `0..count`: the first starts at zero, the last
/// ends at `count`, each ends where the next starts, and none runs backwards.
pub proof fn worker_shares_tile_the_items(count: u32, workers: u32)
    requires
        workers > 0,
    ensures
        share_start(count as int, workers as int, 0) == 0,
        share_start(count as int, workers as int, workers as int) == count,
        forall|w: int|
            0 <= w < workers ==> share_start(count as int, workers as int, w) <= #[trigger] share_start(
                count as int,
                workers as int,
                w + 1,
            ),
{
    assert(share_start(count as int, workers as int, workers as int) == count) by (nonlinear_arith)
        requires
            workers > 0,
    ;
    assert forall|w: int| 0 <= w < workers implies share_start(
        count as int,
        workers as int,
        w,
    ) <= #[trigger] share_start(count as int, workers as int, w + 1) by {
        let (c, n) = (count as int, workers as int);
        assert(c * w <= c * (w + 1)) by (nonlinear_arith)
            requires
                c >= 0,
        ;
        vstd::arithmetic::div_mod::lemma_div_is_ordered(c * w, c * (w + 1), n);
    }
}

} // verus!
