//! Fixed-order bounded local rebuild ladder.
use vstd::prelude::*;
use crate::telemetry::{
    reason_index, saturating_inc, CertificateTelemetry, RebuildReason, SUBDIVISION_BINS,
};

verus! {

#[derive(Clone, Copy, Debug, Default, PartialEq, Eq, Structural)]
pub struct RebuildCell {
    pub x0: u16,
    pub x1: u16,
    pub q_lo: i32,
    pub q_hi: i32,
    pub x_depth: u8,
    pub q_depth: u8,
}

#[derive(Clone, Copy, Debug, PartialEq, Eq, Structural)]
pub struct RebuildLimits {
    pub max_x_depth: u8,
    pub max_q_depth: u8,
    pub max_cells: u16,
}

/// Tiers in the order the ladder tries them.
#[derive(Clone, Copy, Debug, PartialEq, Eq, Structural)]
pub enum RebuildTier {
    QSplit,
    FeatureSplit,
    BranchSplit,
    EventArrangement,
    PixelCell,
    SubpixelIntegration,
}

#[derive(Clone, Copy, Debug, PartialEq, Eq)]
pub enum TierResult<T> {
    Resolved(T),
    Inconclusive,
    NumericFailure,
}

#[derive(Clone, Copy, Debug, PartialEq, Eq, Structural)]
pub enum RebuildError {
    InvalidDomain,
    CapacityExceeded,
    CertificateExhausted,
    NumericFailure,
}

/// `cell` is a non-empty piece of `initial`: its x span and q range lie inside.
pub open spec fn piece_of(cell: RebuildCell, initial: RebuildCell) -> bool {
    initial.x0 <= cell.x0 < cell.x1 <= initial.x1 && initial.q_lo <= cell.q_lo && cell.q_hi
        <= initial.q_hi
}

pub open spec fn tier_at(i: int) -> RebuildTier {
    if i == 0 {
        RebuildTier::QSplit
    } else if i == 1 {
        RebuildTier::FeatureSplit
    } else if i == 2 {
        RebuildTier::BranchSplit
    } else if i == 3 {
        RebuildTier::EventArrangement
    } else if i == 4 {
        RebuildTier::PixelCell
    } else {
        RebuildTier::SubpixelIntegration
    }
}

/// Some attempt on a piece of `initial` resolved to `v`.
pub open spec fn resolved_by<T, A: Fn(RebuildTier, RebuildCell) -> TierResult<T>>(
    attempt: A,
    initial: RebuildCell,
    v: T,
) -> bool {
    exists|tier: RebuildTier, cell: RebuildCell|
        piece_of(cell, initial) && call_ensures(attempt, (tier, cell), TierResult::Resolved(v))
}

/// Some attempt on a piece of `initial` reported a numeric failure.
pub open spec fn failed_by<T, A: Fn(RebuildTier, RebuildCell) -> TierResult<T>>(
    attempt: A,
    initial: RebuildCell,
) -> bool {
    exists|tier: RebuildTier, cell: RebuildCell|
        piece_of(cell, initial) && call_ensures(attempt, (tier, cell), TierResult::<T>::NumericFailure)
}

/// Halvings still open below `cell`: along x while its x depth is under the
/// x limit, along q while its q depth is under the q limit.
pub open spec fn splits_left(cell: RebuildCell, limits: RebuildLimits) -> nat {
    ((if cell.x_depth < limits.max_x_depth {
        limits.max_x_depth - cell.x_depth
    } else {
        0
    }) + (if cell.q_depth < limits.max_q_depth {
        limits.max_q_depth - cell.q_depth
    } else {
        0
    })) as nat
}

/// Size of the complete binary subdivision tree that can grow below `cell`:
/// no run on `cell` enters more cells than this.
pub open spec fn subtree_size(cell: RebuildCell, limits: RebuildLimits) -> nat {
    (crate::dyadic::two_pow(splits_left(cell, limits) + 1) - 1) as nat
}

/// Every tier left `cell` undecided.
pub open spec fn undecided_by_all<T, A: Fn(RebuildTier, RebuildCell) -> TierResult<T>>(
    attempt: A,
    cell: RebuildCell,
) -> bool {
    forall|i: int| 0 <= i < 6 ==> call_ensures(attempt, (#[trigger] tier_at(i), cell), TierResult::<T>::Inconclusive)
}

/// Some piece of `initial` was left undecided by every tier.
pub open spec fn exhausted_by<T, A: Fn(RebuildTier, RebuildCell) -> TierResult<T>>(
    attempt: A,
    initial: RebuildCell,
) -> bool {
    exists|cell: RebuildCell| piece_of(cell, initial) && #[trigger] undecided_by_all(attempt, cell)
}

/// Subtree sizes of the first `n` pending cells, summed.
spec fn pending_size(stack: Seq<RebuildCell>, n: int, limits: RebuildLimits) -> nat
    decreases n,
{
    if n <= 0 {
        0
    } else {
        pending_size(stack, n - 1, limits) + subtree_size(stack[n - 1], limits)
    }
}

proof fn lemma_pending_size_facts(s1: Seq<RebuildCell>, s2: Seq<RebuildCell>, n: int, limits: RebuildLimits)
    requires
        0 <= n <= s1.len(),
        n <= s2.len(),
        forall|k: int| 0 <= k < n ==> s1[k] == s2[k],
    ensures
        pending_size(s1, n, limits) == pending_size(s2, n, limits),
        pending_size(s1, n, limits) >= n,
    decreases n,
{
    if n > 0 {
        lemma_pending_size_facts(s1, s2, n - 1, limits);
        crate::dyadic::lemma_two_pow_pos(splits_left(s1[n - 1], limits));
        crate::dyadic::lemma_two_pow_monotone(1, splits_left(s1[n - 1], limits) + 1);
        assert(crate::dyadic::two_pow(1) == 2) by {
            assert(crate::dyadic::two_pow(0) == 1);
        }
    }
}

/// A cell with a halving left weighs one more than its two children.
proof fn lemma_children_size(cell: RebuildCell, child: RebuildCell, limits: RebuildLimits)
    requires
        splits_left(child, limits) + 1 == splits_left(cell, limits),
    ensures
        subtree_size(cell, limits) == 2 * subtree_size(child, limits) + 1,
        subtree_size(cell, limits) >= 3,
{
    let k = splits_left(child, limits);
    crate::dyadic::lemma_two_pow_pos(k + 1);
    assert(crate::dyadic::two_pow(k + 2) == 2 * crate::dyadic::two_pow(k + 1));
}

/// The point at column `x` and depth `q` lies in the cell: its x span is
/// half-open, its q range closed.
pub open spec fn in_cell(cell: RebuildCell, x: int, q: int) -> bool {
    cell.x0 <= x < cell.x1 && cell.q_lo <= q <= cell.q_hi
}

/// The point lies in one of the resolved leaves or one of the first `n`
/// pending cells.
pub open spec fn point_reached(
    leaves: Seq<RebuildCell>,
    pending: Seq<RebuildCell>,
    n: int,
    x: int,
    q: int,
) -> bool {
    ||| exists|k: int| 0 <= k < leaves.len() && #[trigger] in_cell(leaves[k], x, q)
    ||| exists|j: int| 0 <= j < n && #[trigger] in_cell(pending[j], x, q)
}

/// `a` is settled before `b` in the ladder's depth-first order: it lies
/// wholly to the left, or over the same columns and wholly nearer (its q
/// range at or above `b`'s).
pub open spec fn resolves_before(a: RebuildCell, b: RebuildCell) -> bool {
    a.x1 <= b.x0 || (a.x0 == b.x0 && a.x1 == b.x1 && a.q_lo >= b.q_hi)
}

/// The leaves come front to back: left columns first, nearer q first.
pub open spec fn front_to_back(leaves: Seq<RebuildCell>) -> bool {
    forall|k: int, l: int| 0 <= k < l < leaves.len() ==> resolves_before(#[trigger] leaves[k], #[trigger] leaves[l])
}

/// `cell` was resolved to `v` by tier `t` of the fixed order, after every
/// earlier tier left it undecided.
pub open spec fn resolved_in_order<T, A: Fn(RebuildTier, RebuildCell) -> TierResult<T>>(
    attempt: A,
    cell: RebuildCell,
    t: int,
    v: T,
) -> bool {
    &&& 0 <= t < 6
    &&& call_ensures(attempt, (tier_at(t), cell), TierResult::Resolved(v))
    &&& forall|i: int| 0 <= i < t ==> call_ensures(attempt, (#[trigger] tier_at(i), cell), TierResult::<T>::Inconclusive)
}

/// Some tier, tried in the fixed order, was the first to decide `cell`.
pub open spec fn first_deciding_tier<T, A: Fn(RebuildTier, RebuildCell) -> TierResult<T>>(
    attempt: A,
    cell: RebuildCell,
    v: T,
) -> bool {
    exists|t: int| #[trigger] resolved_in_order(attempt, cell, t, v)
}

/// A cell the ladder still splits along x.
pub open spec fn x_splittable(cell: RebuildCell, limits: RebuildLimits) -> bool {
    cell.x1 - cell.x0 > 1 && cell.x_depth < limits.max_x_depth
}

/// Two cells over the same columns.
pub open spec fn same_columns(a: RebuildCell, b: RebuildCell) -> bool {
    a.x0 == b.x0 && a.x1 == b.x1
}

/// The settled leaves and the first `n` pending cells keep depth-first
/// order: leaves come front to back and before every pending cell, a pending
/// cell nearer the top comes before the ones under it, and no cell that will
/// still split along x shares its columns with another cell.
spec fn dfs_state(leaves: Seq<RebuildCell>, stack: Seq<RebuildCell>, n: int, limits: RebuildLimits) -> bool {
    &&& front_to_back(leaves)
    &&& forall|k: int, j: int|
        0 <= k < leaves.len() && 0 <= j < n ==> resolves_before(#[trigger] leaves[k], #[trigger] stack[j])
    &&& forall|i: int, j: int| 0 <= i < j < n ==> resolves_before(#[trigger] stack[j], #[trigger] stack[i])
    &&& forall|k: int, j: int|
        0 <= k < leaves.len() && 0 <= j < n && x_splittable(stack[j], limits) ==> !same_columns(
            #[trigger] leaves[k],
            #[trigger] stack[j],
        )
    &&& forall|i: int, j: int|
        0 <= i < n && 0 <= j < n && i != j && x_splittable(stack[j], limits) ==> !same_columns(
            #[trigger] stack[i],
            #[trigger] stack[j],
        )
}

/// The depth-first order with the popped cell `c` between the leaves and the
/// first `n` pending cells.
spec fn dfs_with_cell(
    leaves: Seq<RebuildCell>,
    stack: Seq<RebuildCell>,
    n: int,
    c: RebuildCell,
    limits: RebuildLimits,
) -> bool {
    &&& dfs_state(leaves, stack, n, limits)
    &&& forall|k: int| 0 <= k < leaves.len() ==> resolves_before(#[trigger] leaves[k], c)
    &&& forall|j: int| 0 <= j < n ==> resolves_before(c, #[trigger] stack[j])
    &&& x_splittable(c, limits) ==> (forall|k: int| 0 <= k < leaves.len() ==> !same_columns(#[trigger] leaves[k], c))
        && (forall|j: int| 0 <= j < n ==> !same_columns(#[trigger] stack[j], c))
    &&& forall|k: int| 0 <= k < n && x_splittable(stack[k], limits) ==> !same_columns(c, #[trigger] stack[k])
}

proof fn lemma_dfs_pop(leaves: Seq<RebuildCell>, stack: Seq<RebuildCell>, n: int, limits: RebuildLimits)
    requires
        0 <= n < stack.len(),
        dfs_state(leaves, stack, n + 1, limits),
    ensures
        dfs_with_cell(leaves, stack, n, stack[n], limits),
{
    let c = stack[n];
    assert forall|k: int| 0 <= k < leaves.len() implies resolves_before(#[trigger] leaves[k], c) by {
        assert(resolves_before(leaves[k], stack[n]));
    }
    assert forall|j: int| 0 <= j < n implies resolves_before(c, #[trigger] stack[j]) by {
        assert(resolves_before(stack[n], stack[j]));
    }
    if x_splittable(c, limits) {
        assert forall|k: int| 0 <= k < leaves.len() implies !same_columns(#[trigger] leaves[k], c) by {
            assert(!same_columns(leaves[k], stack[n]));
        }
        assert forall|j: int| 0 <= j < n implies !same_columns(#[trigger] stack[j], c) by {
            assert(!same_columns(stack[j], stack[n]));
        }
    }
    assert forall|k: int| 0 <= k < n && x_splittable(stack[k], limits) implies !same_columns(
        c,
        #[trigger] stack[k],
    ) by {
        assert(!same_columns(stack[n], stack[k]));
    }
}

proof fn lemma_dfs_leaf(
    leaves: Seq<RebuildCell>,
    stack: Seq<RebuildCell>,
    n: int,
    c: RebuildCell,
    limits: RebuildLimits,
)
    requires
        dfs_with_cell(leaves, stack, n, c, limits),
    ensures
        dfs_state(leaves.push(c), stack, n, limits),
{
    let w = leaves.push(c);
    assert forall|k: int, l: int| 0 <= k < l < w.len() implies resolves_before(#[trigger] w[k], #[trigger] w[l]) by {
        if l < leaves.len() {
            assert(resolves_before(leaves[k], leaves[l]));
        } else {
            assert(resolves_before(leaves[k], c));
        }
    }
    assert forall|k: int, j: int| 0 <= k < w.len() && 0 <= j < n implies resolves_before(
        #[trigger] w[k],
        #[trigger] stack[j],
    ) by {
        if k < leaves.len() {
            assert(resolves_before(leaves[k], stack[j]));
        }
    }
    assert forall|k: int, j: int|
        0 <= k < w.len() && 0 <= j < n && x_splittable(stack[j], limits) implies !same_columns(
        #[trigger] w[k],
        #[trigger] stack[j],
    ) by {
        if k < leaves.len() {
            assert(!same_columns(leaves[k], stack[j]));
        }
    }
}

proof fn lemma_dfs_split(
    leaves: Seq<RebuildCell>,
    stack: Seq<RebuildCell>,
    n: int,
    c: RebuildCell,
    stack2: Seq<RebuildCell>,
    limits: RebuildLimits,
)
    requires
        dfs_with_cell(leaves, stack, n, c, limits),
        0 <= n,
        n + 2 <= stack2.len(),
        n <= stack.len(),
        forall|j: int| 0 <= j < n ==> stack2[j] == stack[j],
        c.x0 < c.x1,
        // an x split: right half under the left half, both inside `c`
        x_splittable(c, limits) ==> {
            &&& stack2[n].x0 == stack2[n + 1].x1
            &&& stack2[n + 1].x0 == c.x0
            &&& stack2[n].x1 == c.x1
            &&& c.x0 < stack2[n].x0 < c.x1
        },
        // a q split: same columns, the nearer half on top, neither splits along x
        !x_splittable(c, limits) ==> {
            &&& same_columns(stack2[n], c)
            &&& same_columns(stack2[n + 1], c)
            &&& !x_splittable(stack2[n], limits)
            &&& !x_splittable(stack2[n + 1], limits)
            &&& stack2[n + 1].q_lo >= stack2[n].q_hi
            &&& c.q_lo <= stack2[n].q_lo
            &&& stack2[n + 1].q_hi <= c.q_hi
            &&& stack2[n].q_hi <= c.q_hi
            &&& c.q_lo <= stack2[n + 1].q_lo
        },
    ensures
        dfs_state(leaves, stack2, n + 2, limits),
{
    let left = stack2[n + 1];
    let right = stack2[n];
    assert(front_to_back(leaves));
    assert forall|k: int, j: int| 0 <= k < leaves.len() && 0 <= j < n + 2 implies resolves_before(
        #[trigger] leaves[k],
        #[trigger] stack2[j],
    ) by {
        if j < n {
            assert(stack2[j] == stack[j]);
            assert(resolves_before(leaves[k], stack[j]));
        } else {
            assert(resolves_before(leaves[k], c));
            if x_splittable(c, limits) {
                assert(!same_columns(leaves[k], c));
            }
        }
    }
    assert forall|i: int, j: int| 0 <= i < j < n + 2 implies resolves_before(
        #[trigger] stack2[j],
        #[trigger] stack2[i],
    ) by {
        if j < n {
            assert(stack2[j] == stack[j] && stack2[i] == stack[i]);
            assert(resolves_before(stack[j], stack[i]));
        } else if i < n {
            assert(stack2[i] == stack[i]);
            assert(resolves_before(c, stack[i]));
            if x_splittable(c, limits) {
                assert(!same_columns(stack[i], c));
            }
        }
    }
    assert forall|k: int, j: int|
        0 <= k < leaves.len() && 0 <= j < n + 2 && x_splittable(stack2[j], limits) implies !same_columns(
        #[trigger] leaves[k],
        #[trigger] stack2[j],
    ) by {
        if j < n {
            assert(stack2[j] == stack[j]);
            assert(!same_columns(leaves[k], stack[j]));
        } else {
            assert(resolves_before(leaves[k], c));
        }
    }
    assert forall|i: int, j: int|
        0 <= i < n + 2 && 0 <= j < n + 2 && i != j && x_splittable(stack2[j], limits) implies !same_columns(
        #[trigger] stack2[i],
        #[trigger] stack2[j],
    ) by {
        if i < n && j < n {
            assert(stack2[j] == stack[j] && stack2[i] == stack[i]);
            assert(!same_columns(stack[i], stack[j]));
        } else if i < n {
            assert(stack2[i] == stack[i]);
            assert(resolves_before(c, stack[i]));
            if x_splittable(c, limits) {
                assert(!same_columns(stack[i], c));
            }
        } else if j < n {
            assert(stack2[j] == stack[j]);
            assert(resolves_before(c, stack[j]));
            assert(!same_columns(c, stack[j]));
        }
    }
}

/// `leaves` resolve `values` in order: each is a piece of `initial` on
/// which an attempt resolved its value, and together they reach every
/// point of `initial`.
pub open spec fn leaves_resolve<T, A: Fn(RebuildTier, RebuildCell) -> TierResult<T>>(
    attempt: A,
    initial: RebuildCell,
    leaves: Seq<RebuildCell>,
    values: Seq<T>,
) -> bool {
    &&& leaves.len() == values.len()
    &&& forall|k: int|
        0 <= k < leaves.len() ==> piece_of(#[trigger] leaves[k], initial) && exists|
            tier: RebuildTier,
        | call_ensures(attempt, (tier, leaves[k]), TierResult::Resolved(values[k]))
    &&& forall|x: int, q: int|
        #[trigger] in_cell(initial, x, q) ==> exists|k: int|
            0 <= k < leaves.len() && #[trigger] in_cell(leaves[k], x, q)
    &&& front_to_back(leaves)
    &&& forall|k: int| 0 <= k < leaves.len() ==> #[trigger] first_deciding_tier(attempt, leaves[k], values[k])
}

/// Some sequence of leaves resolves `values` and reaches all of `initial`.
pub open spec fn resolution_reaches<T, A: Fn(RebuildTier, RebuildCell) -> TierResult<T>>(
    attempt: A,
    initial: RebuildCell,
    values: Seq<T>,
) -> bool {
    exists|leaves: Seq<RebuildCell>| leaves_resolve(attempt, initial, leaves, values)
}

proof fn lemma_leaves_resolve<T, A: Fn(RebuildTier, RebuildCell) -> TierResult<T>>(
    attempt: A,
    initial: RebuildCell,
    tiers: Seq<RebuildTier>,
    cells: Seq<RebuildCell>,
    values: Seq<T>,
    pending: Seq<RebuildCell>,
    indices: Seq<int>,
)
    requires
        indices.len() == cells.len(),
        front_to_back(cells),
        forall|k: int| 0 <= k < cells.len() ==> resolved_in_order(attempt, #[trigger] cells[k], indices[k], values[k]),
        tiers.len() == cells.len(),
        cells.len() == values.len(),
        forall|k: int|
            0 <= k < cells.len() ==> piece_of(#[trigger] cells[k], initial) && call_ensures(
                attempt,
                (tiers[k], cells[k]),
                TierResult::Resolved(values[k]),
            ),
        forall|x: int, q: int|
            #[trigger] in_cell(initial, x, q) ==> point_reached(cells, pending, 0, x, q),
    ensures
        resolution_reaches(attempt, initial, values),
{
    assert forall|k: int| 0 <= k < cells.len() implies piece_of(#[trigger] cells[k], initial)
        && exists|tier: RebuildTier|
        call_ensures(attempt, (tier, cells[k]), TierResult::Resolved(values[k])) by {
        assert(call_ensures(attempt, (tiers[k], cells[k]), TierResult::Resolved(values[k])));
    }
    assert forall|x: int, q: int| #[trigger] in_cell(initial, x, q) implies exists|k: int|
        0 <= k < cells.len() && #[trigger] in_cell(cells[k], x, q) by {
        assert(point_reached(cells, pending, 0, x, q));
    }
    assert forall|k: int| 0 <= k < cells.len() implies #[trigger] first_deciding_tier(
        attempt,
        cells[k],
        values[k],
    ) by {
        assert(resolved_in_order(attempt, cells[k], indices[k], values[k]));
    }
    assert(leaves_resolve(attempt, initial, cells, values));
}

fn tier_from_index(i: usize) -> (r: RebuildTier)
    ensures
        r == tier_at(i as int),
{
    if i == 0 {
        RebuildTier::QSplit
    } else if i == 1 {
        RebuildTier::FeatureSplit
    } else if i == 2 {
        RebuildTier::BranchSplit
    } else if i == 3 {
        RebuildTier::EventArrangement
    } else if i == 4 {
        RebuildTier::PixelCell
    } else {
        RebuildTier::SubpixelIntegration
    }
}

fn tier_reason(tier: RebuildTier) -> (r: RebuildReason)
    ensures
        r == (match tier {
            RebuildTier::QSplit => RebuildReason::QSplit,
            RebuildTier::FeatureSplit => RebuildReason::FeatureSplit,
            RebuildTier::BranchSplit => RebuildReason::BranchSplit,
            RebuildTier::EventArrangement => RebuildReason::EventArrangement,
            RebuildTier::PixelCell => RebuildReason::PixelCell,
            RebuildTier::SubpixelIntegration => RebuildReason::SubpixelIntegration,
        }),
{
    match tier {
        RebuildTier::QSplit => RebuildReason::QSplit,
        RebuildTier::FeatureSplit => RebuildReason::FeatureSplit,
        RebuildTier::BranchSplit => RebuildReason::BranchSplit,
        RebuildTier::EventArrangement => RebuildReason::EventArrangement,
        RebuildTier::PixelCell => RebuildReason::PixelCell,
        RebuildTier::SubpixelIntegration => RebuildReason::SubpixelIntegration,
    }
}

/// `after` is `before` with the entry counter of `reason` raised by one
/// (saturating) and every other counter unchanged.
spec fn entry_charged(before: CertificateTelemetry, after: CertificateTelemetry, reason: RebuildReason) -> bool {
    &&& after.rebuild_entries@ == before.rebuild_entries@.update(
        reason_index(reason),
        saturating_inc(before.rebuild_entries@[reason_index(reason)]),
    )
    &&& after.rebuild_terminals == before.rebuild_terminals
    &&& after.regular_pixels == before.regular_pixels
    &&& after.root_subdivision_depth == before.root_subdivision_depth
    &&& after.event_subdivision_depth == before.event_subdivision_depth
}

/// `after` is `before` with the terminal counter of `reason` raised by one
/// (saturating) and every other counter unchanged.
spec fn terminal_charged(before: CertificateTelemetry, after: CertificateTelemetry, reason: RebuildReason) -> bool {
    &&& after.rebuild_terminals@ == before.rebuild_terminals@.update(
        reason_index(reason),
        saturating_inc(before.rebuild_terminals@[reason_index(reason)]),
    )
    &&& after.rebuild_entries == before.rebuild_entries
    &&& after.regular_pixels == before.regular_pixels
    &&& after.root_subdivision_depth == before.root_subdivision_depth
    &&& after.event_subdivision_depth == before.event_subdivision_depth
}

/// The histogram bin of a subdivision depth; deep leaves share the last bin.
spec fn depth_bin(depth: u8) -> int {
    if depth < SUBDIVISION_BINS {
        depth as int
    } else {
        SUBDIVISION_BINS - 1
    }
}

/// `after` is `before` with one leaf counted in the q and x depth
/// histograms of `cell` (saturating) and every other counter unchanged.
spec fn leaf_charged(before: CertificateTelemetry, after: CertificateTelemetry, cell: RebuildCell) -> bool {
    &&& after.root_subdivision_depth@ == before.root_subdivision_depth@.update(
        depth_bin(cell.q_depth),
        saturating_inc(before.root_subdivision_depth@[depth_bin(cell.q_depth)]),
    )
    &&& after.event_subdivision_depth@ == before.event_subdivision_depth@.update(
        depth_bin(cell.x_depth),
        saturating_inc(before.event_subdivision_depth@[depth_bin(cell.x_depth)]),
    )
    &&& after.rebuild_entries == before.rebuild_entries
    &&& after.rebuild_terminals == before.rebuild_terminals
    &&& after.regular_pixels == before.regular_pixels
}

/// Charges a rebuild entry to the telemetry, when there is one.
fn charge_entry(telemetry: &mut Option<&mut CertificateTelemetry>, reason: RebuildReason)
    ensures
        match *old(telemetry) {
            Some(t) => match *final(telemetry) {
                Some(u) => entry_charged(*t, *u, reason) && *final(u) == *final(t),
                None => false,
            },
            None => (*final(telemetry)) is None,
        },
{
    match telemetry {
        Some(t) => t.charge_rebuild_entry(reason),
        None => {},
    }
}

/// Charges a rebuild terminal to the telemetry, when there is one.
fn charge_terminal(telemetry: &mut Option<&mut CertificateTelemetry>, reason: RebuildReason)
    ensures
        match *old(telemetry) {
            Some(t) => match *final(telemetry) {
                Some(u) => terminal_charged(*t, *u, reason) && *final(u) == *final(t),
                None => false,
            },
            None => (*final(telemetry)) is None,
        },
{
    match telemetry {
        Some(t) => t.charge_rebuild_terminal(reason),
        None => {},
    }
}

/// Counts a resolved leaf's depths in the telemetry, when there is one.
fn charge_leaf(telemetry: &mut Option<&mut CertificateTelemetry>, cell: RebuildCell)
    ensures
        match *old(telemetry) {
            Some(t) => match *final(telemetry) {
                Some(u) => leaf_charged(*t, *u, cell) && *final(u) == *final(t),
                None => false,
            },
            None => (*final(telemetry)) is None,
        },
{
    match telemetry {
        Some(t) => t.charge_leaf_depths(cell.q_depth, cell.x_depth),
        None => {},
    }
}

/// Resolves `initial` by splitting it along x (while wider than one pixel
/// and under the depth limit), then trying each tier in fixed order; an
/// inconclusive q tier may split the q range, front half first. Resolved
/// values are written to `output` in resolution order.
#[verifier::loop_isolation(false)]
#[verifier::rlimit(40)]
pub fn resolve_bounded<T: Copy + PartialEq, A: Fn(RebuildTier, RebuildCell) -> TierResult<T>>(
    initial: RebuildCell,
    limits: RebuildLimits,
    stack: &mut [RebuildCell],
    output: &mut [T],
    attempt: A,
    telemetry: Option<&mut CertificateTelemetry>,
) -> (r: Result<usize, RebuildError>)
    requires
        forall|tier: RebuildTier, cell: RebuildCell| call_requires(attempt, (tier, cell)),
    ensures
        r == Err::<usize, RebuildError>(RebuildError::InvalidDomain) <==> (initial.x0 >= initial.x1
            || limits.max_cells == 0 || old(stack)@.len() == 0),
        final(output)@.len() == old(output)@.len(),
        r matches Ok(n) ==> n <= old(output)@.len() && n <= limits.max_cells && forall|k: int|
            n <= k < old(output)@.len() ==> #[trigger] final(output)@[k] == old(output)@[k],
        r matches Ok(n) ==> forall|k: int|
            0 <= k < n ==> resolved_by(attempt, initial, #[trigger] final(output)@[k]),
        r == Err::<usize, RebuildError>(RebuildError::NumericFailure) ==> failed_by(
            attempt,
            initial,
        ),
        r matches Ok(n) ==> resolution_reaches(
            attempt,
            initial,
            final(output)@.subrange(0, n as int),
        ),
        r == Err::<usize, RebuildError>(RebuildError::CertificateExhausted) ==> exhausted_by(
            attempt,
            initial,
        ) || limits.max_cells < subtree_size(initial, limits),
        r == Err::<usize, RebuildError>(RebuildError::CapacityExceeded) ==> old(stack)@.len()
            <= subtree_size(initial, limits) || old(output)@.len() < subtree_size(initial, limits)
            || u16::MAX < subtree_size(initial, limits),
{
    let mut telemetry = telemetry;
    if initial.x0 >= initial.x1 || limits.max_cells == 0 || stack.len() == 0 {
        return Err(RebuildError::InvalidDomain);
    }
    let ghost original_output = output@;
    let mut stack_len: usize = 1;
    stack[0] = initial;
    let mut output_len: usize = 0;
    let mut entered: u16 = 0;
    let ghost mut witness_tiers: Seq<RebuildTier> = Seq::empty();
    let ghost mut witness_cells: Seq<RebuildCell> = Seq::empty();
    let ghost mut witness_index: Seq<int> = Seq::empty();
    proof {
        reveal_with_fuel(pending_size, 2);
        assert(dfs_state(witness_cells, stack@, 1, limits));
        assert(pending_size(stack@, 1, limits) == subtree_size(initial, limits));
    }
    assert forall|x: int, q: int| #[trigger] in_cell(initial, x, q) implies point_reached(
        witness_cells,
        stack@,
        1,
        x,
        q,
    ) by {
        assert(in_cell(stack@[0], x, q));
    }
    while stack_len != 0
        invariant
            stack@.len() == old(stack)@.len(),
            output@.len() == original_output.len(),
            stack_len <= stack@.len(),
            output_len <= output@.len(),
            output_len <= entered <= limits.max_cells,
            forall|k: int| 0 <= k < stack_len ==> piece_of(#[trigger] stack@[k], initial),
            forall|k: int|
                output_len <= k < original_output.len() ==> #[trigger] output@[k]
                    == original_output[k],
            witness_tiers.len() == output_len,
            witness_cells.len() == output_len,
            witness_index.len() == output_len,
            forall|k: int|
                0 <= k < output_len ==> resolved_in_order(
                    attempt,
                    #[trigger] witness_cells[k],
                    witness_index[k],
                    output@[k],
                ),
            dfs_state(witness_cells, stack@, stack_len as int, limits),
            forall|k: int|
                0 <= k < output_len ==> piece_of(#[trigger] witness_cells[k], initial)
                    && call_ensures(
                    attempt,
                    (witness_tiers[k], witness_cells[k]),
                    TierResult::Resolved(output@[k]),
                ),
            forall|tier: RebuildTier, cell: RebuildCell| call_requires(attempt, (tier, cell)),
            forall|x: int, q: int|
                #[trigger] in_cell(initial, x, q) ==> point_reached(
                    witness_cells,
                    stack@,
                    stack_len as int,
                    x,
                    q,
                ),
            entered + pending_size(stack@, stack_len as int, limits) <= subtree_size(initial, limits),
        decreases limits.max_cells - entered,
    {
        stack_len = stack_len - 1;
        let cell = stack[stack_len];
        let ghost entered_before = entered;
        let ghost prefix = pending_size(stack@, stack_len as int, limits);
        proof {
            assert(pending_size(stack@, stack_len + 1, limits) == prefix + subtree_size(cell, limits));
            lemma_pending_size_facts(stack@, stack@, stack_len as int, limits);
            crate::dyadic::lemma_two_pow_pos(splits_left(cell, limits) + 1);
            assert(entered + prefix + subtree_size(cell, limits) <= subtree_size(initial, limits));
        }
        proof {
            assert forall|x: int, q: int| #[trigger] in_cell(initial, x, q) implies point_reached(
                witness_cells,
                stack@,
                stack_len as int,
                x,
                q,
            ) || in_cell(cell, x, q) by {
                if exists|j: int| 0 <= j < stack_len + 1 && #[trigger] in_cell(stack@[j], x, q) {
                    let j = choose|j: int| 0 <= j < stack_len + 1 && #[trigger] in_cell(stack@[j], x, q);
                    if j < stack_len {
                        assert(in_cell(stack@[j], x, q));
                    }
                }
            }
        }
        assert(piece_of(cell, initial));
        proof {
            lemma_dfs_pop(witness_cells, stack@, stack_len as int, limits);
        }
        if entered == u16::MAX {
            return Err(RebuildError::CapacityExceeded);
        }
        entered = entered + 1;
        if entered > limits.max_cells {
            charge_terminal(&mut telemetry, RebuildReason::Exhausted);
            return Err(RebuildError::CertificateExhausted);
        }
        if cell.x1 - cell.x0 > 1 && cell.x_depth < limits.max_x_depth {
            charge_entry(&mut telemetry, RebuildReason::XSplit);
            proof {
                let child = RebuildCell { x_depth: (cell.x_depth + 1) as u8, ..cell };
                lemma_children_size(cell, child, limits);
            }
            let midpoint = cell.x0 + (cell.x1 - cell.x0) / 2;
            if midpoint <= cell.x0 || midpoint >= cell.x1 || stack.len() - stack_len < 2 {
                charge_terminal(&mut telemetry, RebuildReason::Exhausted);
                return Err(RebuildError::CapacityExceeded);
            }
            let ghost before_split = stack@;
            stack[stack_len] = RebuildCell {
                x0: midpoint,
                x1: cell.x1,
                q_lo: cell.q_lo,
                q_hi: cell.q_hi,
                x_depth: cell.x_depth + 1,
                q_depth: cell.q_depth,
            };
            stack[stack_len + 1] = RebuildCell {
                x0: cell.x0,
                x1: midpoint,
                q_lo: cell.q_lo,
                q_hi: cell.q_hi,
                x_depth: cell.x_depth + 1,
                q_depth: cell.q_depth,
            };
            proof {
                let ghost_mid = midpoint as int;
                assert forall|x: int, q: int| #[trigger] in_cell(initial, x, q) implies point_reached(
                    witness_cells,
                    stack@,
                    stack_len + 2,
                    x,
                    q,
                ) by {
                    if exists|j: int|
                        0 <= j < stack_len && #[trigger] in_cell(before_split[j], x, q) {
                        let j = choose|j: int|
                            0 <= j < stack_len && #[trigger] in_cell(before_split[j], x, q);
                        assert(stack@[j] == before_split[j]);
                        assert(in_cell(stack@[j], x, q));
                    } else if in_cell(cell, x, q) {
                        if x < ghost_mid {
                            assert(in_cell(stack@[stack_len + 1], x, q));
                        } else {
                            assert(in_cell(stack@[stack_len as int], x, q));
                        }
                    }
                }
            }
            proof {
                let after = stack@;
                lemma_pending_size_facts(before_split, after, stack_len as int, limits);
                lemma_children_size(cell, after[stack_len as int], limits);
                lemma_children_size(cell, after[stack_len + 1], limits);
                assert(pending_size(after, stack_len + 1, limits) == prefix + subtree_size(after[stack_len as int], limits));
                assert(pending_size(after, stack_len + 2, limits) == pending_size(after, stack_len + 1, limits) + subtree_size(after[stack_len + 1], limits));
                assert(x_splittable(cell, limits));
                lemma_dfs_split(witness_cells, before_split, stack_len as int, cell, after, limits);
            }
            stack_len = stack_len + 2;
            continue;
        }
        let mut resolved: Option<(T, RebuildReason)> = None;
        let ghost mut resolved_tier = RebuildTier::QSplit;
        let ghost mut resolved_index: int = 0;
        let mut q_split = false;
        let mut tier_index: usize = 0;
        while tier_index < 6
            invariant
                tier_index <= 6,
                stack@.len() == old(stack)@.len(),
                stack_len <= stack@.len(),
                forall|k: int| 0 <= k < stack_len ==> piece_of(#[trigger] stack@[k], initial),
                !q_split,
                resolved is None,
                forall|tier: RebuildTier, cell: RebuildCell| call_requires(attempt, (tier, cell)),
                forall|x: int, q: int|
                    #[trigger] in_cell(initial, x, q) ==> point_reached(
                        witness_cells,
                        stack@,
                        stack_len as int,
                        x,
                        q,
                    ) || in_cell(cell, x, q),
                entered + pending_size(stack@, stack_len as int, limits) + subtree_size(cell, limits)
                    <= subtree_size(initial, limits) + 1,
                prefix == pending_size(stack@, stack_len as int, limits),
                output_len <= entered_before < entered,
                dfs_with_cell(witness_cells, stack@, stack_len as int, cell, limits),
                !x_splittable(cell, limits),
                piece_of(cell, initial),
                forall|i: int|
                    0 <= i < tier_index ==> call_ensures(
                        attempt,
                        (#[trigger] tier_at(i), cell),
                        TierResult::<T>::Inconclusive,
                    ),
            decreases 6 - tier_index,
        {
            let tier = tier_from_index(tier_index);
            let reason = tier_reason(tier);
            charge_entry(&mut telemetry, reason);
            match attempt(tier, cell) {
                TierResult::Resolved(value) => {
                    proof {
                        resolved_tier = tier;
                        resolved_index = tier_index as int;
                        assert(tier == tier_at(tier_index as int));
                        assert(resolved_in_order(attempt, cell, resolved_index, value));
                    }
                    resolved = Some((value, reason));
                    break;
                },
                TierResult::Inconclusive => {
                    if tier_index == 0 && cell.q_depth < limits.max_q_depth && cell.q_lo
                        < cell.q_hi {
                        let wide: i64 = cell.q_lo as i64 + (cell.q_hi as i64 - cell.q_lo as i64)
                            / 2;
                        let midpoint: i32 = wide as i32;
                        if midpoint > cell.q_lo && midpoint < cell.q_hi && stack.len() - stack_len
                            >= 2 {
                            let ghost before_split = stack@;
                            stack[stack_len] = RebuildCell {
                                x0: cell.x0,
                                x1: cell.x1,
                                q_lo: cell.q_lo,
                                q_hi: midpoint,
                                x_depth: cell.x_depth,
                                q_depth: cell.q_depth + 1,
                            };
                            stack[stack_len + 1] = RebuildCell {
                                x0: cell.x0,
                                x1: cell.x1,
                                q_lo: midpoint,
                                q_hi: cell.q_hi,
                                x_depth: cell.x_depth,
                                q_depth: cell.q_depth + 1,
                            };
                            proof {
                                let m = midpoint as int;
                                assert forall|x: int, q: int| #[trigger]
                                    in_cell(initial, x, q) implies point_reached(
                                    witness_cells,
                                    stack@,
                                    stack_len + 2,
                                    x,
                                    q,
                                ) by {
                                    if exists|j: int|
                                        0 <= j < stack_len && #[trigger] in_cell(
                                            before_split[j],
                                            x,
                                            q,
                                        ) {
                                        let j = choose|j: int|
                                            0 <= j < stack_len && #[trigger] in_cell(
                                                before_split[j],
                                                x,
                                                q,
                                            );
                                        assert(stack@[j] == before_split[j]);
                                        assert(in_cell(stack@[j], x, q));
                                    } else if in_cell(cell, x, q) {
                                        if q <= m {
                                            assert(in_cell(stack@[stack_len as int], x, q));
                                        } else {
                                            assert(in_cell(stack@[stack_len + 1], x, q));
                                        }
                                    }
                                }
                                let after = stack@;
                                lemma_pending_size_facts(before_split, after, stack_len as int, limits);
                                lemma_children_size(cell, after[stack_len as int], limits);
                                assert(pending_size(after, stack_len + 1, limits) == prefix
                                    + subtree_size(after[stack_len as int], limits));
                                assert(pending_size(after, stack_len + 2, limits) == pending_size(
                                    after,
                                    stack_len + 1,
                                    limits,
                                ) + subtree_size(after[stack_len + 1], limits));
                                lemma_dfs_split(witness_cells, before_split, stack_len as int, cell, after, limits);
                            }
                            stack_len = stack_len + 2;
                            q_split = true;
                            break;
                        }
                    }
                },
                TierResult::NumericFailure => {
                    assert(piece_of(cell, initial) && call_ensures(
                        attempt,
                        (tier, cell),
                        TierResult::NumericFailure,
                    ));
                    charge_terminal(&mut telemetry, RebuildReason::Exhausted);
                    return Err(RebuildError::NumericFailure);
                },
            }
            proof {
                assert(tier == tier_at(tier_index as int));
            }
            tier_index = tier_index + 1;
        }
        if q_split {
            continue;
        }
        let (value, reason) = match resolved {
            Some(found) => found,
            None => {
                proof {
                    assert(undecided_by_all(attempt, cell));
                    assert(piece_of(cell, initial));
                }
                charge_terminal(&mut telemetry, RebuildReason::Exhausted);
                return Err(RebuildError::CertificateExhausted);
            },
        };
        if output_len >= output.len() {
            charge_terminal(&mut telemetry, RebuildReason::Exhausted);
            return Err(RebuildError::CapacityExceeded);
        }
        assert(call_ensures(attempt, (resolved_tier, cell), TierResult::Resolved(value)));
        let ghost before_write = output@;
        output[output_len] = value;
        proof {
            let before_cells = witness_cells;
            lemma_dfs_leaf(witness_cells, stack@, stack_len as int, cell, limits);
            witness_tiers = witness_tiers.push(resolved_tier);
            witness_cells = witness_cells.push(cell);
            witness_index = witness_index.push(resolved_index);
            assert forall|x: int, q: int| #[trigger] in_cell(initial, x, q) implies point_reached(
                witness_cells,
                stack@,
                stack_len as int,
                x,
                q,
            ) by {
                if exists|k: int| 0 <= k < before_cells.len() && #[trigger] in_cell(
                    before_cells[k],
                    x,
                    q,
                ) {
                    let k = choose|k: int| 0 <= k < before_cells.len() && #[trigger] in_cell(
                        before_cells[k],
                        x,
                        q,
                    );
                    assert(in_cell(witness_cells[k], x, q));
                } else if in_cell(cell, x, q) {
                    assert(in_cell(witness_cells[before_cells.len() as int], x, q));
                }
            }
            assert forall|k: int| 0 <= k < output_len + 1 implies piece_of(
                #[trigger] witness_cells[k],
                initial,
            ) && call_ensures(
                attempt,
                (witness_tiers[k], witness_cells[k]),
                TierResult::Resolved(output@[k]),
            ) by {
                if k < output_len {
                    assert(output@[k] == before_write[k]);
                }
            }
        }
        output_len = output_len + 1;
        charge_terminal(&mut telemetry, reason);
        charge_leaf(&mut telemetry, cell);
    }
    proof {
        assert forall|k: int| 0 <= k < output_len implies resolved_by(
            attempt,
            initial,
            #[trigger] output@[k],
        ) by {
            assert(piece_of(witness_cells[k], initial));
        }
        let values = output@.subrange(0, output_len as int);
        assert forall|k: int| 0 <= k < witness_cells.len() implies piece_of(
            #[trigger] witness_cells[k],
            initial,
        ) && call_ensures(
            attempt,
            (witness_tiers[k], witness_cells[k]),
            TierResult::Resolved(values[k]),
        ) by {
            assert(values[k] == output@[k]);
        }
        assert forall|k: int| 0 <= k < witness_cells.len() implies resolved_in_order(
            attempt,
            #[trigger] witness_cells[k],
            witness_index[k],
            values[k],
        ) by {
            assert(values[k] == output@[k]);
        }
        lemma_leaves_resolve(attempt, initial, witness_tiers, witness_cells, values, stack@, witness_index);
    }
    assert(resolution_reaches(attempt, initial, output@.subrange(0, output_len as int)));
    Ok(output_len)
}

} // verus!
