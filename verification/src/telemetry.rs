//! Certificate counters that the rebuild ladder and the frame collector keep.
use vstd::prelude::*;

verus! {

/// Depth histograms saturate in their last bin.
pub const SUBDIVISION_BINS: usize = 8;

/// One counter per rebuild reason.
pub const REBUILD_REASONS: usize = 8;

#[derive(Clone, Copy, Debug, PartialEq, Eq, Structural)]
pub enum RebuildReason {
    QSplit,
    FeatureSplit,
    BranchSplit,
    EventArrangement,
    PixelCell,
    SubpixelIntegration,
    XSplit,
    Exhausted,
}

#[derive(Clone, Copy, Debug, Default, PartialEq, Eq)]
pub struct CertificateTelemetry {
    pub regular_pixels: u64,
    pub rebuild_entries: [u64; REBUILD_REASONS],
    pub rebuild_terminals: [u64; REBUILD_REASONS],
    pub root_subdivision_depth: [u64; SUBDIVISION_BINS],
    pub event_subdivision_depth: [u64; SUBDIVISION_BINS],
}

pub open spec fn reason_index(reason: RebuildReason) -> int {
    match reason {
        RebuildReason::QSplit => 0,
        RebuildReason::FeatureSplit => 1,
        RebuildReason::BranchSplit => 2,
        RebuildReason::EventArrangement => 3,
        RebuildReason::PixelCell => 4,
        RebuildReason::SubpixelIntegration => 5,
        RebuildReason::XSplit => 6,
        RebuildReason::Exhausted => 7,
    }
}

fn reason_slot(reason: RebuildReason) -> (r: usize)
    ensures
        r == reason_index(reason),
{
    match reason {
        RebuildReason::QSplit => 0,
        RebuildReason::FeatureSplit => 1,
        RebuildReason::BranchSplit => 2,
        RebuildReason::EventArrangement => 3,
        RebuildReason::PixelCell => 4,
        RebuildReason::SubpixelIntegration => 5,
        RebuildReason::XSplit => 6,
        RebuildReason::Exhausted => 7,
    }
}

pub open spec fn saturating_inc(v: u64) -> u64 {
    if v == u64::MAX {
        v
    } else {
        (v + 1) as u64
    }
}

/// Adds one to counter `i` of `counters`, saturating.
fn bump(counters: &mut [u64; 8], i: usize)
    requires
        i < 8,
    ensures
        final(counters)@ == old(counters)@.update(i as int, saturating_inc(old(counters)@[i as int])),
{
    if counters[i] < u64::MAX {
        counters[i] = counters[i] + 1;
    }
}

/// Sums two counter arrays, refusing on overflow.
fn add_counters(into: &mut [u64; 8], other: &[u64; 8]) -> (r: bool)
    ensures
        r ==> forall|k: int| 0 <= k < 8 ==> #[trigger] final(into)@[k] == old(into)@[k] + other@[k],
        !r ==> exists|k: int| 0 <= k < 8 && old(into)@[k] + other@[k] > u64::MAX,
{
    let mut k: usize = 0;
    while k < 8
        invariant
            k <= 8,
            into@.len() == 8,
            forall|j: int| 0 <= j < k ==> #[trigger] into@[j] == old(into)@[j] + other@[j],
            forall|j: int| k <= j < 8 ==> #[trigger] into@[j] == old(into)@[j],
        decreases 8 - k,
    {
        match into[k].checked_add(other[k]) {
            Some(v) => {
                into[k] = v;
            },
            None => {
                assert(old(into)@[k as int] + other@[k as int] > u64::MAX);
                return false;
            },
        }
        k = k + 1;
    }
    true
}

impl CertificateTelemetry {
    pub fn charge_rebuild_entry(&mut self, reason: RebuildReason)
        ensures
            final(self).rebuild_entries@ == old(self).rebuild_entries@.update(
                reason_index(reason),
                saturating_inc(old(self).rebuild_entries@[reason_index(reason)]),
            ),
            final(self).rebuild_terminals == old(self).rebuild_terminals,
            final(self).regular_pixels == old(self).regular_pixels,
            final(self).root_subdivision_depth == old(self).root_subdivision_depth,
            final(self).event_subdivision_depth == old(self).event_subdivision_depth,
    {
        let i = reason_slot(reason);
        bump(&mut self.rebuild_entries, i);
    }

    pub fn charge_rebuild_terminal(&mut self, reason: RebuildReason)
        ensures
            final(self).rebuild_terminals@ == old(self).rebuild_terminals@.update(
                reason_index(reason),
                saturating_inc(old(self).rebuild_terminals@[reason_index(reason)]),
            ),
            final(self).rebuild_entries == old(self).rebuild_entries,
            final(self).regular_pixels == old(self).regular_pixels,
            final(self).root_subdivision_depth == old(self).root_subdivision_depth,
            final(self).event_subdivision_depth == old(self).event_subdivision_depth,
    {
        let i = reason_slot(reason);
        bump(&mut self.rebuild_terminals, i);
    }

    /// Counts one resolved leaf at the given q and x subdivision depths.
    pub fn charge_leaf_depths(&mut self, q_depth: u8, x_depth: u8)
        ensures
            final(self).root_subdivision_depth@ == old(self).root_subdivision_depth@.update(
                if q_depth < SUBDIVISION_BINS { q_depth as int } else { SUBDIVISION_BINS - 1 },
                saturating_inc(
                    old(self).root_subdivision_depth@[if q_depth < SUBDIVISION_BINS {
                        q_depth as int
                    } else {
                        SUBDIVISION_BINS - 1
                    }],
                ),
            ),
            final(self).event_subdivision_depth@ == old(self).event_subdivision_depth@.update(
                if x_depth < SUBDIVISION_BINS { x_depth as int } else { SUBDIVISION_BINS - 1 },
                saturating_inc(
                    old(self).event_subdivision_depth@[if x_depth < SUBDIVISION_BINS {
                        x_depth as int
                    } else {
                        SUBDIVISION_BINS - 1
                    }],
                ),
            ),
            final(self).rebuild_entries == old(self).rebuild_entries,
            final(self).rebuild_terminals == old(self).rebuild_terminals,
            final(self).regular_pixels == old(self).regular_pixels,
    {
        let q: usize = if (q_depth as usize) < SUBDIVISION_BINS {
            q_depth as usize
        } else {
            SUBDIVISION_BINS - 1
        };
        let x: usize = if (x_depth as usize) < SUBDIVISION_BINS {
            x_depth as usize
        } else {
            SUBDIVISION_BINS - 1
        };
        bump(&mut self.root_subdivision_depth, q);
        bump(&mut self.event_subdivision_depth, x);
    }

    /// Adds `other`'s counters to these, in tile order; refused, with
    /// nothing changed, when any counter would overflow.
    pub fn merge_in_tile_order(&mut self, other: &CertificateTelemetry) -> (r: Result<(), ()>)
        ensures
            r is Ok <==> merge_fits(*old(self), *other),
            r is Ok ==> merged(*old(self), *other, *final(self)),
            r is Err ==> *final(self) == *old(self),
    {
        let mut merged_value = *self;
        let pixels = match self.regular_pixels.checked_add(other.regular_pixels) {
            Some(v) => v,
            None => return Err(()),
        };
        merged_value.regular_pixels = pixels;
        if !add_counters(&mut merged_value.rebuild_entries, &other.rebuild_entries) {
            return Err(());
        }
        if !add_counters(&mut merged_value.rebuild_terminals, &other.rebuild_terminals) {
            return Err(());
        }
        if !add_counters(&mut merged_value.root_subdivision_depth, &other.root_subdivision_depth) {
            return Err(());
        }
        if !add_counters(&mut merged_value.event_subdivision_depth, &other.event_subdivision_depth) {
            return Err(());
        }
        proof {
            assert forall|k: int| 0 <= k < 8 implies #[trigger] self.rebuild_entries@[k]
                + other.rebuild_entries@[k] <= u64::MAX by {
                assert(merged_value.rebuild_entries@[k] == self.rebuild_entries@[k]
                    + other.rebuild_entries@[k]);
            }
            assert forall|k: int| 0 <= k < 8 implies #[trigger] self.rebuild_terminals@[k]
                + other.rebuild_terminals@[k] <= u64::MAX by {
                assert(merged_value.rebuild_terminals@[k] == self.rebuild_terminals@[k]
                    + other.rebuild_terminals@[k]);
            }
            assert forall|k: int| 0 <= k < 8 implies #[trigger] self.root_subdivision_depth@[k]
                + other.root_subdivision_depth@[k] <= u64::MAX by {
                assert(merged_value.root_subdivision_depth@[k] == self.root_subdivision_depth@[k]
                    + other.root_subdivision_depth@[k]);
            }
            assert forall|k: int| 0 <= k < 8 implies #[trigger] self.event_subdivision_depth@[k]
                + other.event_subdivision_depth@[k] <= u64::MAX by {
                assert(merged_value.event_subdivision_depth@[k] == self.event_subdivision_depth@[k]
                    + other.event_subdivision_depth@[k]);
            }
        }
        *self = merged_value;
        Ok(())
    }
}

pub open spec fn counters_fit(a: [u64; 8], b: [u64; 8]) -> bool {
    forall|k: int| 0 <= k < 8 ==> #[trigger] a@[k] + b@[k] <= u64::MAX
}

pub open spec fn counters_sum(a: [u64; 8], b: [u64; 8], c: [u64; 8]) -> bool {
    forall|k: int| 0 <= k < 8 ==> #[trigger] c@[k] == a@[k] + b@[k]
}

/// Every counter of the sum fits a `u64`.
pub open spec fn merge_fits(a: CertificateTelemetry, b: CertificateTelemetry) -> bool {
    &&& a.regular_pixels + b.regular_pixels <= u64::MAX
    &&& counters_fit(a.rebuild_entries, b.rebuild_entries)
    &&& counters_fit(a.rebuild_terminals, b.rebuild_terminals)
    &&& counters_fit(a.root_subdivision_depth, b.root_subdivision_depth)
    &&& counters_fit(a.event_subdivision_depth, b.event_subdivision_depth)
}

/// `c` holds the counter-wise sums of `a` and `b`.
pub open spec fn merged(a: CertificateTelemetry, b: CertificateTelemetry, c: CertificateTelemetry) -> bool {
    &&& c.regular_pixels == a.regular_pixels + b.regular_pixels
    &&& counters_sum(a.rebuild_entries, b.rebuild_entries, c.rebuild_entries)
    &&& counters_sum(a.rebuild_terminals, b.rebuild_terminals, c.rebuild_terminals)
    &&& counters_sum(a.root_subdivision_depth, b.root_subdivision_depth, c.root_subdivision_depth)
    &&& counters_sum(a.event_subdivision_depth, b.event_subdivision_depth, c.event_subdivision_depth)
}

/// A counter array as integers.
pub open spec fn widen(a: [u64; 8]) -> Seq<int> {
    Seq::new(8, |k: int| a@[k] as int)
}

/// Every counter of a telemetry record, in a fixed order.
pub open spec fn tally(t: CertificateTelemetry) -> Seq<int> {
    seq![t.regular_pixels as int] + widen(t.rebuild_entries) + widen(t.rebuild_terminals) + widen(
        t.root_subdivision_depth,
    ) + widen(t.event_subdivision_depth)
}

/// Counter-wise sum of two tallies.
pub open spec fn add_tallies(a: Seq<int>, b: Seq<int>) -> Seq<int> {
    Seq::new(a.len(), |i: int| a[i] + b[i])
}

/// Every counter fits a `u64`.
pub open spec fn tally_fits(a: Seq<int>) -> bool {
    forall|i: int| 0 <= i < a.len() ==> #[trigger] a[i] <= u64::MAX
}

pub proof fn lemma_tally_index(t: CertificateTelemetry)
    ensures
        tally(t).len() == 33,
        tally(t)[0] == t.regular_pixels,
        forall|k: int|
            0 <= k < 8 ==> tally(t)[1 + k] == #[trigger] t.rebuild_entries@[k] && tally(t)[9 + k]
                == t.rebuild_terminals@[k] && tally(t)[17 + k] == t.root_subdivision_depth@[k]
                && tally(t)[25 + k] == t.event_subdivision_depth@[k],
        forall|i: int|
            0 <= i < 33 ==> #[trigger] tally(t)[i] == if i == 0 {
                t.regular_pixels as int
            } else if i < 9 {
                t.rebuild_entries@[i - 1] as int
            } else if i < 17 {
                t.rebuild_terminals@[i - 9] as int
            } else if i < 25 {
                t.root_subdivision_depth@[i - 17] as int
            } else {
                t.event_subdivision_depth@[i - 25] as int
            },
{
}

/// Merging fits exactly when the summed tally fits, and a merge leaves the
/// summed tally.
pub proof fn lemma_tally_merge(a: CertificateTelemetry, b: CertificateTelemetry, c: CertificateTelemetry)
    ensures
        merge_fits(a, b) <==> tally_fits(add_tallies(tally(a), tally(b))),
        merged(a, b, c) ==> tally(c) == add_tallies(tally(a), tally(b)),
{
    lemma_tally_index(a);
    lemma_tally_index(b);
    lemma_tally_index(c);
    let s = add_tallies(tally(a), tally(b));
    if tally_fits(s) {
        assert forall|k: int| 0 <= k < 8 implies #[trigger] a.rebuild_entries@[k]
            + b.rebuild_entries@[k] <= u64::MAX by {
            assert(s[1 + k] <= u64::MAX);
        }
        assert forall|k: int| 0 <= k < 8 implies #[trigger] a.rebuild_terminals@[k]
            + b.rebuild_terminals@[k] <= u64::MAX by {
            assert(s[9 + k] <= u64::MAX);
        }
        assert forall|k: int| 0 <= k < 8 implies #[trigger] a.root_subdivision_depth@[k]
            + b.root_subdivision_depth@[k] <= u64::MAX by {
            assert(s[17 + k] <= u64::MAX);
        }
        assert forall|k: int| 0 <= k < 8 implies #[trigger] a.event_subdivision_depth@[k]
            + b.event_subdivision_depth@[k] <= u64::MAX by {
            assert(s[25 + k] <= u64::MAX);
        }
        assert(s[0] <= u64::MAX);
    }
    if merge_fits(a, b) {
        assert forall|i: int| 0 <= i < s.len() implies #[trigger] s[i] <= u64::MAX by {
            assert(tally(a)[i] == tally(a)[i]);
            assert(tally(b)[i] == tally(b)[i]);
            if 1 <= i < 9 {
                assert(a.rebuild_entries@[i - 1] + b.rebuild_entries@[i - 1] <= u64::MAX);
            } else if 9 <= i < 17 {
                assert(a.rebuild_terminals@[i - 9] + b.rebuild_terminals@[i - 9] <= u64::MAX);
            } else if 17 <= i < 25 {
                assert(a.root_subdivision_depth@[i - 17] + b.root_subdivision_depth@[i - 17]
                    <= u64::MAX);
            } else if 25 <= i < 33 {
                assert(a.event_subdivision_depth@[i - 25] + b.event_subdivision_depth@[i - 25]
                    <= u64::MAX);
            }
        }
    }
    if merged(a, b, c) {
        assert forall|i: int| 0 <= i < 33 implies #[trigger] tally(c)[i] == s[i] by {
            assert(tally(a)[i] == tally(a)[i]);
            assert(tally(b)[i] == tally(b)[i]);
            if 1 <= i < 9 {
                assert(c.rebuild_entries@[i - 1] == a.rebuild_entries@[i - 1]
                    + b.rebuild_entries@[i - 1]);
            } else if 9 <= i < 17 {
                assert(c.rebuild_terminals@[i - 9] == a.rebuild_terminals@[i - 9]
                    + b.rebuild_terminals@[i - 9]);
            } else if 17 <= i < 25 {
                assert(c.root_subdivision_depth@[i - 17] == a.root_subdivision_depth@[i - 17]
                    + b.root_subdivision_depth@[i - 17]);
            } else if 25 <= i < 33 {
                assert(c.event_subdivision_depth@[i - 25] == a.event_subdivision_depth@[i - 25]
                    + b.event_subdivision_depth@[i - 25]);
            }
        }
        assert(tally(c) =~= s);
    }
}

} // verus!
