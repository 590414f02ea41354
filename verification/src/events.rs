//! Deterministic row-event isolation and half-open domain partitioning.
use vstd::prelude::*;

verus! {

#[derive(Clone, Copy, Debug, Default, PartialEq, Eq, Structural)]
pub struct EventInterval {
    pub lo: u16,
    pub hi: u16,
    pub generator_id: u32,
    pub subdivision_depth: u8,
}

#[derive(Clone, Copy, Debug, Default, PartialEq, Eq, Structural)]
pub struct EventCorridor {
    pub x0: u16,
    pub x1: u16,
    pub first_event: u16,
    pub event_count: u16,
}

#[derive(Clone, Copy, Debug, Default, PartialEq, Eq, Structural)]
pub struct RegularDomain {
    pub x0: u16,
    pub x1: u16,
    pub left_corridor: Option<u16>,
    pub right_corridor: Option<u16>,
}

#[derive(Clone, Copy, Debug, PartialEq, Eq, Structural)]
pub enum EventError {
    InvalidDomain,
    InvalidEvent,
    CapacityExceeded,
}

#[derive(Debug)]
pub struct EventPartition<'a> {
    pub sorted_events: &'a [EventInterval],
    pub corridors: &'a [EventCorridor],
    pub regular: &'a [RegularDomain],
}

/// An event is well formed when it is a non-empty span inside the tile.
pub open spec fn event_valid(e: EventInterval, tile_x0: int, tile_x1: int) -> bool {
    e.lo < e.hi && e.lo >= tile_x0 && e.hi <= tile_x1
}

/// Sort key `(lo, hi, generator_id)`, compared lexicographically.
pub open spec fn key_less(a: EventInterval, b: EventInterval) -> bool {
    a.lo < b.lo || (a.lo == b.lo && (a.hi < b.hi || (a.hi == b.hi && a.generator_id
        < b.generator_id)))
}

pub open spec fn same_key(a: EventInterval, b: EventInterval) -> bool {
    a.lo == b.lo && a.hi == b.hi && a.generator_id == b.generator_id
}

/// `output[k] == input[perm[k]]` for an injective `perm`; `output` is ordered
/// by key and events with equal keys keep their input order.
pub open spec fn stable_sort_witness(
    input: Seq<EventInterval>,
    output: Seq<EventInterval>,
    perm: Seq<int>,
) -> bool {
    &&& output.len() == input.len()
    &&& perm.len() == input.len()
    &&& forall|k: int|
        0 <= k < output.len() ==> 0 <= #[trigger] perm[k] < input.len() && output[k]
            == input[perm[k]]
    &&& forall|k: int, l: int|
        #![trigger perm[k], perm[l]]
        0 <= k < l < output.len() ==> perm[k] != perm[l]
    &&& forall|k: int, l: int|
        #![trigger output[k], output[l]]
        0 <= k < l < output.len() ==> !key_less(output[l], output[k])
    &&& forall|k: int, l: int|
        #![trigger output[k], output[l]]
        0 <= k < l < output.len() && same_key(output[k], output[l]) ==> perm[k] < perm[l]
}

pub open spec fn stable_sorted(input: Seq<EventInterval>, output: Seq<EventInterval>) -> bool {
    exists|perm: Seq<int>| stable_sort_witness(input, output, perm)
}

pub open spec fn max_int(a: int, b: int) -> int {
    if a < b {
        b
    } else {
        a
    }
}

/// End of the corridor scan: an event joins while it starts before the running `x1`.
pub open spec fn merge_end(s: Seq<EventInterval>, end: int, x1: int) -> int
    decreases s.len() - end,
{
    if 0 <= end < s.len() && s[end].lo < x1 {
        merge_end(s, end + 1, max_int(x1, s[end].hi as int))
    } else {
        end
    }
}

/// Right end of the corridor reached by the same scan.
pub open spec fn merge_x1(s: Seq<EventInterval>, end: int, x1: int) -> int
    decreases s.len() - end,
{
    if 0 <= end < s.len() && s[end].lo < x1 {
        merge_x1(s, end + 1, max_int(x1, s[end].hi as int))
    } else {
        x1
    }
}

pub proof fn lemma_merge_bounds(s: Seq<EventInterval>, end: int, x1: int)
    requires
        0 <= end <= s.len(),
    ensures
        end <= merge_end(s, end, x1) <= s.len(),
        x1 <= merge_x1(s, end, x1),
        forall|k: int| 0 <= k < s.len() && s[k].hi <= x1 ==> merge_x1(s, end, x1) >= s[k].hi,
        (forall|k: int| 0 <= k < s.len() ==> #[trigger] s[k].hi <= 65535) && x1 <= 65535
            ==> merge_x1(s, end, x1) <= 65535,
    decreases s.len() - end,
{
    if 0 <= end < s.len() && s[end].lo < x1 {
        lemma_merge_bounds(s, end + 1, max_int(x1, s[end].hi as int));
    }
}

/// First event of every corridor, from `start` on.
pub open spec fn corridor_starts(s: Seq<EventInterval>, start: int) -> Seq<int>
    decreases s.len() - start,
{
    if 0 <= start < s.len() {
        proof {
            lemma_merge_bounds(s, start + 1, s[start].hi as int);
        }
        seq![start].add(corridor_starts(s, merge_end(s, start + 1, s[start].hi as int)))
    } else {
        Seq::empty()
    }
}

/// The corridor whose first event is `start`.
pub open spec fn corridor_at(s: Seq<EventInterval>, start: int) -> EventCorridor {
    EventCorridor {
        x0: s[start].lo,
        x1: merge_x1(s, start + 1, s[start].hi as int) as u16,
        first_event: start as u16,
        event_count: (merge_end(s, start + 1, s[start].hi as int) - start) as u16,
    }
}

/// The corridor's first index and event count both fit a `u16`.
pub open spec fn corridor_fits(s: Seq<EventInterval>, start: int) -> bool {
    start <= u16::MAX && merge_end(s, start + 1, s[start].hi as int) - start <= u16::MAX
}

pub open spec fn corridors_of(s: Seq<EventInterval>) -> Seq<EventCorridor> {
    corridor_starts(s, 0).map_values(|start: int| corridor_at(s, start))
}

pub open spec fn left_of(id: int) -> Option<u16> {
    if 1 <= id && id - 1 <= u16::MAX {
        Some((id - 1) as u16)
    } else {
        None
    }
}

pub open spec fn right_of(id: int) -> Option<u16> {
    if 0 <= id <= u16::MAX {
        Some(id as u16)
    } else {
        None
    }
}

/// Regular gaps left by corridors `id..` when the cursor stands at `cursor`.
pub open spec fn regular_from(cs: Seq<EventCorridor>, id: int, cursor: int, tile_x1: int) -> Seq<
    RegularDomain,
>
    decreases cs.len() - id,
{
    if 0 <= id < cs.len() {
        let c = cs[id];
        let rest = regular_from(cs, id + 1, max_int(cursor, c.x1 as int), tile_x1);
        if cursor < c.x0 {
            seq![
                RegularDomain {
                    x0: cursor as u16,
                    x1: c.x0,
                    left_corridor: left_of(id),
                    right_corridor: right_of(id),
                },
            ].add(rest)
        } else {
            rest
        }
    } else if cursor < tile_x1 {
        seq![
            RegularDomain {
                x0: cursor as u16,
                x1: tile_x1 as u16,
                left_corridor: left_of(cs.len() as int),
                right_corridor: None,
            },
        ]
    } else {
        Seq::empty()
    }
}

/// Corridors and regular domains built from the sorted events `s`, or the
/// capacity error when either output is too small or an index leaves `u16`.
pub open spec fn layout(
    tile_x0: int,
    tile_x1: int,
    s: Seq<EventInterval>,
    corridor_capacity: int,
    regular_capacity: int,
) -> Result<(Seq<EventCorridor>, Seq<RegularDomain>), EventError> {
    let starts = corridor_starts(s, 0);
    let cs = corridors_of(s);
    let gaps = regular_from(cs, 0, tile_x0, tile_x1);
    if starts.len() > corridor_capacity || exists|k: int|
        0 <= k < starts.len() && !corridor_fits(s, #[trigger] starts[k]) {
        Err(EventError::CapacityExceeded)
    } else if gaps.len() > regular_capacity {
        Err(EventError::CapacityExceeded)
    } else {
        Ok((cs, gaps))
    }
}

/// The partition agrees with `expected`, an outcome of `layout`.
pub open spec fn partition_matches(
    r: Result<EventPartition, EventError>,
    s: Seq<EventInterval>,
    expected: Result<(Seq<EventCorridor>, Seq<RegularDomain>), EventError>,
) -> bool {
    match (r, expected) {
        (Ok(part), Ok((cs, gaps))) => part.sorted_events@ == s && part.corridors@ == cs
            && part.regular@ == gaps,
        (Err(e), Err(f)) => e == f,
        _ => false,
    }
}

proof fn lemma_starts_ascending(s: Seq<EventInterval>, start: int)
    requires
        0 <= start <= s.len(),
    ensures
        forall|k: int|
            0 <= k < corridor_starts(s, start).len() ==> start <= #[trigger] corridor_starts(
                s,
                start,
            )[k] < s.len(),
    decreases s.len() - start,
{
    if start < s.len() {
        let e = merge_end(s, start + 1, s[start].hi as int);
        lemma_merge_bounds(s, start + 1, s[start].hi as int);
        lemma_starts_ascending(s, e);
        assert forall|k: int|
            0 <= k < corridor_starts(s, start).len() implies start <= #[trigger] corridor_starts(
            s,
            start,
        )[k] < s.len() by {
            if k > 0 {
                assert(corridor_starts(s, start)[k] == corridor_starts(s, e)[k - 1]);
            }
        }
    }
}

/// Stable insertion sort of `scratch[0..n]` by `(lo, hi, generator_id)`.
#[verifier::loop_isolation(false)]
fn sort_events(scratch: &mut [EventInterval], n: usize) -> (perm: Ghost<Seq<int>>)
    requires
        n <= old(scratch)@.len(),
    ensures
        final(scratch)@.len() == old(scratch)@.len(),
        stable_sort_witness(
            old(scratch)@.subrange(0, n as int),
            final(scratch)@.subrange(0, n as int),
            perm@,
        ),
{
    let ghost input = scratch@.subrange(0, n as int);
    let ghost mut perm: Seq<int> = Seq::new(n as nat, |k: int| k);
    let mut index: usize = 0;
    while index < n
        invariant
            index <= n <= scratch@.len(),
            scratch@.len() == old(scratch)@.len(),
            perm.len() == n,
            forall|k: int| 0 <= k < n ==> 0 <= #[trigger] perm[k] < n && scratch@[k] == input[perm[k]],
            forall|k: int| index <= k < n ==> #[trigger] perm[k] == k,
            forall|k: int| 0 <= k < index ==> #[trigger] perm[k] < index,
            forall|k: int, l: int| #![trigger perm[k], perm[l]] 0 <= k < l < n ==> perm[k] != perm[l],
            forall|k: int, l: int|
                #![trigger scratch@[k], scratch@[l]]
                0 <= k < l < index ==> !key_less(scratch@[l], scratch@[k]) && (same_key(
                    scratch@[k],
                    scratch@[l],
                ) ==> perm[k] < perm[l]),
        decreases n - index,
    {
        let value = scratch[index];
        let mut d: usize = index;
        loop
            invariant
                d <= index < n <= scratch@.len(),
                scratch@.len() == old(scratch)@.len(),
                scratch@[d as int] == value,
                perm.len() == n,
                perm[d as int] == index,
                forall|k: int|
                    0 <= k < n ==> 0 <= #[trigger] perm[k] < n && scratch@[k] == input[perm[k]],
                forall|k: int| index < k < n ==> #[trigger] perm[k] == k,
                forall|k: int| 0 <= k <= index && k != d ==> #[trigger] perm[k] < index,
                forall|k: int, l: int|
                    #![trigger perm[k], perm[l]]
                    0 <= k < l < n ==> perm[k] != perm[l],
                forall|k: int, l: int|
                    #![trigger scratch@[k], scratch@[l]]
                    (0 <= k < l < d || d < k < l <= index || (0 <= k < d && d < l <= index))
                        ==> !key_less(scratch@[l], scratch@[k]) && (same_key(
                        scratch@[k],
                        scratch@[l],
                    ) ==> perm[k] < perm[l]),
                forall|k: int| d < k <= index ==> key_less(value, #[trigger] scratch@[k]),
            decreases d,
        {
            if d == 0 {
                break;
            }
            let left = scratch[d - 1];
            let goes_before = value.lo < left.lo || (value.lo == left.lo && (value.hi < left.hi
                || (value.hi == left.hi && value.generator_id < left.generator_id)));
            if !goes_before {
                break;
            }
            let ghost before_swap = scratch@;
            let ghost perm_before = perm;
            scratch[d - 1] = value;
            scratch[d] = left;
            proof {
                perm = perm_before.update(d - 1, perm_before[d as int]).update(
                    d as int,
                    perm_before[d - 1],
                );
                assert forall|k: int, l: int|
                    #![trigger scratch@[k], scratch@[l]]
                    (0 <= k < l < d - 1 || d - 1 < k < l <= index || (0 <= k < d - 1 && d - 1
                        < l <= index)) implies !key_less(scratch@[l], scratch@[k]) && (same_key(
                        scratch@[k],
                        scratch@[l],
                    ) ==> perm[k] < perm[l]) by {
                    let ok = if k == d { d - 1 } else { k };
                    let ol = if l == d { d - 1 } else { l };
                    assert(scratch@[k] == before_swap[ok]);
                    assert(scratch@[l] == before_swap[ol]);
                    assert(perm[k] == perm_before[ok]);
                    assert(perm[l] == perm_before[ol]);
                }
                assert forall|k: int| d - 1 < k <= index implies key_less(
                    value,
                    #[trigger] scratch@[k],
                ) by {
                    if k != d {
                        assert(scratch@[k] == before_swap[k]);
                    }
                }
                assert forall|k: int, l: int|
                    #![trigger perm[k], perm[l]]
                    0 <= k < l < n implies perm[k] != perm[l] by {
                    let ok = if k == d { d - 1 } else if k == d - 1 { d as int } else { k };
                    let ol = if l == d { d - 1 } else if l == d - 1 { d as int } else { l };
                    if ok < ol {
                        assert(perm_before[ok] != perm_before[ol]);
                    } else {
                        assert(perm_before[ol] != perm_before[ok]);
                    }
                }
            }
            d = d - 1;
        }
        proof {
            assert forall|k: int, l: int|
                #![trigger scratch@[k], scratch@[l]]
                0 <= k < l < index + 1 implies !key_less(scratch@[l], scratch@[k]) && (same_key(
                    scratch@[k],
                    scratch@[l],
                ) ==> perm[k] < perm[l]) by {
                if l == d && d > 0 && k < d - 1 {
                    assert(!key_less(scratch@[d - 1], scratch@[k]));
                }
            }
        }
        index = index + 1;
    }
    proof {
        assert(stable_sort_witness(input, scratch@.subrange(0, n as int), perm));
    }
    Ghost(perm)
}

/// Copies and sorts the row's events, merges overlapping ones into closed
/// corridors, and covers the rest of `[tile_x0, tile_x1)` with regular domains.
#[verifier::loop_isolation(false)]
#[verifier::rlimit(40)]
pub fn partition_row_events<'a>(
    tile_x0: u16,
    tile_x1: u16,
    events: &[EventInterval],
    event_scratch: &'a mut [EventInterval],
    corridor_output: &'a mut [EventCorridor],
    regular_output: &'a mut [RegularDomain],
) -> (r: Result<EventPartition<'a>, EventError>)
    ensures
        tile_x0 >= tile_x1 ==> r == Err::<EventPartition, EventError>(EventError::InvalidDomain),
        tile_x0 < tile_x1 && events@.len() > old(event_scratch)@.len() ==> r == Err::<
            EventPartition,
            EventError,
        >(EventError::CapacityExceeded),
        tile_x0 < tile_x1 && events@.len() <= old(event_scratch)@.len() && (exists|k: int|
            0 <= k < events@.len() && !event_valid(#[trigger] events@[k], tile_x0 as int, tile_x1 as int))
            ==> r == Err::<EventPartition, EventError>(EventError::InvalidEvent),
        tile_x0 < tile_x1 && events@.len() <= old(event_scratch)@.len() && (forall|k: int|
            0 <= k < events@.len() ==> event_valid(#[trigger] events@[k], tile_x0 as int, tile_x1 as int))
            ==> exists|s: Seq<EventInterval>|
            stable_sorted(events@, s) && partition_matches(
                r,
                s,
                layout(
                    tile_x0 as int,
                    tile_x1 as int,
                    s,
                    old(corridor_output)@.len() as int,
                    old(regular_output)@.len() as int,
                ),
            ),
{
    if tile_x0 >= tile_x1 || events.len() > event_scratch.len() {
        return Err(
            if tile_x0 >= tile_x1 {
                EventError::InvalidDomain
            } else {
                EventError::CapacityExceeded
            },
        );
    }
    let n = events.len();
    let mut i: usize = 0;
    while i < n
        invariant
            i <= n <= event_scratch@.len(),
            event_scratch@.len() == old(event_scratch)@.len(),
            forall|k: int| 0 <= k < i ==> #[trigger] event_scratch@[k] == events@[k],
        decreases n - i,
    {
        event_scratch[i] = events[i];
        i = i + 1;
    }
    assert(event_scratch@.subrange(0, n as int) =~= events@);
    let mut i: usize = 0;
    while i < n
        invariant
            i <= n,
            forall|k: int|
                0 <= k < i ==> event_valid(#[trigger] events@[k], tile_x0 as int, tile_x1 as int),
        decreases n - i,
    {
        let event = event_scratch[i];
        if event.lo >= event.hi || event.lo < tile_x0 || event.hi > tile_x1 {
            assert(!event_valid(events@[i as int], tile_x0 as int, tile_x1 as int));
            return Err(EventError::InvalidEvent);
        }
        i = i + 1;
    }
    let perm = sort_events(event_scratch, n);
    let ghost s = event_scratch@.subrange(0, n as int);
    proof {
        assert(stable_sorted(events@, s));
        assert forall|k: int| 0 <= k < s.len() implies #[trigger] s[k].hi <= tile_x1 && s[k].lo
            < s[k].hi && s[k].lo >= tile_x0 by {
            assert(s[k] == events@[perm@[k]]);
            assert(event_valid(events@[perm@[k]], tile_x0 as int, tile_x1 as int));
        }
    }
    let ghost total_starts = corridor_starts(s, 0);
    let ghost total = corridors_of(s);
    proof {
        lemma_starts_ascending(s, 0);
    }
    let mut corridor_count: usize = 0;
    let mut event_start: usize = 0;
    while event_start < n
        invariant
            event_start <= n == s.len(),
            corridor_count <= corridor_output@.len(),
            corridor_output@.len() == old(corridor_output)@.len(),
            event_scratch@.subrange(0, n as int) == s,
            corridor_count as int + corridor_starts(s, event_start as int).len()
                == total_starts.len(),
            forall|k: int|
                0 <= k < corridor_starts(s, event_start as int).len() ==> #[trigger] corridor_starts(
                    s,
                    event_start as int,
                )[k] == total_starts[corridor_count + k],
            forall|k: int|
                #![trigger corridor_output@[k]]
                0 <= k < corridor_count ==> corridor_output@[k] == corridor_at(s, total_starts[k])
                    && corridor_fits(s, total_starts[k]),
        decreases n - event_start,
    {
        proof {
            lemma_merge_bounds(s, event_start + 1, s[event_start as int].hi as int);
            assert(corridor_starts(s, event_start as int)[0] == event_start);
        }
        if corridor_count == corridor_output.len() {
            proof {
                assert(total_starts.len() > old(corridor_output)@.len());
                assert(layout(
                    tile_x0 as int,
                    tile_x1 as int,
                    s,
                    old(corridor_output)@.len() as int,
                    old(regular_output)@.len() as int,
                ) == Err::<(Seq<EventCorridor>, Seq<RegularDomain>), EventError>(
                    EventError::CapacityExceeded,
                ));
            }
            return Err(EventError::CapacityExceeded);
        }
        let mut event_end: usize = event_start + 1;
        let x0 = event_scratch[event_start].lo;
        let mut x1 = event_scratch[event_start].hi;
        while event_end < n && event_scratch[event_end].lo < x1
            invariant
                event_start < event_end <= n,
                merge_end(s, event_end as int, x1 as int) == merge_end(
                    s,
                    event_start + 1,
                    s[event_start as int].hi as int,
                ),
                merge_x1(s, event_end as int, x1 as int) == merge_x1(
                    s,
                    event_start + 1,
                    s[event_start as int].hi as int,
                ),
            decreases n - event_end,
        {
            if event_scratch[event_end].hi > x1 {
                x1 = event_scratch[event_end].hi;
            }
            event_end = event_end + 1;
        }
        proof {
            assert(merge_end(s, event_end as int, x1 as int) == event_end);
            assert(merge_x1(s, event_end as int, x1 as int) == x1);
            assert(total_starts[corridor_count as int] == event_start);
        }
        if event_start > 65535 || event_end - event_start > 65535 {
            proof {
                assert(!corridor_fits(s, total_starts[corridor_count as int]));
                assert(layout(
                    tile_x0 as int,
                    tile_x1 as int,
                    s,
                    old(corridor_output)@.len() as int,
                    old(regular_output)@.len() as int,
                ) == Err::<(Seq<EventCorridor>, Seq<RegularDomain>), EventError>(
                    EventError::CapacityExceeded,
                ));
            }
            return Err(EventError::CapacityExceeded);
        }
        let ghost before_write = corridor_output@;
        corridor_output[corridor_count] = EventCorridor {
            x0,
            x1,
            first_event: event_start as u16,
            event_count: (event_end - event_start) as u16,
        };
        proof {
            assert(corridor_starts(s, event_start as int) == seq![event_start as int].add(
                corridor_starts(s, event_end as int),
            ));
            assert forall|k: int|
                0 <= k < corridor_starts(s, event_end as int).len() implies #[trigger] corridor_starts(
                s,
                event_end as int,
            )[k] == total_starts[corridor_count + 1 + k] by {
                assert(corridor_starts(s, event_start as int)[k + 1] == corridor_starts(
                    s,
                    event_end as int,
                )[k]);
            }
        }
        assert(corridor_output@[corridor_count as int] == corridor_at(s, event_start as int));
        assert(corridor_fits(s, event_start as int));
        corridor_count = corridor_count + 1;
        assert forall|k: int|
            #![trigger corridor_output@[k]]
            0 <= k < corridor_count implies corridor_output@[k] == corridor_at(s, total_starts[k])
                && corridor_fits(s, total_starts[k]) by {
            if k < corridor_count - 1 {
                assert(corridor_output@[k] == before_write[k]);
            }
        }
        event_start = event_end;
    }
    proof {
        assert(corridor_count == total_starts.len());
        assert(corridor_output@.subrange(0, corridor_count as int) =~= total);
        assert forall|k: int| 0 <= k < total_starts.len() implies corridor_fits(
            s,
            #[trigger] total_starts[k],
        ) by {
            assert(corridor_output@[k] == corridor_at(s, total_starts[k]));
        }
        assert(!(exists|k: int|
            0 <= k < total_starts.len() && !corridor_fits(s, #[trigger] total_starts[k])));
    }
    let ghost total_gaps = regular_from(total, 0, tile_x0 as int, tile_x1 as int);
    let mut regular_count: usize = 0;
    let mut cursor: u16 = tile_x0;
    let mut corridor_id: usize = 0;
    while corridor_id < corridor_count
        invariant
            corridor_id <= corridor_count == total.len(),
            corridor_count <= corridor_output@.len(),
            corridor_output@.subrange(0, corridor_count as int) == total,
            regular_count <= regular_output@.len(),
            regular_output@.len() == old(regular_output)@.len(),
            tile_x0 <= cursor,
            corridor_id == 0 ==> cursor == tile_x0,
            regular_count as int + regular_from(total, corridor_id as int, cursor as int, tile_x1 as int).len()
                == total_gaps.len(),
            forall|k: int|
                0 <= k < regular_from(total, corridor_id as int, cursor as int, tile_x1 as int).len()
                    ==> #[trigger] regular_from(total, corridor_id as int, cursor as int, tile_x1 as int)[k]
                    == total_gaps[regular_count + k],
            forall|k: int| 0 <= k < regular_count ==> #[trigger] regular_output@[k] == total_gaps[k],
        decreases corridor_count - corridor_id,
    {
        let corridor = corridor_output[corridor_id];
        assert(corridor == total[corridor_id as int]);
        let ghost rest = regular_from(
            total,
            corridor_id + 1,
            max_int(cursor as int, corridor.x1 as int),
            tile_x1 as int,
        );
        if cursor < corridor.x0 {
            if regular_count == regular_output.len() {
                return Err(EventError::CapacityExceeded);
            }
            let left_corridor = if corridor_id >= 1 && corridor_id - 1 <= 65535 {
                Some((corridor_id - 1) as u16)
            } else {
                None
            };
            let right_corridor = if corridor_id <= 65535 {
                Some(corridor_id as u16)
            } else {
                None
            };
            let ghost before_write = regular_output@;
            regular_output[regular_count] = RegularDomain {
                x0: cursor,
                x1: corridor.x0,
                left_corridor,
                right_corridor,
            };
            proof {
                assert forall|k: int| 0 <= k < regular_count + 1 implies #[trigger] regular_output@[k]
                    == total_gaps[k] by {
                    if k < regular_count {
                        assert(regular_output@[k] == before_write[k]);
                    } else {
                        assert(regular_from(total, corridor_id as int, cursor as int, tile_x1 as int)[0]
                            == total_gaps[regular_count as int]);
                    }
                }
                assert forall|k: int| 0 <= k < rest.len() implies #[trigger] rest[k]
                    == total_gaps[regular_count + 1 + k] by {
                    assert(regular_from(total, corridor_id as int, cursor as int, tile_x1 as int)[k
                        + 1] == rest[k]);
                }
            }
            regular_count = regular_count + 1;
        }
        if corridor.x1 > cursor {
            cursor = corridor.x1;
        }
        corridor_id = corridor_id + 1;
    }
    if cursor < tile_x1 {
        if regular_count == regular_output.len() {
            return Err(EventError::CapacityExceeded);
        }
        let left_corridor = if corridor_count >= 1 && corridor_count - 1 <= 65535 {
            Some((corridor_count - 1) as u16)
        } else {
            None
        };
        let ghost before_write = regular_output@;
        regular_output[regular_count] = RegularDomain {
            x0: cursor,
            x1: tile_x1,
            left_corridor,
            right_corridor: None,
        };
        proof {
            assert(regular_from(total, corridor_id as int, cursor as int, tile_x1 as int)[0]
                == total_gaps[regular_count as int]);
            assert forall|k: int| 0 <= k < regular_count + 1 implies #[trigger] regular_output@[k]
                == total_gaps[k] by {
                if k < regular_count {
                    assert(regular_output@[k] == before_write[k]);
                }
            }
        }
        regular_count = regular_count + 1;
    }
    if corridor_count == 0 && regular_count == 0 {
        if regular_output.len() == 0 {
            return Err(EventError::CapacityExceeded);
        }
        regular_output[0] = RegularDomain {
            x0: tile_x0,
            x1: tile_x1,
            left_corridor: None,
            right_corridor: None,
        };
        regular_count = 1;
    }
    proof {
        assert(regular_output@.subrange(0, regular_count as int) =~= total_gaps);
    }
    let sorted_events: &[EventInterval] = &event_scratch[0..n];
    let corridors: &[EventCorridor] = &corridor_output[0..corridor_count];
    let regular: &[RegularDomain] = &regular_output[0..regular_count];
    Ok(EventPartition { sorted_events, corridors, regular })
}

/// Column `x` lies in one of the corridors `id..` or in one of `gaps`.
pub open spec fn column_covered_from(
    cs: Seq<EventCorridor>,
    id: int,
    gaps: Seq<RegularDomain>,
    x: int,
) -> bool {
    ||| exists|i: int| id <= i < cs.len() && cs[i].x0 <= x < #[trigger] cs[i].x1
    ||| exists|j: int| 0 <= j < gaps.len() && gaps[j].x0 <= x < #[trigger] gaps[j].x1
}

/// Column `x` lies in some corridor or some regular domain.
pub open spec fn column_covered(cs: Seq<EventCorridor>, gaps: Seq<RegularDomain>, x: int) -> bool {
    column_covered_from(cs, 0, gaps, x)
}

/// Corridors are non-empty, inside `[lo, hi]`, and each ends no later than
/// any later one begins.
pub open spec fn corridors_ordered(cs: Seq<EventCorridor>, lo: int, hi: int) -> bool {
    &&& forall|i: int| 0 <= i < cs.len() ==> lo <= (#[trigger] cs[i]).x0 < cs[i].x1 <= hi
    &&& forall|i: int, k: int|
        #![trigger cs[i], cs[k]]
        0 <= i < k < cs.len() ==> cs[i].x1 <= cs[k].x0
}

proof fn lemma_merge_stop(s: Seq<EventInterval>, end: int, x1: int)
    requires
        0 <= end <= s.len(),
    ensures
        merge_end(s, end, x1) < s.len() ==> s[merge_end(s, end, x1)].lo >= merge_x1(s, end, x1),
    decreases s.len() - end,
{
    if 0 <= end < s.len() && s[end].lo < x1 {
        lemma_merge_stop(s, end + 1, max_int(x1, s[end].hi as int));
    }
}

proof fn lemma_merge_within(s: Seq<EventInterval>, end: int, x1: int, limit: int)
    requires
        0 <= end <= s.len(),
        x1 <= limit,
        forall|k: int| 0 <= k < s.len() ==> #[trigger] s[k].hi <= limit,
    ensures
        merge_x1(s, end, x1) <= limit,
    decreases s.len() - end,
{
    if 0 <= end < s.len() && s[end].lo < x1 {
        lemma_merge_within(s, end + 1, max_int(x1, s[end].hi as int), limit);
    }
}

proof fn lemma_starts_adjacent(s: Seq<EventInterval>, start: int)
    requires
        0 <= start <= s.len(),
    ensures
        forall|k: int|
            0 <= k < corridor_starts(s, start).len() - 1 ==> #[trigger] corridor_starts(s, start)[k
                + 1] == merge_end(
                s,
                corridor_starts(s, start)[k] + 1,
                s[corridor_starts(s, start)[k]].hi as int,
            ),
    decreases s.len() - start,
{
    if start < s.len() {
        let e = merge_end(s, start + 1, s[start].hi as int);
        lemma_merge_bounds(s, start + 1, s[start].hi as int);
        lemma_starts_adjacent(s, e);
        let st = corridor_starts(s, start);
        let rest = corridor_starts(s, e);
        assert(st == seq![start].add(rest));
        assert forall|k: int| 0 <= k < st.len() - 1 implies #[trigger] st[k + 1] == merge_end(
            s,
            st[k] + 1,
            s[st[k]].hi as int,
        ) by {
            if k == 0 {
                assert(rest == seq![e].add(
                    corridor_starts(s, merge_end(s, e + 1, s[e].hi as int)),
                ));
                assert(st[1] == e);
            } else {
                assert(st[k] == rest[k - 1]);
                assert(st[k + 1] == rest[k]);
                assert(rest[(k - 1) + 1] == merge_end(
                    s,
                    rest[k - 1] + 1,
                    s[rest[k - 1]].hi as int,
                ));
            }
        }
    }
}

proof fn lemma_corridors_ordered(s: Seq<EventInterval>, tile_x0: int, tile_x1: int)
    requires
        tile_x1 <= 65535,
        forall|k: int|
            0 <= k < s.len() ==> tile_x0 <= (#[trigger] s[k]).lo < s[k].hi <= tile_x1,
    ensures
        corridors_ordered(corridors_of(s), tile_x0, tile_x1),
{
    let starts = corridor_starts(s, 0);
    let cs = corridors_of(s);
    lemma_starts_ascending(s, 0);
    lemma_starts_adjacent(s, 0);
    assert forall|i: int| 0 <= i < cs.len() implies tile_x0 <= (#[trigger] cs[i]).x0 < cs[i].x1
        <= tile_x1 && (i + 1 < cs.len() ==> cs[i].x1 <= cs[i + 1].x0) by {
        let st = starts[i];
        lemma_merge_bounds(s, st + 1, s[st].hi as int);
        lemma_merge_within(s, st + 1, s[st].hi as int, tile_x1);
        lemma_merge_stop(s, st + 1, s[st].hi as int);
        assert(cs[i] == corridor_at(s, st));
        if i + 1 < cs.len() {
            assert(starts[i + 1] == merge_end(s, st + 1, s[st].hi as int));
            assert(cs[i + 1] == corridor_at(s, starts[i + 1]));
        }
    }
    assert forall|i: int, k: int| #![trigger cs[i], cs[k]] 0 <= i < k < cs.len() implies cs[i].x1
        <= cs[k].x0 by {
        lemma_chain_reaches(cs, tile_x0, tile_x1, i, k);
    }
}

proof fn lemma_chain_reaches(cs: Seq<EventCorridor>, lo: int, hi: int, i: int, k: int)
    requires
        forall|j: int|
            0 <= j < cs.len() ==> lo <= (#[trigger] cs[j]).x0 < cs[j].x1 <= hi && (j + 1
                < cs.len() ==> cs[j].x1 <= cs[j + 1].x0),
        0 <= i < k < cs.len(),
    ensures
        cs[i].x1 <= cs[k].x0,
    decreases k - i,
{
    if k > i + 1 {
        lemma_chain_reaches(cs, lo, hi, i, k - 1);
        assert(cs[k - 1].x1 <= cs[k].x0);
    }
}

proof fn lemma_gaps(cs: Seq<EventCorridor>, id: int, cursor: int, tile_x1: int)
    requires
        corridors_ordered(cs, 0, tile_x1),
        0 <= id <= cs.len(),
        0 <= cursor <= tile_x1 <= 65535,
        id < cs.len() ==> cursor <= cs[id].x0,
    ensures
        ({
            let g = regular_from(cs, id, cursor, tile_x1);
            &&& forall|j: int| 0 <= j < g.len() ==> cursor <= (#[trigger] g[j]).x0 < g[j].x1 <= tile_x1
            &&& forall|j: int, l: int|
                #![trigger g[j], g[l]]
                0 <= j < l < g.len() ==> g[j].x1 <= g[l].x0
            &&& forall|j: int, i: int|
                #![trigger g[j], cs[i]]
                0 <= j < g.len() && id <= i < cs.len() ==> g[j].x1 <= cs[i].x0 || cs[i].x1
                    <= g[j].x0
            &&& forall|x: int| cursor <= x < tile_x1 ==> #[trigger] column_covered_from(cs, id, g, x)
        }),
    decreases cs.len() - id,
{
    let g = regular_from(cs, id, cursor, tile_x1);
    if id < cs.len() {
        let c = cs[id];
        let next = max_int(cursor, c.x1 as int);
        assert(next == c.x1);
        if id + 1 < cs.len() {
            assert(c.x1 <= cs[id + 1].x0);
        }
        lemma_gaps(cs, id + 1, next, tile_x1);
        let rest = regular_from(cs, id + 1, next, tile_x1);
        if cursor < c.x0 {
            let gap = RegularDomain {
                x0: cursor as u16,
                x1: c.x0,
                left_corridor: left_of(id),
                right_corridor: right_of(id),
            };
            assert(g == seq![gap].add(rest));
            assert forall|j: int| 0 <= j < g.len() implies cursor <= (#[trigger] g[j]).x0 < g[j].x1
                <= tile_x1 by {
                if j > 0 {
                    assert(g[j] == rest[j - 1]);
                }
            }
            assert forall|j: int, l: int| #![trigger g[j], g[l]] 0 <= j < l < g.len() implies g[j].x1
                <= g[l].x0 by {
                assert(g[l] == rest[l - 1]);
                if j > 0 {
                    assert(g[j] == rest[j - 1]);
                }
            }
            assert forall|j: int, i: int|
                #![trigger g[j], cs[i]]
                0 <= j < g.len() && id <= i < cs.len() implies g[j].x1 <= cs[i].x0 || cs[i].x1
                <= g[j].x0 by {
                if j > 0 {
                    assert(g[j] == rest[j - 1]);
                    if i == id {
                        assert(rest[j - 1].x0 >= next);
                    }
                } else if i > id {
                    assert(cs[id].x1 <= cs[i].x0);
                }
            }
            assert forall|x: int| cursor <= x < tile_x1 implies #[trigger] column_covered_from(
                cs,
                id,
                g,
                x,
            ) by {
                if x < c.x0 {
                    assert(g[0] == gap);
                } else if x < c.x1 {
                    assert(cs[id].x0 <= x < cs[id].x1);
                } else {
                    assert(column_covered_from(cs, id + 1, rest, x));
                    if exists|j: int| 0 <= j < rest.len() && rest[j].x0 <= x < #[trigger] rest[j].x1 {
                        let j = choose|j: int| 0 <= j < rest.len() && rest[j].x0 <= x < #[trigger] rest[j].x1;
                        assert(g[j + 1] == rest[j]);
                    }
                }
            }
        } else {
            assert(g == rest);
            assert forall|j: int, i: int|
                #![trigger g[j], cs[i]]
                0 <= j < g.len() && id <= i < cs.len() implies g[j].x1 <= cs[i].x0 || cs[i].x1
                <= g[j].x0 by {
                if i == id {
                    assert(rest[j].x0 >= next);
                }
            }
            assert forall|x: int| cursor <= x < tile_x1 implies #[trigger] column_covered_from(
                cs,
                id,
                g,
                x,
            ) by {
                if x < c.x1 {
                    assert(cs[id].x0 <= x < cs[id].x1);
                } else {
                    assert(column_covered_from(cs, id + 1, rest, x));
                }
            }
        }
    } else if cursor < tile_x1 {
        let gap = RegularDomain {
            x0: cursor as u16,
            x1: tile_x1 as u16,
            left_corridor: left_of(cs.len() as int),
            right_corridor: None,
        };
        assert(g == seq![gap]);
        assert forall|x: int| cursor <= x < tile_x1 implies #[trigger] column_covered_from(
            cs,
            id,
            g,
            x,
        ) by {
            assert(g[0] == gap);
            assert(g[0].x0 <= x < g[0].x1);
        }
    }
}

/// The corridors and regular domains of a row partition its tile: each is
/// a non-empty half-open span inside `[tile_x0, tile_x1)`, corridors and
/// regular domains each come in left-to-right order without overlapping,
/// no corridor overlaps a regular domain, and every column of the tile
/// lies in one of them.
pub proof fn partition_tiles_the_row(
    tile_x0: u16,
    tile_x1: u16,
    events: Seq<EventInterval>,
    s: Seq<EventInterval>,
    corridor_capacity: int,
    regular_capacity: int,
)
    requires
        tile_x0 < tile_x1,
        forall|k: int|
            0 <= k < events.len() ==> event_valid(#[trigger] events[k], tile_x0 as int, tile_x1 as int),
        stable_sorted(events, s),
    ensures
        layout(tile_x0 as int, tile_x1 as int, s, corridor_capacity, regular_capacity) matches Ok(
            (cs, gaps),
        ) ==> {
            &&& corridors_ordered(cs, tile_x0 as int, tile_x1 as int)
            &&& forall|j: int|
                0 <= j < gaps.len() ==> tile_x0 <= (#[trigger] gaps[j]).x0 < gaps[j].x1 <= tile_x1
            &&& forall|j: int, l: int|
                #![trigger gaps[j], gaps[l]]
                0 <= j < l < gaps.len() ==> gaps[j].x1 <= gaps[l].x0
            &&& forall|j: int, i: int|
                #![trigger gaps[j], cs[i]]
                0 <= j < gaps.len() && 0 <= i < cs.len() ==> gaps[j].x1 <= cs[i].x0 || cs[i].x1
                    <= gaps[j].x0
            &&& forall|x: int|
                tile_x0 <= x < tile_x1 ==> #[trigger] column_covered(cs, gaps, x)
        },
{
    let perm = choose|perm: Seq<int>| stable_sort_witness(events, s, perm);
    assert forall|k: int| 0 <= k < s.len() implies tile_x0 <= (#[trigger] s[k]).lo < s[k].hi
        <= tile_x1 by {
        assert(s[k] == events[perm[k]]);
        assert(event_valid(events[perm[k]], tile_x0 as int, tile_x1 as int));
    }
    lemma_corridors_ordered(s, tile_x0 as int, tile_x1 as int);
    let cs = corridors_of(s);
    lemma_gaps(cs, 0, tile_x0 as int, tile_x1 as int);
}

} // verus!
