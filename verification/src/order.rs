//! Deterministic q-order predicates for small active root lists.
use vstd::prelude::*;
use crate::iv32::{Iv32, NumericError};

verus! {

pub const MAX_ORDERED_ROOTS: usize = 64;

#[derive(Clone, Copy, Debug, PartialEq, Eq, Structural)]
pub enum OrderRelation {
    Nearer,
    Farther,
    Corridor,
}

#[derive(Clone, Copy, Debug, PartialEq, Eq, Structural)]
pub struct OrderedRoot {
    pub q: Iv32,
    pub feature_id: u32,
    pub orientation: i8,
}

/// `a` is strictly nearer when its whole interval lies above `b`, strictly
/// farther when the reverse holds, and a corridor when the two touch.
pub open spec fn relation(a: Iv32, b: Iv32) -> OrderRelation {
    if a.lo > b.hi {
        OrderRelation::Nearer
    } else if b.lo > a.hi {
        OrderRelation::Farther
    } else {
        OrderRelation::Corridor
    }
}

pub fn compare(a: Iv32, b: Iv32) -> (r: OrderRelation)
    ensures
        r == relation(a, b),
{
    if a.lo > b.hi {
        OrderRelation::Nearer
    } else if b.lo > a.hi {
        OrderRelation::Farther
    } else {
        OrderRelation::Corridor
    }
}

/// Relation between the roots at `i` and `i + 1`.
pub open spec fn pair_relation(s: Seq<OrderedRoot>, i: int) -> OrderRelation {
    relation(s[i].q, s[i + 1].q)
}

/// Separation between the roots at `i` and `i + 1`.
pub open spec fn gap(s: Seq<OrderedRoot>, i: int) -> int {
    s[i].q.lo - s[i + 1].q.hi
}

pub open spec fn adjacent_nearer(s: Seq<OrderedRoot>) -> bool {
    forall|i: int| 0 <= i < s.len() - 1 ==> #[trigger] pair_relation(s, i) == OrderRelation::Nearer
}

/// `v` is the least adjacent gap, capped at `i32::MAX`.
pub open spec fn is_min_gap(s: Seq<OrderedRoot>, v: int) -> bool {
    &&& forall|i: int| 0 <= i < s.len() - 1 ==> v <= #[trigger] gap(s, i)
    &&& (v == i32::MAX || exists|i: int| 0 <= i < s.len() - 1 && v == #[trigger] gap(s, i))
}

/// Every earlier root is strictly nearer than every later one.
pub open spec fn all_pairs_nearer(s: Seq<OrderedRoot>) -> bool {
    forall|i: int, j: int|
        #![trigger s[i], s[j]]
        0 <= i < j < s.len() ==> relation(s[i].q, s[j].q) == OrderRelation::Nearer
}

pub fn adjacent_slack(roots: &[OrderedRoot]) -> (r: Result<i32, NumericError>)
    ensures
        roots@.len() > MAX_ORDERED_ROOTS ==> r == Err::<i32, NumericError>(
            NumericError::CapacityExceeded,
        ),
        roots@.len() <= MAX_ORDERED_ROOTS && roots@.len() < 2 ==> r == Ok::<i32, NumericError>(
            i32::MAX,
        ),
        roots@.len() <= MAX_ORDERED_ROOTS && roots@.len() >= 2 && !adjacent_nearer(roots@) ==> r
            == Ok::<i32, NumericError>(0),
        roots@.len() <= MAX_ORDERED_ROOTS && roots@.len() >= 2 && adjacent_nearer(roots@) ==> (
        r matches Ok(v) && v > 0 && is_min_gap(roots@, v as int)),
{
    if roots.len() > MAX_ORDERED_ROOTS {
        return Err(NumericError::CapacityExceeded);
    }
    if roots.len() < 2 {
        return Ok(i32::MAX);
    }
    let mut minimum: i64 = i32::MAX as i64;
    let mut i: usize = 0;
    while i + 1 < roots.len()
        invariant
            2 <= roots@.len() <= MAX_ORDERED_ROOTS,
            i + 1 <= roots@.len(),
            1 <= minimum <= i32::MAX,
            forall|k: int| 0 <= k < i ==> #[trigger] pair_relation(roots@, k)
                == OrderRelation::Nearer,
            forall|k: int| 0 <= k < i ==> minimum <= #[trigger] gap(roots@, k),
            minimum == i32::MAX || exists|k: int| 0 <= k < i && minimum == #[trigger] gap(
                roots@,
                k,
            ),
        decreases roots@.len() - i,
    {
        if compare(roots[i].q, roots[i + 1].q) != OrderRelation::Nearer {
            assert(pair_relation(roots@, i as int) != OrderRelation::Nearer);
            return Ok(0);
        }
        let g: i64 = roots[i].q.lo as i64 - roots[i + 1].q.hi as i64;
        assert(g == gap(roots@, i as int));
        if g < minimum {
            minimum = g;
        }
        i = i + 1;
    }
    Ok(minimum as i32)
}

/// Storage key for the near-to-far pass: larger `hi`, then larger `lo`, then
/// smaller feature id, then smaller orientation come first.
pub open spec fn endpoint_precedes(a: OrderedRoot, b: OrderedRoot) -> bool {
    a.q.hi > b.q.hi || (a.q.hi == b.q.hi && (a.q.lo > b.q.lo || (a.q.lo == b.q.lo && (
    a.feature_id < b.feature_id || (a.feature_id == b.feature_id && a.orientation
        < b.orientation)))))
}

/// Storage key inside one overlap component: smaller feature id, then smaller
/// orientation, then larger `lo`, then larger `hi` come first.
pub open spec fn feature_precedes(a: OrderedRoot, b: OrderedRoot) -> bool {
    a.feature_id < b.feature_id || (a.feature_id == b.feature_id && (a.orientation
        < b.orientation || (a.orientation == b.orientation && (a.q.lo > b.q.lo || (a.q.lo
        == b.q.lo && a.q.hi > b.q.hi)))))
}

pub open spec fn precedes(by_feature: bool, a: OrderedRoot, b: OrderedRoot) -> bool {
    if by_feature {
        feature_precedes(a, b)
    } else {
        endpoint_precedes(a, b)
    }
}

/// Positions `lo..hi` of `s` are in the order chosen by `by_feature`.
pub open spec fn sorted_between(by_feature: bool, s: Seq<OrderedRoot>, lo: int, hi: int) -> bool {
    forall|i: int, j: int|
        #![trigger s[i], s[j]]
        lo <= i < j < hi ==> precedes(by_feature, s[i], s[j]) || s[i] == s[j]
}

/// End of the running-overlap scan that starts at `end` with running minimum `min_lo`.
pub open spec fn scan_end(p: Seq<OrderedRoot>, end: int, min_lo: int) -> int
    decreases p.len() - end,
{
    if 0 <= end < p.len() && p[end].q.hi >= min_lo {
        scan_end(p, end + 1, if p[end].q.lo < min_lo { p[end].q.lo as int } else { min_lo })
    } else {
        end
    }
}

/// End of the overlap component that starts at `start`: a later root joins
/// while its `hi` reaches the least `lo` seen so far in the component.
pub open spec fn component_end(p: Seq<OrderedRoot>, start: int) -> int {
    scan_end(p, start + 1, p[start].q.lo as int)
}

/// Block `t` of `f`, delimited by `b`, is the feature-ordered permutation of the
/// matching overlap component of `p`.
pub open spec fn block_settled(
    p: Seq<OrderedRoot>,
    f: Seq<OrderedRoot>,
    b: Seq<int>,
    t: int,
) -> bool {
    &&& b[t] < b[t + 1]
    &&& b[t + 1] == component_end(p, b[t])
    &&& f.subrange(b[t], b[t + 1]).to_multiset() == p.subrange(b[t], b[t + 1]).to_multiset()
    &&& sorted_between(true, f, b[t], b[t + 1])
}

/// `output` is what sorting `input` gives: `p` is the near-to-far permutation of
/// the input, `b` the chain of its overlap components, and each component is
/// reordered by feature key in place.
pub open spec fn settled_by(
    input: Seq<OrderedRoot>,
    output: Seq<OrderedRoot>,
    p: Seq<OrderedRoot>,
    b: Seq<int>,
) -> bool {
    &&& p.to_multiset() == input.to_multiset()
    &&& sorted_between(false, p, 0, p.len() as int)
    &&& output.len() == p.len()
    &&& b.len() >= 1
    &&& b[0] == 0
    &&& b.last() == p.len()
    &&& forall|t: int| 0 <= t < b.len() - 1 ==> #[trigger] block_settled(p, output, b, t)
}

/// Two roots overlap when their closed intervals share a point.
pub open spec fn overlaps(a: OrderedRoot, b: OrderedRoot) -> bool {
    a.q.lo <= b.q.hi && b.q.lo <= a.q.hi
}

/// Every root's interval is ordered.
pub open spec fn roots_valid(s: Seq<OrderedRoot>) -> bool {
    forall|k: int| 0 <= k < s.len() ==> (#[trigger] s[k]).q.lo <= s[k].q.hi
}

/// Every root of a block lies strictly above every root of the later blocks,
/// so no overlap joins two blocks.
pub open spec fn blocks_separated(p: Seq<OrderedRoot>, b: Seq<int>) -> bool {
    forall|t: int, i: int, j: int|
        #![trigger b[t], p[i], p[j]]
        0 <= t < b.len() - 1 && b[t] <= i < b[t + 1] <= j < p.len() ==> p[i].q.lo > p[j].q.hi
}

/// The root at `c` overlaps some root at a position from `start` up to `c`.
pub open spec fn linked_back(p: Seq<OrderedRoot>, start: int, c: int) -> bool {
    exists|i: int| start <= i < c && #[trigger] overlaps(p[i], p[c])
}

/// Inside each block every root after the first overlaps an earlier one, so
/// each block is connected by overlaps.
pub open spec fn blocks_chained(p: Seq<OrderedRoot>, b: Seq<int>) -> bool {
    forall|t: int, c: int|
        0 <= t < b.len() - 1 && b[t] < c < b[t + 1] ==> #[trigger] linked_back(p, b[t], c)
}

/// Roots drawn from valid roots are valid.
proof fn lemma_valid_permutation(input: Seq<OrderedRoot>, p: Seq<OrderedRoot>)
    requires
        p.to_multiset() == input.to_multiset(),
        roots_valid(input),
    ensures
        roots_valid(p),
{
    broadcast use vstd::seq_lib::to_multiset_contains;

    assert forall|k: int| 0 <= k < p.len() implies (#[trigger] p[k]).q.lo <= p[k].q.hi by {
        assert(p.contains(p[k]));
        assert(input.to_multiset().count(p[k]) > 0);
        let j = choose|j: int| 0 <= j < input.len() && input[j] == p[k];
        assert(input[j].q.lo <= input[j].q.hi);
    }
}

/// Closing a block at `e` keeps the blocks separated and chained.
proof fn lemma_close_block(p: Seq<OrderedRoot>, b: Seq<int>, e: int, valid: bool)
    requires
        b.len() >= 1,
        b.last() < e <= p.len(),
        forall|t: int, u: int| 0 <= t < u < b.len() ==> #[trigger] b[t] < #[trigger] b[u],
        blocks_separated(p, b),
        forall|i: int, j: int| b.last() <= i < e <= j < p.len() ==> p[i].q.lo > p[j].q.hi,
        valid ==> blocks_chained(p, b),
        valid ==> forall|c: int| b.last() < c < e ==> #[trigger] linked_back(p, b.last(), c),
    ensures
        forall|t: int, u: int|
            0 <= t < u < b.push(e).len() ==> #[trigger] b.push(e)[t] < #[trigger] b.push(e)[u],
        blocks_separated(p, b.push(e)),
        valid ==> blocks_chained(p, b.push(e)),
{
    let nb = b.push(e);
    assert forall|t: int, u: int| 0 <= t < u < nb.len() implies #[trigger] nb[t]
        < #[trigger] nb[u] by {
        if u < b.len() {
            assert(nb[t] == b[t] && nb[u] == b[u]);
        } else if t < b.len() - 1 {
            assert(nb[t] == b[t] && b[t] < b[b.len() - 1]);
        }
    }
    assert forall|t: int, i: int, j: int|
        #![trigger nb[t], p[i], p[j]]
        0 <= t < nb.len() - 1 && nb[t] <= i < nb[t + 1] <= j < p.len() implies p[i].q.lo
        > p[j].q.hi by {
        if t < b.len() - 1 {
            assert(nb[t] == b[t] && nb[t + 1] == b[t + 1]);
            assert(b[t] == b[t] && p[i] == p[i] && p[j] == p[j]);
        }
    }
    if valid {
        assert forall|t: int, c: int|
            0 <= t < nb.len() - 1 && nb[t] < c < nb[t + 1] implies #[trigger] linked_back(
            p,
            nb[t],
            c,
        ) by {
            if t < b.len() - 1 {
                assert(nb[t] == b[t] && nb[t + 1] == b[t + 1]);
                assert(linked_back(p, b[t], c));
            } else {
                assert(nb[t] == b.last());
                assert(linked_back(p, b.last(), c));
            }
        }
    }
}

proof fn lemma_precedes_order(by_feature: bool, a: OrderedRoot, b: OrderedRoot, c: OrderedRoot)
    ensures
        !precedes(by_feature, a, a),
        precedes(by_feature, a, b) && precedes(by_feature, b, c) ==> precedes(by_feature, a, c),
        a != b && !precedes(by_feature, a, b) ==> precedes(by_feature, b, a),
{
    if a != b && !precedes(by_feature, a, b) {
        if a.q == b.q && a.feature_id == b.feature_id && a.orientation == b.orientation {
            assert(a == b);
        }
    }
}

proof fn lemma_scan_end_bounds(p: Seq<OrderedRoot>, end: int, min_lo: int)
    requires
        0 <= end <= p.len(),
    ensures
        end <= scan_end(p, end, min_lo) <= p.len(),
    decreases p.len() - end,
{
    if 0 <= end < p.len() && p[end].q.hi >= min_lo {
        lemma_scan_end_bounds(
            p,
            end + 1,
            if p[end].q.lo < min_lo {
                p[end].q.lo as int
            } else {
                min_lo
            },
        );
    }
}

fn endpoint_before(a: OrderedRoot, b: OrderedRoot) -> (r: bool)
    ensures
        r == endpoint_precedes(a, b),
{
    a.q.hi > b.q.hi || (a.q.hi == b.q.hi && (a.q.lo > b.q.lo || (a.q.lo == b.q.lo && (
    a.feature_id < b.feature_id || (a.feature_id == b.feature_id && a.orientation
        < b.orientation)))))
}

fn feature_before(a: OrderedRoot, b: OrderedRoot) -> (r: bool)
    ensures
        r == feature_precedes(a, b),
{
    a.feature_id < b.feature_id || (a.feature_id == b.feature_id && (a.orientation
        < b.orientation || (a.orientation == b.orientation && (a.q.lo > b.q.lo || (a.q.lo
        == b.q.lo && a.q.hi > b.q.hi)))))
}

/// Stable insertion sort of positions `lo..hi` by the chosen key, leaving the
/// rest of the slice untouched.
#[verifier::loop_isolation(false)]
fn sort_range(roots: &mut [OrderedRoot], lo: usize, hi: usize, by_feature: bool)
    requires
        lo <= hi <= old(roots)@.len(),
    ensures
        final(roots)@.len() == old(roots)@.len(),
        forall|k: int|
            0 <= k < old(roots)@.len() && !(lo <= k < hi) ==> #[trigger] final(roots)@[k]
                == old(roots)@[k],
        final(roots)@.subrange(lo as int, hi as int).to_multiset() == old(roots)@.subrange(
            lo as int,
            hi as int,
        ).to_multiset(),
        sorted_between(by_feature, final(roots)@, lo as int, hi as int),
{
    let ghost original = roots@;
    let mut index: usize = lo;
    while index < hi
        invariant
            lo <= index <= hi,
            roots@.len() == original.len(),
            forall|k: int|
                0 <= k < original.len() && !(lo <= k < hi) ==> #[trigger] roots@[k]
                    == original[k],
            roots@.subrange(lo as int, hi as int).to_multiset() == original.subrange(
                lo as int,
                hi as int,
            ).to_multiset(),
            sorted_between(by_feature, roots@, lo as int, index as int),
        decreases hi - index,
    {
        let value = roots[index];
        let mut d: usize = index;
        loop
            invariant
                lo <= d <= index < hi,
                roots@.len() == original.len(),
                roots@[d as int] == value,
                forall|k: int|
                    0 <= k < original.len() && !(lo <= k < hi) ==> #[trigger] roots@[k]
                        == original[k],
                roots@.subrange(lo as int, hi as int).to_multiset() == original.subrange(
                    lo as int,
                    hi as int,
                ).to_multiset(),
                sorted_between(by_feature, roots@, lo as int, d as int),
                sorted_between(by_feature, roots@, d + 1, index + 1),
                forall|k: int| d < k <= index ==> precedes(by_feature, value, #[trigger] roots@[k]),
                forall|i: int, k: int|
                    #![trigger roots@[i], roots@[k]]
                    lo <= i < d < k <= index ==> precedes(by_feature, roots@[i], roots@[k])
                        || roots@[i] == roots@[k],
            decreases d,
        {
            if d == lo {
                break;
            }
            let left = roots[d - 1];
            let goes_before = if by_feature {
                feature_before(value, left)
            } else {
                endpoint_before(value, left)
            };
            if !goes_before {
                proof {
                    lemma_precedes_order(by_feature, value, left, left);
                    assert forall|i: int, j: int|
                        #![trigger roots@[i], roots@[j]]
                        lo <= i < j < index + 1 implies precedes(
                            by_feature,
                            roots@[i],
                            roots@[j],
                        ) || roots@[i] == roots@[j] by {
                        if j == d && i < d - 1 {
                            lemma_precedes_order(by_feature, roots@[i], left, value);
                        } else if i < d && j > d {
                            lemma_precedes_order(by_feature, roots@[i], left, value);
                        }
                    }
                }
                break;
            }
            let ghost before_swap = roots@;
            roots[d - 1] = value;
            roots[d] = left;
            proof {
                assert(roots@ == before_swap.update(d - 1, before_swap[d as int]).update(
                    d as int,
                    before_swap[d - 1],
                ));
                let sub = before_swap.subrange(lo as int, hi as int);
                crate::arrange::lemma_swap_to_multiset(sub, d - 1 - lo, d - lo);
                assert(roots@.subrange(lo as int, hi as int) =~= sub.update(
                    d - 1 - lo,
                    sub[d - lo],
                ).update(d - lo, sub[d - 1 - lo]));
                assert forall|i: int, k: int|
                    #![trigger roots@[i], roots@[k]]
                    lo <= i < d - 1 < k <= index implies precedes(
                        by_feature,
                        roots@[i],
                        roots@[k],
                    ) || roots@[i] == roots@[k] by {
                    assert(before_swap[i] == roots@[i]);
                    if k == d {
                        assert(before_swap[d - 1] == roots@[k]);
                    } else {
                        assert(before_swap[k] == roots@[k]);
                    }
                }
                assert forall|i: int, j: int|
                    #![trigger roots@[i], roots@[j]]
                    d <= i < j < index + 1 implies precedes(
                        by_feature,
                        roots@[i],
                        roots@[j],
                    ) || roots@[i] == roots@[j] by {
                    assert(before_swap[j] == roots@[j]);
                    if i == d {
                        assert(before_swap[d - 1] == roots@[i]);
                    } else {
                        assert(before_swap[i] == roots@[i]);
                    }
                }
                assert forall|k: int| d - 1 < k <= index implies precedes(
                    by_feature,
                    value,
                    #[trigger] roots@[k],
                ) by {
                    if k == d {
                        lemma_precedes_order(by_feature, value, left, left);
                    } else {
                        assert(before_swap[k] == roots@[k]);
                    }
                }
                assert forall|i: int, j: int|
                    #![trigger roots@[i], roots@[j]]
                    lo <= i < j < d - 1 implies precedes(by_feature, roots@[i], roots@[j])
                        || roots@[i] == roots@[j] by {
                    assert(before_swap[i] == roots@[i]);
                    assert(before_swap[j] == roots@[j]);
                }
            }
            d = d - 1;
        }
        index = index + 1;
    }
}

/// Forms the interval-overlap components, orders disjoint components from
/// near to far and applies the feature/orientation storage key only within a
/// complete component. Overlap is taken transitively: roots linked by a chain
/// of overlaps share a component. Components are found by one scan in order
/// of descending upper end: a root joins the current component while its
/// upper end reaches the least lower end seen in it.
#[verifier::loop_isolation(false)]
#[verifier::spinoff_prover]
#[verifier::rlimit(80)]
pub fn insertion_sort(roots: &mut [OrderedRoot]) -> (r: Result<(), NumericError>)
    ensures
        old(roots)@.len() > MAX_ORDERED_ROOTS ==> r == Err::<(), NumericError>(
            NumericError::CapacityExceeded,
        ) && final(roots)@ == old(roots)@,
        old(roots)@.len() <= MAX_ORDERED_ROOTS ==> r == Ok::<(), NumericError>(()) && exists|
            p: Seq<OrderedRoot>,
            b: Seq<int>,
        |
            {
                &&& settled_by(old(roots)@, final(roots)@, p, b)
                &&& blocks_separated(p, b)
                &&& roots_valid(old(roots)@) ==> blocks_chained(p, b)
            },
{
    if roots.len() > MAX_ORDERED_ROOTS {
        return Err(NumericError::CapacityExceeded);
    }
    let ghost input = roots@;
    let len = roots.len();
    sort_range(roots, 0, len, false);
    let ghost p = roots@;
    proof {
        assert(roots@.subrange(0, len as int) =~= roots@);
        assert(input.subrange(0, len as int) =~= input);
        if roots_valid(input) {
            lemma_valid_permutation(input, p);
        }
    }
    let ghost mut b: Seq<int> = seq![0int];
    let mut component_start: usize = 0;
    while component_start < len
        invariant
            len == p.len() == roots@.len(),
            component_start <= len,
            b.len() >= 1,
            b[0] == 0,
            b.last() == component_start,
            forall|k: int| component_start <= k < len ==> #[trigger] roots@[k] == p[k],
            forall|t: int| 0 <= t < b.len() - 1 ==> #[trigger] block_settled(p, roots@, b, t),
            forall|t: int| 0 <= t < b.len() ==> 0 <= #[trigger] b[t] <= component_start,
            forall|t: int, u: int| 0 <= t < u < b.len() ==> #[trigger] b[t] < #[trigger] b[u],
            blocks_separated(p, b),
            roots_valid(p) ==> blocks_chained(p, b),
            roots_valid(input) ==> roots_valid(p),
        decreases len - component_start,
    {
        let mut component_end: usize = component_start + 1;
        let mut component_min_lo: i32 = roots[component_start].q.lo;
        let ghost mut lowest: int = component_start as int;
        proof {
            lemma_scan_end_bounds(p, component_start + 1, p[component_start as int].q.lo as int);
        }
        while component_end < len && roots[component_end].q.hi >= component_min_lo
            invariant
                component_start < component_end <= len,
                scan_end(p, component_end as int, component_min_lo as int) == scan_end(
                    p,
                    component_start + 1,
                    p[component_start as int].q.lo as int,
                ),
                component_start <= lowest < component_end,
                p[lowest].q.lo == component_min_lo,
                forall|k: int| component_start <= k < component_end ==> component_min_lo <= (
                #[trigger] p[k]).q.lo,
                roots_valid(p) ==> forall|c: int|
                    component_start < c < component_end ==> #[trigger] linked_back(
                        p,
                        component_start as int,
                        c,
                    ),
            decreases len - component_end,
        {
            proof {
                let e = component_end as int;
                assert(p[lowest].q.lo <= p[e].q.hi);
                assert(precedes(false, p[lowest], p[e]) || p[lowest] == p[e]);
                if roots_valid(p) {
                    assert(p[e].q.lo <= p[e].q.hi);
                    assert(overlaps(p[lowest], p[e]));
                    assert(linked_back(p, component_start as int, e));
                }
            }
            if roots[component_end].q.lo < component_min_lo {
                component_min_lo = roots[component_end].q.lo;
                proof {
                    lowest = component_end as int;
                }
            }
            component_end = component_end + 1;
        }
        proof {
            let e = component_end as int;
            let st = component_start as int;
            assert forall|i: int, j: int| st <= i < e <= j < len implies p[i].q.lo > p[j].q.hi by {
                assert(p[e].q.hi < component_min_lo);
                if j > e {
                    assert(precedes(false, p[e], p[j]) || p[e] == p[j]);
                }
            }
        }
        let ghost before_sort = roots@;
        sort_range(roots, component_start, component_end, true);
        proof {
            assert(before_sort.subrange(component_start as int, component_end as int)
                =~= p.subrange(component_start as int, component_end as int));
            let nb = b.push(component_end as int);
            assert forall|t: int| 0 <= t < nb.len() - 1 implies #[trigger] block_settled(
                p,
                roots@,
                nb,
                t,
            ) by {
                if t < b.len() - 1 {
                    assert(block_settled(p, before_sort, b, t));
                    assert(nb[t] == b[t] && nb[t + 1] == b[t + 1]);
                    assert(b[t + 1] <= component_start);
                    assert(roots@.subrange(b[t], b[t + 1]) =~= before_sort.subrange(
                        b[t],
                        b[t + 1],
                    ));
                    assert forall|i: int, j: int|
                        #![trigger roots@[i], roots@[j]]
                        b[t] <= i < j < b[t + 1] implies precedes(true, roots@[i], roots@[j])
                            || roots@[i] == roots@[j] by {
                        assert(roots@[i] == before_sort[i]);
                        assert(roots@[j] == before_sort[j]);
                    }
                } else {
                    assert(nb[t] == component_start);
                }
            }
            lemma_close_block(p, b, component_end as int, roots_valid(p));
            b = nb;
        }
        component_start = component_end;
    }
    proof {
        assert(settled_by(input, roots@, p, b));
        assert(blocks_separated(p, b));
    }
    Ok(())
}

pub fn all_pairs_agree_with_adjacent(roots: &[OrderedRoot]) -> (r: bool)
    ensures
        r == (roots@.len() <= MAX_ORDERED_ROOTS && all_pairs_nearer(roots@)),
{
    let mut left: usize = 0;
    while left < roots.len()
        invariant
            left <= roots@.len(),
            forall|i: int, j: int|
                #![trigger roots@[i], roots@[j]]
                0 <= i < left && i < j < roots@.len() ==> relation(roots@[i].q, roots@[j].q)
                    == OrderRelation::Nearer,
        decreases roots@.len() - left,
    {
        let mut right: usize = left + 1;
        while right < roots.len()
            invariant
                left < roots@.len(),
                left + 1 <= right <= roots@.len(),
                forall|i: int, j: int|
                    #![trigger roots@[i], roots@[j]]
                    0 <= i < left && i < j < roots@.len() ==> relation(roots@[i].q, roots@[j].q)
                        == OrderRelation::Nearer,
                forall|j: int|
                    left < j < right && j < roots@.len() ==> relation(
                        roots@[left as int].q,
                        #[trigger] roots@[j].q,
                    ) == OrderRelation::Nearer,
            decreases roots@.len() + 1 - right,
        {
            if compare(roots[left].q, roots[right].q) != OrderRelation::Nearer {
                return false;
            }
            right = right + 1;
        }
        left = left + 1;
    }
    match adjacent_slack(roots) {
        Ok(slack) => {
            proof {
                if roots@.len() >= 2 {
                    assert forall|i: int| 0 <= i < roots@.len() - 1 implies #[trigger] pair_relation(
                        roots@,
                        i,
                    ) == OrderRelation::Nearer by {
                        assert(roots@[i] == roots@[i]);
                        assert(roots@[i + 1] == roots@[i + 1]);
                    }
                }
            }
            slack > 0
        },
        Err(_) => false,
    }
}

/// `a` comes no later than `b` in the order chosen by `by_feature`.
pub open spec fn precedes_or_equal(by_feature: bool) -> spec_fn(OrderedRoot, OrderedRoot) -> bool {
    |a: OrderedRoot, b: OrderedRoot| precedes(by_feature, a, b) || a == b
}

proof fn lemma_precedes_total(by_feature: bool)
    ensures
        vstd::relations::total_ordering(precedes_or_equal(by_feature)),
{
    let leq = precedes_or_equal(by_feature);
    assert forall|x: OrderedRoot, y: OrderedRoot| #[trigger] leq(x, y) && #[trigger] leq(y, x)
        implies x == y by {
        lemma_precedes_order(by_feature, x, y, x);
    }
    assert forall|x: OrderedRoot, y: OrderedRoot, z: OrderedRoot|
        #[trigger] leq(x, y) && #[trigger] leq(y, z) implies leq(x, z) by {
        lemma_precedes_order(by_feature, x, y, z);
    }
    assert forall|x: OrderedRoot, y: OrderedRoot| #[trigger] leq(x, y) || #[trigger] leq(y, x) by {
        lemma_precedes_order(by_feature, x, y, x);
    }
}

proof fn lemma_sorted_between_is_sorted(by_feature: bool, s: Seq<OrderedRoot>, lo: int, hi: int)
    requires
        0 <= lo <= hi <= s.len(),
        sorted_between(by_feature, s, lo, hi),
    ensures
        vstd::relations::sorted_by(s.subrange(lo, hi), precedes_or_equal(by_feature)),
{
    let t = s.subrange(lo, hi);
    assert forall|i: int, j: int| 0 <= i < j < t.len() implies #[trigger] (precedes_or_equal(
        by_feature,
    ))(t[i], t[j]) by {
        assert(t[i] == s[lo + i] && t[j] == s[lo + j]);
    }
}

/// The component chains of one permutation agree up to position `k`.
proof fn lemma_chains_agree(p: Seq<OrderedRoot>, b1: Seq<int>, b2: Seq<int>, k: int)
    requires
        b1.len() >= 1,
        b2.len() >= 1,
        b1[0] == 0,
        b2[0] == 0,
        forall|t: int| 0 <= t < b1.len() - 1 ==> b1[t + 1] == component_end(p, #[trigger] b1[t]),
        forall|t: int| 0 <= t < b2.len() - 1 ==> b2[t + 1] == component_end(p, #[trigger] b2[t]),
        0 <= k < b1.len(),
        k < b2.len(),
    ensures
        b1[k] == b2[k],
    decreases k,
{
    if k > 0 {
        lemma_chains_agree(p, b1, b2, k - 1);
        assert(b1[k] == component_end(p, b1[k - 1]));
        assert(b2[k] == component_end(p, b2[k - 1]));
    }
}

/// A strictly increasing chain ending at `n` never passes `n`.
proof fn lemma_chain_bounded(b: Seq<int>, n: int, k: int)
    requires
        b.len() >= 1,
        b.last() == n,
        forall|t: int| 0 <= t < b.len() - 1 ==> #[trigger] b[t] < b[t + 1],
        0 <= k < b.len(),
    ensures
        b[k] <= n,
        k < b.len() - 1 ==> b[k] < n,
    decreases b.len() - k,
{
    if k < b.len() - 1 {
        lemma_chain_bounded(b, n, k + 1);
    }
}

proof fn lemma_chain_from_start(b: Seq<int>, k: int)
    requires
        b.len() >= 1,
        forall|t: int| 0 <= t < b.len() - 1 ==> #[trigger] b[t] < b[t + 1],
        0 <= k < b.len(),
    ensures
        b[0] <= b[k],
    decreases k,
{
    if k > 0 {
        lemma_chain_from_start(b, k - 1);
    }
}

/// The facts about a chain that a settled output carries.
proof fn lemma_settled_chain(
    input: Seq<OrderedRoot>,
    output: Seq<OrderedRoot>,
    p: Seq<OrderedRoot>,
    b: Seq<int>,
)
    requires
        settled_by(input, output, p, b),
    ensures
        forall|t: int| 0 <= t < b.len() - 1 ==> b[t + 1] == component_end(p, #[trigger] b[t]),
        forall|t: int| 0 <= t < b.len() - 1 ==> #[trigger] b[t] < b[t + 1],
{
    assert forall|t: int| 0 <= t < b.len() - 1 implies b[t + 1] == component_end(
        p,
        #[trigger] b[t],
    ) by {
        assert(block_settled(p, output, b, t));
    }
    assert forall|t: int| 0 <= t < b.len() - 1 implies #[trigger] b[t] < b[t + 1] by {
        assert(block_settled(p, output, b, t));
    }
}

/// Outputs settled by the same permutation and chain agree on every block
/// up to block `t`.
proof fn lemma_blocks_agree(
    p: Seq<OrderedRoot>,
    f1: Seq<OrderedRoot>,
    f2: Seq<OrderedRoot>,
    b: Seq<int>,
    t: int,
)
    requires
        f1.len() == p.len(),
        f2.len() == p.len(),
        b.len() >= 1,
        b[0] == 0,
        b.last() == p.len(),
        forall|u: int| 0 <= u < b.len() - 1 ==> #[trigger] block_settled(p, f1, b, u),
        forall|u: int| 0 <= u < b.len() - 1 ==> #[trigger] block_settled(p, f2, b, u),
        0 <= t < b.len(),
    ensures
        f1.subrange(0, b[t]) == f2.subrange(0, b[t]),
    decreases t,
{
    if t == 0 {
        assert(f1.subrange(0, 0) =~= f2.subrange(0, 0));
    } else {
        lemma_blocks_agree(p, f1, f2, b, t - 1);
        let u = t - 1;
        assert(block_settled(p, f1, b, u));
        assert(block_settled(p, f2, b, u));
        assert forall|v: int| 0 <= v < b.len() - 1 implies #[trigger] b[v] < b[v + 1] by {
            assert(block_settled(p, f1, b, v));
        }
        lemma_chain_bounded(b, p.len() as int, t);
        lemma_chain_bounded(b, p.len() as int, u);
        lemma_chain_from_start(b, u);
        lemma_precedes_total(true);
        lemma_sorted_between_is_sorted(true, f1, b[u], b[t]);
        lemma_sorted_between_is_sorted(true, f2, b[u], b[t]);
        vstd::seq_lib::lemma_sorted_unique(
            f1.subrange(b[u], b[t]),
            f2.subrange(b[u], b[t]),
            precedes_or_equal(true),
        );
        assert(f1.subrange(0, b[t]) =~= f1.subrange(0, b[u]) + f1.subrange(b[u], b[t]));
        assert(f2.subrange(0, b[t]) =~= f2.subrange(0, b[u]) + f2.subrange(b[u], b[t]));
    }
}

/// Sorting does not depend on the order the roots arrive in: two inputs
/// holding the same roots sort to the same output.
#[verifier::rlimit(30)]
pub proof fn sorting_is_permutation_invariant(
    input1: Seq<OrderedRoot>,
    input2: Seq<OrderedRoot>,
    output1: Seq<OrderedRoot>,
    output2: Seq<OrderedRoot>,
)
    requires
        input1.to_multiset() == input2.to_multiset(),
        exists|p: Seq<OrderedRoot>, b: Seq<int>| settled_by(input1, output1, p, b),
        exists|p: Seq<OrderedRoot>, b: Seq<int>| settled_by(input2, output2, p, b),
    ensures
        output1 == output2,
{
    let (p1, b1) = choose|p: Seq<OrderedRoot>, b: Seq<int>| settled_by(input1, output1, p, b);
    let (p2, b2) = choose|p: Seq<OrderedRoot>, b: Seq<int>| settled_by(input2, output2, p, b);
    lemma_precedes_total(false);
    lemma_sorted_between_is_sorted(false, p1, 0, p1.len() as int);
    lemma_sorted_between_is_sorted(false, p2, 0, p2.len() as int);
    assert(p1.subrange(0, p1.len() as int) =~= p1);
    assert(p2.subrange(0, p2.len() as int) =~= p2);
    vstd::seq_lib::lemma_sorted_unique(p1, p2, precedes_or_equal(false));
    assert(p1 == p2);
    lemma_settled_chain(input1, output1, p1, b1);
    lemma_settled_chain(input2, output2, p2, b2);
    let n = p1.len() as int;
    if b1.len() < b2.len() {
        let k = b1.len() - 1;
        lemma_chains_agree(p1, b1, b2, k);
        lemma_chain_bounded(b2, n, k);
        assert(false);
    } else if b2.len() < b1.len() {
        let k = b2.len() - 1;
        lemma_chains_agree(p1, b1, b2, k);
        lemma_chain_bounded(b1, n, k);
        assert(false);
    }
    assert forall|k: int| 0 <= k < b1.len() implies b1[k] == b2[k] by {
        lemma_chains_agree(p1, b1, b2, k);
    }
    assert(b1 =~= b2);
    lemma_blocks_agree(p1, output1, output2, b1, b1.len() - 1);
    assert(output1.subrange(0, n) =~= output1);
    assert(output2.subrange(0, n) =~= output2);
}

} // verus!
