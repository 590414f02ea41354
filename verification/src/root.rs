//! Bounded, fail-closed Bernstein root isolation.
use vstd::prelude::*;
use crate::iv32::{FixedDomain, Iv32, NumericError};
use crate::poly::{
    Bernstein, CoefficientSign, Polynomial, SignVariation, taylor_with_remainder, zero_iv,
    exact_horner, evaluation_encloses,
};
use crate::iv32::{encloses_ratio, interval_arithmetic_encloses_ratios};

verus! {

pub const MAX_ROOTS: usize = 16;

pub const MAX_STACK: usize = 128;

#[derive(Clone, Copy, Debug, PartialEq, Eq, Structural)]
pub enum RootReason {
    DegenerateZero,
    DepthExhausted,
    NoProgress,
    Numeric,
    CapacityRoots,
    CapacitySheets,
}

#[derive(Clone, Copy, Debug, PartialEq, Eq, Structural)]
pub struct RootInterval {
    pub interval: Iv32,
    pub unique: bool,
}

#[derive(Clone, Copy, Debug, PartialEq, Eq)]
pub enum RootOutcome {
    Roots { roots: [RootInterval; MAX_ROOTS], count: u16 },
    CertifiedNone,
    Unresolved(RootReason),
}

#[derive(Clone, Copy)]
pub enum RootEvaluator {
    Bernstein(Bernstein),
    IntervalTaylor { polynomial: Polynomial, remainder: Iv32 },
}

#[derive(Clone, Copy)]
struct Cell {
    q: Iv32,
    evaluator: RootEvaluator,
    depth: u8,
}

impl RootEvaluator {
    pub open spec fn wf(self) -> bool {
        match self {
            RootEvaluator::Bernstein(b) => b.wf(),
            RootEvaluator::IntervalTaylor { polynomial, .. } => polynomial.wf(),
        }
    }

    /// Every active coefficient (and the remainder) is the exact point zero.
    pub open spec fn spec_is_zero(self) -> bool {
        match self {
            RootEvaluator::Bernstein(b) => all_zero(b.coefficients@, b.degree as int),
            RootEvaluator::IntervalTaylor { polynomial, remainder } => remainder == zero_iv()
                && all_zero(polynomial.coefficients@, polynomial.degree as int),
        }
    }

    pub open spec fn is_constant_bernstein(self) -> bool {
        match self {
            RootEvaluator::Bernstein(b) => b.degree == 0,
            _ => false,
        }
    }

    pub open spec fn is_taylor(self) -> bool {
        self is IntervalTaylor
    }
}

/// Coefficients `0..=degree` are all the point zero.
pub open spec fn all_zero(cs: Seq<Iv32>, degree: int) -> bool {
    forall|i: int| 0 <= i <= degree ==> cs[i] == zero_iv()
}

/// The unique root candidate obtained from one sign-bracket refinement.
pub open spec fn bracket_step_spec(lo: int, hi: int, lo_negative: bool, midpoint_negative: bool) -> Result<
    RootInterval,
    NumericError,
> {
    let midpoint = lo + (hi - lo) / 2;
    if lo >= hi {
        Err(NumericError::InvalidInterval)
    } else if lo_negative == midpoint_negative {
        Ok(RootInterval { interval: Iv32 { lo: midpoint as i32, hi: hi as i32 }, unique: true })
    } else {
        Ok(RootInterval { interval: Iv32 { lo: lo as i32, hi: midpoint as i32 }, unique: true })
    }
}

/// One exact midpoint refinement of a sign bracket.
pub fn bracket_step(lo: i32, hi: i32, lo_negative: bool, midpoint_negative: bool) -> (r: Result<
    RootInterval,
    NumericError,
>)
    ensures
        r == bracket_step_spec(lo as int, hi as int, lo_negative, midpoint_negative),
{
    if lo >= hi {
        return Err(NumericError::InvalidInterval);
    }
    let width: i64 = hi as i64 - lo as i64;
    let midpoint: i32 = (lo as i64 + width / 2) as i32;
    if lo_negative == midpoint_negative {
        Ok(RootInterval { interval: Iv32::new(midpoint, hi)?, unique: true })
    } else {
        Ok(RootInterval { interval: Iv32::new(lo, midpoint)?, unique: true })
    }
}

pub fn bernstein_is_identically_zero(polynomial: Bernstein) -> (r: bool)
    requires
        polynomial.wf(),
    ensures
        r == RootEvaluator::Bernstein(polynomial).spec_is_zero(),
{
    active_all_zero(&polynomial.coefficients, polynomial.degree as usize)
}

fn active_all_zero(coefficients: &[Iv32; 9], degree: usize) -> (r: bool)
    requires
        degree <= 8,
    ensures
        r == all_zero(coefficients@, degree as int),
{
    let mut i: usize = 0;
    while i <= degree
        invariant
            degree <= 8,
            i <= degree + 1,
            forall|j: int| 0 <= j < i ==> coefficients@[j] == zero_iv(),
        decreases degree + 1 - i,
    {
        if coefficients[i].lo != 0 || coefficients[i].hi != 0 {
            return false;
        }
        i = i + 1;
    }
    true
}

fn evaluator_is_identically_zero(evaluator: RootEvaluator) -> (r: bool)
    requires
        evaluator.wf(),
    ensures
        r == evaluator.spec_is_zero(),
{
    match evaluator {
        RootEvaluator::Bernstein(polynomial) => bernstein_is_identically_zero(polynomial),
        RootEvaluator::IntervalTaylor { polynomial, remainder } => {
            remainder.lo == 0 && remainder.hi == 0 && active_all_zero(
                &polynomial.coefficients,
                polynomial.degree as usize,
            )
        },
    }
}

pub open spec fn params_invalid(tolerance_raw: u32, max_depth: u8, root_capacity: u16) -> bool {
    tolerance_raw == 0 || root_capacity == 0 || root_capacity > MAX_ROOTS || max_depth == 0
        || max_depth > 15
}

/// Padding value of unused root slots.
pub open spec fn empty_root() -> RootInterval {
    RootInterval { interval: zero_iv(), unique: false }
}

/// What every completed root list satisfies: nonempty, within capacity,
/// ordered from near (large q) to far, inside the searched q domain, free of
/// adjacent duplicates, and padded after `count`.
pub open spec fn well_ordered_roots(
    roots: Seq<RootInterval>,
    count: int,
    q_domain: Iv32,
    capacity: int,
) -> bool {
    &&& roots.len() == MAX_ROOTS
    &&& 1 <= count <= capacity
    &&& forall|i: int, j: int| 0 <= i < j < count ==> roots[j].interval.lo <= roots[i].interval.lo
    &&& forall|i: int|
        0 <= i < count ==> q_domain.lo <= (#[trigger] roots[i]).interval.lo <= roots[i].interval.hi
            <= q_domain.hi
    &&& forall|i: int| 0 <= i < count - 1 ==> (#[trigger] roots[i]).interval != roots[i + 1].interval
    &&& forall|i: int| count <= i < MAX_ROOTS ==> roots[i] == empty_root()
}

/// Weight of a cell for the termination measure: the size of the complete
/// binary tree that can still grow below it.
spec fn cell_weight(depth: int, max_depth: int) -> nat {
    (crate::dyadic::two_pow((max_depth + 1 - depth) as nat) - 1) as nat
}

spec fn stack_measure(stack: Seq<Cell>, max_depth: int) -> nat
    decreases stack.len(),
{
    if stack.len() == 0 {
        0
    } else {
        stack_measure(stack.drop_last(), max_depth) + cell_weight(
            stack.last().depth as int,
            max_depth,
        )
    }
}

spec fn cell_ok(c: Cell, q_domain: Iv32, max_depth: int, taylor: bool) -> bool {
    &&& c.q.lo < c.q.hi
    &&& q_domain.lo <= c.q.lo
    &&& c.q.hi <= q_domain.hi
    &&& c.depth <= max_depth
    &&& c.evaluator.wf()
    &&& (taylor ==> c.evaluator.is_taylor())
}

spec fn roots_ok(roots: Seq<RootInterval>, q_domain: Iv32, taylor: bool) -> bool {
    &&& forall|i: int|
        0 <= i < roots.len() ==> q_domain.lo <= (#[trigger] roots[i]).interval.lo <= roots[i].interval.hi
            <= q_domain.hi
    &&& forall|i: int| 0 <= i < roots.len() - 1 ==> (#[trigger] roots[i]).interval != roots[i + 1].interval
    &&& (taylor ==> forall|i: int| 0 <= i < roots.len() ==> !roots[i].unique)
}

/// The rational raw position `x.0 / x.1` (with `x.1 > 0`) lies in the closed
/// interval `q`.
pub open spec fn holds_point(q: Iv32, x: (int, int)) -> bool {
    x.1 > 0 && q.lo * x.1 <= x.0 <= q.hi * x.1
}

/// The Taylor enclosure of the polynomial over `q`, widened by the remainder.
pub open spec fn taylor_range(polynomial: Polynomial, q: Iv32, remainder: Iv32, domain: FixedDomain) -> Result<
    Iv32,
    NumericError,
> {
    match polynomial.spec_evaluate(q, domain) {
        Ok(v) => v.spec_add(remainder, domain),
        Err(e) => Err(e),
    }
}

/// The evaluator of cell `q` shows that `x` is no root: a Bernstein form of
/// one strict sign; a Bernstein form without sign variation, with `x` not at
/// an end whose coefficient is the point zero; or a Taylor enclosure that
/// excludes zero.
pub open spec fn excludes_root(e: RootEvaluator, q: Iv32, domain: FixedDomain, x: (int, int)) -> bool {
    &&& holds_point(q, x)
    &&& match e {
        RootEvaluator::Bernstein(b) => b.spec_sign() != CoefficientSign::Mixed || (
        b.spec_sign_variations() == SignVariation::Exact(0) && !(x.0 == q.lo * x.1 && b.coefficients@[0]
            == zero_iv()) && !(x.0 == q.hi * x.1 && b.coefficients@[b.degree as int] == zero_iv())),
        RootEvaluator::IntervalTaylor { polynomial, remainder } => match taylor_range(
            polynomial,
            q,
            remainder,
            domain,
        ) {
            Ok(range) => range.lo > 0 || range.hi < 0,
            Err(_) => false,
        },
    }
}

/// Cell `(e, q)` is one half of cell `(pe, pq)`, split at the midpoint: a
/// Taylor evaluator is kept, a Bernstein form is subdivided at the same point.
pub open spec fn halves(
    pe: RootEvaluator,
    pq: Iv32,
    e: RootEvaluator,
    q: Iv32,
    domain: FixedDomain,
) -> bool {
    let mid = pq.lo + (pq.hi - pq.lo) / 2;
    let left = q.lo == pq.lo && q.hi == mid;
    let right = q.lo == mid && q.hi == pq.hi;
    &&& pq.lo < mid < pq.hi
    &&& (left || right)
    &&& match pe {
        RootEvaluator::IntervalTaylor { .. } => e == pe,
        RootEvaluator::Bernstein(bp) => match bp.spec_subdivide_at(
            (mid - pq.lo) as u64,
            (pq.hi - pq.lo) as u64,
            domain,
        ) {
            Ok((l, r)) => e matches RootEvaluator::Bernstein(b) && b.degree == bp.degree
                && b.coefficients@ == (if left {
                l
            } else {
                r
            }),
            Err(_) => false,
        },
    }
}

/// `path` is a chain of midpoint halvings: each cell is a half of the one
/// before it.
pub open spec fn halving_chain(path: Seq<(RootEvaluator, Iv32)>, domain: FixedDomain) -> bool {
    forall|i: int|
        0 <= i < path.len() - 1 ==> halves(
            (#[trigger] path[i]).0,
            path[i].1,
            path[i + 1].0,
            path[i + 1].1,
            domain,
        )
}

/// Cell `(e, q)` arises from `(e0, q0)` by `depth` midpoint halvings.
pub open spec fn derived(
    e0: RootEvaluator,
    q0: Iv32,
    domain: FixedDomain,
    e: RootEvaluator,
    q: Iv32,
    depth: nat,
) -> bool {
    exists|path: Seq<(RootEvaluator, Iv32)>|
        {
            &&& #[trigger] path.len() == depth + 1
            &&& path[0] == (e0, q0)
            &&& path.last() == (e, q)
            &&& halving_chain(path, domain)
        }
}

/// A half of a derived cell is derived one level deeper.
proof fn lemma_derived_step(
    e0: RootEvaluator,
    q0: Iv32,
    domain: FixedDomain,
    pe: RootEvaluator,
    pq: Iv32,
    e: RootEvaluator,
    q: Iv32,
    depth: nat,
)
    requires
        derived(e0, q0, domain, pe, pq, depth),
        halves(pe, pq, e, q, domain),
    ensures
        derived(e0, q0, domain, e, q, depth + 1),
{
    let path = choose|path: Seq<(RootEvaluator, Iv32)>|
        {
            &&& #[trigger] path.len() == depth + 1
            &&& path[0] == (e0, q0)
            &&& path.last() == (pe, pq)
            &&& halving_chain(path, domain)
        };
    let longer = path.push((e, q));
    assert forall|i: int| 0 <= i < longer.len() - 1 implies halves(
        (#[trigger] longer[i]).0,
        longer[i].1,
        longer[i + 1].0,
        longer[i + 1].1,
        domain,
    ) by {
        if i < path.len() - 1 {
            assert(longer[i] == path[i] && longer[i + 1] == path[i + 1]);
        } else {
            assert(longer[i] == (pe, pq));
        }
    }
    assert(longer.len() == depth + 2);
}

/// Every leaf `(q, e, depth)` arises from `(e0, q0)` by subdivision.
pub open spec fn leaves_derived(
    e0: RootEvaluator,
    q0: Iv32,
    domain: FixedDomain,
    leaves: Seq<(Iv32, RootEvaluator, nat)>,
) -> bool {
    forall|k: int|
        0 <= k < leaves.len() ==> derived(e0, q0, domain, (#[trigger] leaves[k]).1, leaves[k].0, leaves[k].2)
}

/// Some leaf shows that `x` is no root.
pub open spec fn leaf_rules_out(
    domain: FixedDomain,
    leaves: Seq<(Iv32, RootEvaluator, nat)>,
    x: (int, int),
) -> bool {
    exists|k: int| 0 <= k < leaves.len() && #[trigger] excludes_root(leaves[k].1, leaves[k].0, domain, x)
}

/// Some entry of `roots` has the interval `iv`.
pub open spec fn interval_listed(roots: Seq<RootInterval>, iv: Iv32) -> bool {
    exists|j: int| 0 <= j < roots.len() && #[trigger] roots[j].interval == iv
}

/// Some root interval holds `x`.
pub open spec fn root_holds(roots: Seq<RootInterval>, x: (int, int)) -> bool {
    exists|i: int| 0 <= i < roots.len() && #[trigger] holds_point(roots[i].interval, x)
}

/// The subdivision of `(e0, q0)` accounts for every raw position of `q0`:
/// each is ruled out by the evaluator of a subdivided cell or lies in one of
/// `roots`.
pub open spec fn search_covers(e0: RootEvaluator, q0: Iv32, domain: FixedDomain, roots: Seq<RootInterval>) -> bool {
    exists|leaves: Seq<(Iv32, RootEvaluator, nat)>|
        {
            &&& #[trigger] leaves_derived(e0, q0, domain, leaves)
            &&& forall|x: (int, int)|
                holds_point(q0, x) ==> #[trigger] leaf_rules_out(domain, leaves, x) || root_holds(
                    roots,
                    x,
                )
        }
}

/// A Taylor evaluation on a subdivided cell failed.
pub open spec fn taylor_failed(e0: RootEvaluator, q0: Iv32, domain: FixedDomain) -> bool {
    exists|q: Iv32, depth: nat|
        #[trigger] derived(e0, q0, domain, e0, q, depth) && match e0 {
            RootEvaluator::IntervalTaylor { polynomial, remainder } => taylor_range(
                polynomial,
                q,
                remainder,
                domain,
            ) is Err,
            _ => false,
        }
}

/// `roots` after recording `candidate`: an identical last interval is
/// merged into (both must be unique for the merge to stay unique), a full list
/// refuses (`None`), otherwise the candidate is appended.
pub open spec fn recorded(roots: Seq<RootInterval>, capacity: int, candidate: RootInterval) -> Option<
    Seq<RootInterval>,
> {
    let n = roots.len();
    if n > 0 && roots[n - 1].interval == candidate.interval {
        Some(
            roots.update(
                n - 1,
                RootInterval {
                    interval: roots[n - 1].interval,
                    unique: roots[n - 1].unique && candidate.unique,
                },
            ),
        )
    } else if n >= capacity {
        None
    } else {
        Some(roots.push(candidate))
    }
}

/// The Bernstein form with the given degree and coefficients.
pub open spec fn bernstein_with(degree: u8, coefficients: Seq<Iv32>) -> Bernstein {
    choose|b: Bernstein| b.degree == degree && b.coefficients@ == coefficients
}

/// A search step stops with `outcome`, leaving the pending cells and roots.
pub open spec fn stop_with(
    outcome: Result<RootOutcome, NumericError>,
    rest: Seq<(Iv32, RootEvaluator, nat)>,
    roots: Seq<RootInterval>,
) -> (Option<Result<RootOutcome, NumericError>>, Seq<(Iv32, RootEvaluator, nat)>, Seq<RootInterval>) {
    (Some(outcome), rest, roots)
}

/// A cell whose sign test left it open: record endpoint roots of a variation
/// free form; record a cell of tolerance width that holds at most one root
/// (or any inconclusive one); otherwise halve it, unless the depth limit, a
/// midpoint that does not split, a failed subdivision or a full stack stops
/// the search.
pub open spec fn search_open_cell(
    cell: (Iv32, RootEvaluator, nat),
    rest: Seq<(Iv32, RootEvaluator, nat)>,
    roots: Seq<RootInterval>,
    variation: SignVariation,
    lo_zero: bool,
    hi_zero: bool,
    domain: FixedDomain,
    tolerance: int,
    max_depth: int,
    capacity: int,
) -> (Option<Result<RootOutcome, NumericError>>, Seq<(Iv32, RootEvaluator, nat)>, Seq<RootInterval>) {
    let (q, e, depth) = cell;
    let full = Ok::<RootOutcome, NumericError>(RootOutcome::Unresolved(RootReason::CapacityRoots));
    let hi_root = hi_zero && q.hi != q.lo;
    if variation == SignVariation::Exact(0) {
        let first = if lo_zero {
            recorded(roots, capacity, RootInterval { interval: Iv32 { lo: q.lo, hi: q.lo }, unique: false })
        } else {
            Some(roots)
        };
        match first {
            None => stop_with(full, rest, roots),
            Some(r1) => {
                let second = if hi_root {
                    recorded(r1, capacity, RootInterval { interval: Iv32 { lo: q.hi, hi: q.hi }, unique: false })
                } else {
                    Some(r1)
                };
                match second {
                    None => stop_with(full, rest, r1),
                    Some(r2) => (None, rest, r2),
                }
            },
        }
    } else {
        let endpoint_roots = (if lo_zero { 1int } else { 0int }) + (if hi_root { 1int } else { 0int });
        let complete = match variation {
            SignVariation::Exact(n) => n + endpoint_roots <= 1,
            SignVariation::Inconclusive => true,
        };
        if q.hi - q.lo <= tolerance && complete {
            let unique = match variation {
                SignVariation::Exact(v) => v == 1 && endpoint_roots == 0,
                SignVariation::Inconclusive => false,
            };
            match recorded(roots, capacity, RootInterval { interval: q, unique }) {
                None => stop_with(full, rest, roots),
                Some(r) => (None, rest, r),
            }
        } else if depth >= max_depth {
            stop_with(Ok(RootOutcome::Unresolved(RootReason::DepthExhausted)), rest, roots)
        } else {
            let mid = q.lo + (q.hi - q.lo) / 2;
            if mid <= q.lo || mid >= q.hi {
                stop_with(Ok(RootOutcome::Unresolved(RootReason::NoProgress)), rest, roots)
            } else {
                let halves_of: Result<(RootEvaluator, RootEvaluator), NumericError> = match e {
                    RootEvaluator::Bernstein(b) => match b.spec_subdivide_at(
                        (mid - q.lo) as u64,
                        (q.hi - q.lo) as u64,
                        domain,
                    ) {
                        Err(err) => Err(err),
                        Ok((l, r)) => Ok(
                            (
                                RootEvaluator::Bernstein(bernstein_with(b.degree, l)),
                                RootEvaluator::Bernstein(bernstein_with(b.degree, r)),
                            ),
                        ),
                    },
                    RootEvaluator::IntervalTaylor { .. } => Ok((e, e)),
                };
                match halves_of {
                    Err(err) => stop_with(Err(err), rest, roots),
                    Ok((le, re)) => if rest.len() + 2 > MAX_STACK {
                        stop_with(Ok(RootOutcome::Unresolved(RootReason::CapacitySheets)), rest, roots)
                    } else {
                        (
                            None,
                            rest.push((Iv32 { lo: q.lo, hi: mid as i32 }, le, depth + 1)).push(
                                (Iv32 { lo: mid as i32, hi: q.hi }, re, depth + 1),
                            ),
                            roots,
                        )
                    },
                }
            }
        }
    }
}

/// One step of the search on the last pending cell: a Bernstein form of one
/// strict sign, or a Taylor enclosure that excludes zero, retires it; a
/// failed Taylor evaluation stops with a numeric failure; otherwise the cell
/// is handled as an open cell.
pub open spec fn search_step(
    stack: Seq<(Iv32, RootEvaluator, nat)>,
    roots: Seq<RootInterval>,
    domain: FixedDomain,
    tolerance: int,
    max_depth: int,
    capacity: int,
) -> (Option<Result<RootOutcome, NumericError>>, Seq<(Iv32, RootEvaluator, nat)>, Seq<RootInterval>) {
    let cell = stack.last();
    let rest = stack.drop_last();
    let (q, e, depth) = cell;
    match e {
        RootEvaluator::Bernstein(b) => if b.spec_sign() != CoefficientSign::Mixed {
            (None, rest, roots)
        } else {
            search_open_cell(
                cell,
                rest,
                roots,
                b.spec_sign_variations(),
                b.coefficients@[0] == zero_iv(),
                b.coefficients@[b.degree as int] == zero_iv(),
                domain,
                tolerance,
                max_depth,
                capacity,
            )
        },
        RootEvaluator::IntervalTaylor { polynomial, remainder } => match taylor_range(
            polynomial,
            q,
            remainder,
            domain,
        ) {
            Err(_) => stop_with(Ok(RootOutcome::Unresolved(RootReason::Numeric)), rest, roots),
            Ok(range) => if range.lo > 0 || range.hi < 0 {
                (None, rest, roots)
            } else {
                search_open_cell(
                    cell,
                    rest,
                    roots,
                    SignVariation::Inconclusive,
                    false,
                    false,
                    domain,
                    tolerance,
                    max_depth,
                    capacity,
                )
            },
        },
    }
}

/// The search from `stack` and `roots` with at most `fuel` steps: the outcome
/// it stops with, if any, and the roots recorded when it stops or when no cell
/// is left.
pub open spec fn search_run(
    stack: Seq<(Iv32, RootEvaluator, nat)>,
    roots: Seq<RootInterval>,
    domain: FixedDomain,
    tolerance: int,
    max_depth: int,
    capacity: int,
    fuel: nat,
) -> (Option<Result<RootOutcome, NumericError>>, Seq<RootInterval>)
    decreases fuel,
{
    if stack.len() == 0 || fuel == 0 {
        (None, roots)
    } else {
        let (stop, next, recorded_roots) = search_step(stack, roots, domain, tolerance, max_depth, capacity);
        match stop {
            Some(outcome) => (Some(outcome), recorded_roots),
            None => search_run(next, recorded_roots, domain, tolerance, max_depth, capacity, (fuel - 1) as nat),
        }
    }
}

/// The whole bounded search from the domain cell: a subdivision tree of
/// depth `max_depth` has at most `2^(max_depth + 1) - 1` cells, so the
/// search ends within that many steps.
pub open spec fn root_search(
    evaluator: RootEvaluator,
    q_domain: Iv32,
    domain: FixedDomain,
    tolerance: int,
    max_depth: int,
    capacity: int,
) -> (Option<Result<RootOutcome, NumericError>>, Seq<RootInterval>) {
    search_run(
        seq![(q_domain, evaluator, 0nat)],
        Seq::empty(),
        domain,
        tolerance,
        max_depth,
        capacity,
        (crate::dyadic::two_pow((max_depth + 1) as nat) - 1) as nat,
    )
}

/// `list` and `found` hold the same intervals.
pub open spec fn same_intervals(list: Seq<RootInterval>, found: Seq<RootInterval>) -> bool {
    &&& forall|i: int| 0 <= i < list.len() ==> interval_listed(found, (#[trigger] list[i]).interval)
    &&& forall|j: int| 0 <= j < found.len() ==> interval_listed(list, (#[trigger] found[j]).interval)
}

/// What the search owes: the outcome it stops with, or, when every cell is
/// settled, `CertifiedNone` without recorded roots and otherwise a root list
/// holding exactly the recorded intervals.
pub open spec fn search_answer(
    search: (Option<Result<RootOutcome, NumericError>>, Seq<RootInterval>),
    r: Result<RootOutcome, NumericError>,
) -> bool {
    match search.0 {
        Some(outcome) => r == outcome,
        None => if search.1.len() == 0 {
            r == Ok::<RootOutcome, NumericError>(RootOutcome::CertifiedNone)
        } else {
            r matches Ok(RootOutcome::Roots { roots, count }) && same_intervals(
                roots@.subrange(0, count as int),
                search.1,
            )
        },
    }
}

/// The view of a pending cell.
spec fn cell_view(c: Cell) -> (Iv32, RootEvaluator, nat) {
    (c.q, c.evaluator, c.depth as nat)
}

spec fn cells_view(s: Seq<Cell>) -> Seq<(Iv32, RootEvaluator, nat)> {
    s.map_values(|c: Cell| cell_view(c))
}

proof fn lemma_cells_view_push(s: Seq<Cell>, c: Cell)
    ensures
        cells_view(s.push(c)) == cells_view(s).push(cell_view(c)),
        cells_view(s).len() == s.len(),
{
    assert(cells_view(s.push(c)) =~= cells_view(s).push(cell_view(c)));
}

/// A Bernstein form is determined by its degree and coefficients.
proof fn lemma_bernstein_with(b: Bernstein)
    ensures
        bernstein_with(b.degree, b.coefficients@) == b,
{
    let c = bernstein_with(b.degree, b.coefficients@);
    assert(c.degree == b.degree && c.coefficients@ == b.coefficients@);
    vstd::array::axiom_array_ext_equal(c.coefficients, b.coefficients);
    assert(c.coefficients == b.coefficients);
}

/// With fuel left, a search from a pending stack takes one step.
proof fn lemma_run_unfold(
    stack: Seq<(Iv32, RootEvaluator, nat)>,
    roots: Seq<RootInterval>,
    domain: FixedDomain,
    tolerance: int,
    max_depth: int,
    capacity: int,
    fuel: nat,
)
    requires
        stack.len() > 0,
        fuel > 0,
    ensures
        search_run(stack, roots, domain, tolerance, max_depth, capacity, fuel) == (match search_step(
            stack,
            roots,
            domain,
            tolerance,
            max_depth,
            capacity,
        ).0 {
            Some(outcome) => (Some(outcome), search_step(stack, roots, domain, tolerance, max_depth, capacity).2),
            None => search_run(
                search_step(stack, roots, domain, tolerance, max_depth, capacity).1,
                search_step(stack, roots, domain, tolerance, max_depth, capacity).2,
                domain,
                tolerance,
                max_depth,
                capacity,
                (fuel - 1) as nat,
            ),
        }),
{
}

/// Sorting keeps the roots and merging keeps their intervals, so the listed
/// roots hold exactly the collected intervals.
proof fn lemma_same_intervals(
    collected: Seq<RootInterval>,
    sorted: Seq<RootInterval>,
    merged: Seq<RootInterval>,
    listed: Seq<RootInterval>,
)
    requires
        sorted.to_multiset() == collected.to_multiset(),
        forall|a: int| 0 <= a < sorted.len() ==> interval_listed(merged, (#[trigger] sorted[a]).interval),
        forall|b: int| 0 <= b < merged.len() ==> interval_listed(sorted, (#[trigger] merged[b]).interval),
        listed.len() == merged.len(),
        forall|b: int| 0 <= b < listed.len() ==> listed[b] == merged[b],
    ensures
        same_intervals(listed, collected),
{
    broadcast use vstd::seq_lib::to_multiset_contains;

    assert forall|i: int| 0 <= i < listed.len() implies interval_listed(
        collected,
        (#[trigger] listed[i]).interval,
    ) by {
        assert(interval_listed(sorted, merged[i].interval));
        let m = choose|m: int| 0 <= m < sorted.len() && #[trigger] sorted[m].interval == merged[i].interval;
        assert(sorted.contains(sorted[m]));
        assert(collected.to_multiset().count(sorted[m]) > 0);
        assert(collected.contains(sorted[m]));
        let j = choose|j: int| 0 <= j < collected.len() && collected[j] == sorted[m];
        assert(collected[j].interval == listed[i].interval);
    }
    assert forall|j: int| 0 <= j < collected.len() implies interval_listed(
        listed,
        (#[trigger] collected[j]).interval,
    ) by {
        assert(collected.contains(collected[j]));
        assert(sorted.to_multiset().count(collected[j]) > 0);
        assert(sorted.contains(collected[j]));
        let m = choose|m: int| 0 <= m < sorted.len() && sorted[m] == collected[j];
        assert(interval_listed(merged, sorted[m].interval));
        let b = choose|b: int| 0 <= b < merged.len() && #[trigger] merged[b].interval == sorted[m].interval;
        assert(listed[b] == merged[b]);
    }
}

proof fn lemma_chain_keeps_taylor(path: Seq<(RootEvaluator, Iv32)>, domain: FixedDomain, i: int)
    requires
        halving_chain(path, domain),
        0 <= i < path.len(),
        path[0].0.is_taylor(),
    ensures
        path[i].0 == path[0].0,
    decreases i,
{
    if i > 0 {
        lemma_chain_keeps_taylor(path, domain, i - 1);
        assert(halves(path[i - 1].0, path[i - 1].1, path[i].0, path[i].1, domain));
    }
}

/// Halving never changes a Taylor evaluator.
proof fn lemma_derived_taylor(
    e0: RootEvaluator,
    q0: Iv32,
    domain: FixedDomain,
    e: RootEvaluator,
    q: Iv32,
    depth: nat,
)
    requires
        derived(e0, q0, domain, e, q, depth),
        e0.is_taylor(),
    ensures
        e == e0,
{
    let path = choose|path: Seq<(RootEvaluator, Iv32)>|
        {
            &&& #[trigger] path.len() == depth + 1
            &&& path[0] == (e0, q0)
            &&& path.last() == (e, q)
            &&& halving_chain(path, domain)
        };
    lemma_chain_keeps_taylor(path, domain, path.len() - 1);
}

/// The value, in raw units, of a Taylor model at the rational point `x`:
/// the polynomial with the rational coefficients `values`, plus the
/// remainder value `rest`.
pub open spec fn taylor_model_value(
    values: Seq<(int, int)>,
    rest: (int, int),
    x: (int, int),
    domain: FixedDomain,
) -> (int, int) {
    let v = exact_horner(values, x, domain.exponent as int, values.len());
    (v.0 * rest.1 + rest.0 * v.1, v.1 * rest.1)
}

/// No zero of a Taylor model is lost: for any coefficient values held by the
/// polynomial's intervals and any remainder value held by the remainder
/// interval, a rational point of the domain where the model vanishes lies in
/// one of the roots that a covering search recorded. With no roots recorded
/// (a certified empty answer), the model has no zero in the domain.
pub proof fn taylor_zeros_are_kept(
    polynomial: Polynomial,
    remainder: Iv32,
    q0: Iv32,
    domain: FixedDomain,
    roots: Seq<RootInterval>,
    values: Seq<(int, int)>,
    rest: (int, int),
    x: (int, int),
)
    requires
        polynomial.wf(),
        search_covers(RootEvaluator::IntervalTaylor { polynomial, remainder }, q0, domain, roots),
        values.len() == polynomial.degree + 1,
        forall|i: int|
            0 <= i < values.len() ==> (#[trigger] values[i]).1 > 0 && encloses_ratio(
                polynomial.coefficients@[i],
                values[i].0,
                values[i].1,
            ),
        rest.1 > 0,
        encloses_ratio(remainder, rest.0, rest.1),
        holds_point(q0, x),
        taylor_model_value(values, rest, x, domain).0 == 0,
    ensures
        root_holds(roots, x),
{
    let e0 = RootEvaluator::IntervalTaylor { polynomial, remainder };
    let leaves = choose|leaves: Seq<(Iv32, RootEvaluator, nat)>|
        {
            &&& #[trigger] leaves_derived(e0, q0, domain, leaves)
            &&& forall|y: (int, int)|
                holds_point(q0, y) ==> #[trigger] leaf_rules_out(domain, leaves, y) || root_holds(
                    roots,
                    y,
                )
        };
    if leaf_rules_out(domain, leaves, x) {
        let k = choose|k: int| 0 <= k < leaves.len() && #[trigger] excludes_root(leaves[k].1, leaves[k].0, domain, x);
        let (q, e, depth) = leaves[k];
        assert(derived(e0, q0, domain, e, q, depth));
        lemma_derived_taylor(e0, q0, domain, e, q, depth);
        evaluation_encloses(polynomial, q, domain, values, x);
        let exact = exact_horner(values, x, domain.exponent as int, values.len());
        let v = polynomial.spec_evaluate(q, domain)->Ok_0;
        interval_arithmetic_encloses_ratios(v, remainder, domain, exact.0, exact.1, rest.0, rest.1);
        let range = taylor_range(polynomial, q, remainder, domain)->Ok_0;
        let d = exact.1 * rest.1;
        assert(range.lo * d <= 0 <= range.hi * d);
        assert(range.lo <= 0 <= range.hi) by (nonlinear_arith)
            requires
                range.lo * d <= 0 <= range.hi * d,
                d > 0,
        ;
        assert(false);
    }
}

/// Every raw position of `q0` is in a pending stack cell, ruled out by a leaf
/// or held by a recorded root.
spec fn covered(
    q0: Iv32,
    domain: FixedDomain,
    stack: Seq<Cell>,
    leaves: Seq<(Iv32, RootEvaluator, nat)>,
    roots: Seq<RootInterval>,
) -> bool {
    forall|x: (int, int)|
        holds_point(q0, x) ==> (exists|j: int|
            0 <= j < stack.len() && #[trigger] holds_point(stack[j].q, x)) || leaf_rules_out(
            domain,
            leaves,
            x,
        ) || root_holds(roots, x)
}

/// Coverage carries over from a state with one popped cell `c` to a later
/// state that keeps the other pending cells, keeps the leaves and every
/// root interval, and accounts for every position of `c`.
proof fn lemma_cover_transfer(
    q0: Iv32,
    domain: FixedDomain,
    stack: Seq<Cell>,
    leaves: Seq<(Iv32, RootEvaluator, nat)>,
    roots: Seq<RootInterval>,
    c: Cell,
    stack2: Seq<Cell>,
    leaves2: Seq<(Iv32, RootEvaluator, nat)>,
    roots2: Seq<RootInterval>,
)
    requires
        covered(q0, domain, stack.push(c), leaves, roots),
        stack.len() <= stack2.len(),
        forall|j: int| 0 <= j < stack.len() ==> stack2[j] == stack[j],
        leaves.len() <= leaves2.len(),
        forall|k: int| 0 <= k < leaves.len() ==> leaves2[k] == leaves[k],
        forall|i: int| 0 <= i < roots.len() ==> interval_listed(roots2, (#[trigger] roots[i]).interval),
        forall|x: (int, int)|
            #[trigger] holds_point(c.q, x) ==> (exists|j: int|
                0 <= j < stack2.len() && #[trigger] holds_point(stack2[j].q, x)) || leaf_rules_out(
                domain,
                leaves2,
                x,
            ) || root_holds(roots2, x),
    ensures
        covered(q0, domain, stack2, leaves2, roots2),
{
    let full = stack.push(c);
    assert forall|x: (int, int)| holds_point(q0, x) implies (exists|j: int|
        0 <= j < stack2.len() && #[trigger] holds_point(stack2[j].q, x)) || leaf_rules_out(
        domain,
        leaves2,
        x,
    ) || root_holds(roots2, x) by {
        if exists|j: int| 0 <= j < full.len() && #[trigger] holds_point(full[j].q, x) {
            let j = choose|j: int| 0 <= j < full.len() && #[trigger] holds_point(full[j].q, x);
            if j < stack.len() {
                assert(stack2[j] == full[j]);
                assert(holds_point(stack2[j].q, x));
            } else {
                assert(holds_point(c.q, x));
            }
        } else if leaf_rules_out(domain, leaves, x) {
            let k = choose|k: int|
                0 <= k < leaves.len() && #[trigger] excludes_root(leaves[k].1, leaves[k].0, domain, x);
            assert(leaves2[k] == leaves[k]);
            assert(excludes_root(leaves2[k].1, leaves2[k].0, domain, x));
        } else {
            assert(root_holds(roots, x));
            let i = choose|i: int| 0 <= i < roots.len() && #[trigger] holds_point(roots[i].interval, x);
            assert(interval_listed(roots2, roots[i].interval));
            let j = choose|j: int| 0 <= j < roots2.len() && #[trigger] roots2[j].interval == roots[i].interval;
            assert(holds_point(roots2[j].interval, x));
        }
    }
}

/// Retiring a popped cell as a leaf keeps coverage, when each of its
/// positions is ruled out by its evaluator or held by a (new) root interval.
proof fn lemma_leaf_push(
    e0: RootEvaluator,
    q0: Iv32,
    domain: FixedDomain,
    stack: Seq<Cell>,
    leaves: Seq<(Iv32, RootEvaluator, nat)>,
    roots: Seq<RootInterval>,
    roots2: Seq<RootInterval>,
    c: Cell,
)
    requires
        covered(q0, domain, stack.push(c), leaves, roots),
        leaves_derived(e0, q0, domain, leaves),
        derived(e0, q0, domain, c.evaluator, c.q, c.depth as nat),
        forall|i: int| 0 <= i < roots.len() ==> interval_listed(roots2, (#[trigger] roots[i]).interval),
        forall|x: (int, int)|
            #[trigger] holds_point(c.q, x) ==> excludes_root(c.evaluator, c.q, domain, x) || root_holds(
                roots2,
                x,
            ),
    ensures
        covered(q0, domain, stack, leaves.push((c.q, c.evaluator, c.depth as nat)), roots2),
        leaves_derived(e0, q0, domain, leaves.push((c.q, c.evaluator, c.depth as nat))),
{
    let leaf = (c.q, c.evaluator, c.depth as nat);
    let leaves2 = leaves.push(leaf);
    assert forall|k: int| 0 <= k < leaves2.len() implies derived(
        e0,
        q0,
        domain,
        (#[trigger] leaves2[k]).1,
        leaves2[k].0,
        leaves2[k].2,
    ) by {
        if k < leaves.len() {
            assert(leaves2[k] == leaves[k]);
        }
    }
    assert forall|x: (int, int)| #[trigger] holds_point(c.q, x) implies (exists|j: int|
        0 <= j < stack.len() && #[trigger] holds_point(stack[j].q, x)) || leaf_rules_out(
        domain,
        leaves2,
        x,
    ) || root_holds(roots2, x) by {
        if excludes_root(c.evaluator, c.q, domain, x) {
            assert(leaves2[leaves.len() as int] == leaf);
            assert(excludes_root(leaves2[leaves.len() as int].1, leaves2[leaves.len() as int].0, domain, x));
        }
    }
    lemma_cover_transfer(q0, domain, stack, leaves, roots, c, stack, leaves2, roots2);
}

/// Listing is transitive through an intermediate root list.
proof fn lemma_listed_chain(a: Seq<RootInterval>, b: Seq<RootInterval>, c: Seq<RootInterval>)
    requires
        forall|i: int| 0 <= i < a.len() ==> interval_listed(b, (#[trigger] a[i]).interval),
        forall|i: int| 0 <= i < b.len() ==> interval_listed(c, (#[trigger] b[i]).interval),
    ensures
        forall|i: int| 0 <= i < a.len() ==> interval_listed(c, (#[trigger] a[i]).interval),
{
    assert forall|i: int| 0 <= i < a.len() implies interval_listed(c, (#[trigger] a[i]).interval) by {
        assert(interval_listed(b, a[i].interval));
        let j = choose|j: int| 0 <= j < b.len() && #[trigger] b[j].interval == a[i].interval;
        assert(interval_listed(c, b[j].interval));
    }
}

/// Every root interval is listed among the same roots.
proof fn lemma_listed_self(a: Seq<RootInterval>)
    ensures
        forall|i: int| 0 <= i < a.len() ==> interval_listed(a, (#[trigger] a[i]).interval),
{
    assert forall|i: int| 0 <= i < a.len() implies interval_listed(a, (#[trigger] a[i]).interval) by {
        assert(a[i].interval == a[i].interval);
    }
}

proof fn lemma_measure_push(stack: Seq<Cell>, c: Cell, max_depth: int)
    ensures
        stack_measure(stack.push(c), max_depth) == stack_measure(stack, max_depth) + cell_weight(
            c.depth as int,
            max_depth,
        ),
{
    assert(stack.push(c).drop_last() =~= stack);
}

pub fn isolate_all_roots(
    polynomial: Bernstein,
    q_domain: Iv32,
    domain: FixedDomain,
    tolerance_raw: u32,
    max_depth: u8,
    root_capacity: u16,
) -> (r: Result<RootOutcome, NumericError>)
    requires
        polynomial.wf(),
    ensures
        params_invalid(tolerance_raw, max_depth, root_capacity) ==> r == Err::<
            RootOutcome,
            NumericError,
        >(NumericError::InvalidDomain),
        !params_invalid(tolerance_raw, max_depth, root_capacity) && q_domain.lo >= q_domain.hi
            ==> r == Err::<RootOutcome, NumericError>(NumericError::InvalidInterval),
        !params_invalid(tolerance_raw, max_depth, root_capacity) && q_domain.lo < q_domain.hi
            && polynomial.degree == 0 ==> r == Err::<RootOutcome, NumericError>(
            NumericError::UnsupportedShape,
        ),
        !params_invalid(tolerance_raw, max_depth, root_capacity) && q_domain.lo < q_domain.hi
            && polynomial.degree != 0 && RootEvaluator::Bernstein(polynomial).spec_is_zero() ==> r
            == Ok::<RootOutcome, NumericError>(RootOutcome::Unresolved(RootReason::DegenerateZero)),
        !params_invalid(tolerance_raw, max_depth, root_capacity) && q_domain.lo < q_domain.hi
            && polynomial.degree != 0 && !RootEvaluator::Bernstein(polynomial).spec_is_zero()
            && q_domain.check_in(domain) is Err ==> r == Err::<RootOutcome, NumericError>(
            q_domain.check_in(domain)->Err_0,
        ),
        r matches Ok(RootOutcome::Roots { roots, count }) ==> well_ordered_roots(
            roots@,
            count as int,
            q_domain,
            root_capacity as int,
        ),
        r == Ok::<RootOutcome, NumericError>(RootOutcome::CertifiedNone) ==> search_covers(
            RootEvaluator::Bernstein(polynomial),
            q_domain,
            domain,
            Seq::empty(),
        ),
        r matches Ok(RootOutcome::Roots { roots, count }) ==> search_covers(
            RootEvaluator::Bernstein(polynomial),
            q_domain,
            domain,
            roots@.subrange(0, count as int),
        ),
        r != Ok::<RootOutcome, NumericError>(RootOutcome::Unresolved(RootReason::Numeric)),
        !params_invalid(tolerance_raw, max_depth, root_capacity) && q_domain.lo < q_domain.hi
            && polynomial.degree != 0 && !RootEvaluator::Bernstein(polynomial).spec_is_zero()
            && q_domain.check_in(domain) is Ok ==> search_answer(
            root_search(
                RootEvaluator::Bernstein(polynomial),
                q_domain,
                domain,
                tolerance_raw as int,
                max_depth as int,
                root_capacity as int,
            ),
            r,
        ),
{
    isolate_roots(
        RootEvaluator::Bernstein(polynomial),
        q_domain,
        domain,
        tolerance_raw,
        max_depth,
        root_capacity,
    )
}

#[verifier::rlimit(100)]
#[verifier::spinoff_prover]
#[verifier::loop_isolation(false)]
pub fn isolate_roots(
    evaluator: RootEvaluator,
    q_domain: Iv32,
    domain: FixedDomain,
    tolerance_raw: u32,
    max_depth: u8,
    root_capacity: u16,
) -> (r: Result<RootOutcome, NumericError>)
    requires
        evaluator.wf(),
    ensures
        params_invalid(tolerance_raw, max_depth, root_capacity) ==> r == Err::<
            RootOutcome,
            NumericError,
        >(NumericError::InvalidDomain),
        !params_invalid(tolerance_raw, max_depth, root_capacity) && q_domain.lo >= q_domain.hi
            ==> r == Err::<RootOutcome, NumericError>(NumericError::InvalidInterval),
        !params_invalid(tolerance_raw, max_depth, root_capacity) && q_domain.lo < q_domain.hi
            && evaluator.is_constant_bernstein() ==> r == Err::<RootOutcome, NumericError>(
            NumericError::UnsupportedShape,
        ),
        !params_invalid(tolerance_raw, max_depth, root_capacity) && q_domain.lo < q_domain.hi
            && !evaluator.is_constant_bernstein()
            && evaluator.spec_is_zero() ==> r == Ok::<RootOutcome, NumericError>(
            RootOutcome::Unresolved(RootReason::DegenerateZero),
        ),
        !params_invalid(tolerance_raw, max_depth, root_capacity) && q_domain.lo < q_domain.hi
            && !evaluator.is_constant_bernstein()
            && !evaluator.spec_is_zero() && q_domain.check_in(domain) is Err ==> r == Err::<
            RootOutcome,
            NumericError,
        >(q_domain.check_in(domain)->Err_0),
        r matches Ok(RootOutcome::Roots { roots, count }) ==> well_ordered_roots(
            roots@,
            count as int,
            q_domain,
            root_capacity as int,
        ),
        r matches Ok(RootOutcome::Roots { roots, count }) ==> (evaluator.is_taylor() ==> forall|
            i: int,
        |
            0 <= i < count ==> !roots@[i].unique),
        r == Ok::<RootOutcome, NumericError>(RootOutcome::CertifiedNone) ==> search_covers(
            evaluator,
            q_domain,
            domain,
            Seq::empty(),
        ),
        r matches Ok(RootOutcome::Roots { roots, count }) ==> search_covers(
            evaluator,
            q_domain,
            domain,
            roots@.subrange(0, count as int),
        ),
        r == Ok::<RootOutcome, NumericError>(RootOutcome::Unresolved(RootReason::Numeric))
            ==> taylor_failed(evaluator, q_domain, domain),
        !params_invalid(tolerance_raw, max_depth, root_capacity) && q_domain.lo < q_domain.hi
            && !evaluator.is_constant_bernstein() && !evaluator.spec_is_zero()
            && q_domain.check_in(domain) is Ok ==> search_answer(
            root_search(
                evaluator,
                q_domain,
                domain,
                tolerance_raw as int,
                max_depth as int,
                root_capacity as int,
            ),
            r,
        ),
{
    if tolerance_raw == 0 || root_capacity == 0 || root_capacity as usize > MAX_ROOTS
        || max_depth == 0 || max_depth > 15 {
        return Err(NumericError::InvalidDomain);
    }
    if q_domain.lo >= q_domain.hi {
        return Err(NumericError::InvalidInterval);
    }
    match evaluator {
        RootEvaluator::Bernstein(polynomial) => {
            if polynomial.degree == 0 {
                return Err(NumericError::UnsupportedShape);
            }
        },
        _ => {},
    }
    if evaluator_is_identically_zero(evaluator) {
        return Ok(RootOutcome::Unresolved(RootReason::DegenerateZero));
    }
    q_domain.intersect(q_domain, domain)?;
    let ghost taylor = evaluator.is_taylor();
    let ghost md = max_depth as int;
    let mut stack: Vec<Cell> = Vec::new();
    stack.push(Cell { q: q_domain, evaluator, depth: 0 });
    let mut roots: Vec<RootInterval> = Vec::new();
    let ghost mut leaves: Seq<(Iv32, RootEvaluator, nat)> = Seq::empty();
    let ghost tol = tolerance_raw as int;
    let ghost cap = root_capacity as int;
    let ghost mut fuel: nat = (crate::dyadic::two_pow((md + 1) as nat) - 1) as nat;
    proof {
        assert(cells_view(stack@) =~= seq![(q_domain, evaluator, 0nat)]);
        assert(stack@.drop_last() =~= Seq::<Cell>::empty());
        assert(stack_measure(stack@, md) == stack_measure(Seq::<Cell>::empty(), md) + cell_weight(0, md));
        let start = seq![(evaluator, q_domain)];
        assert(start.len() == 0 + 1);
        assert(start.last() == (evaluator, q_domain));
        assert(halving_chain(start, domain));
        assert(derived(evaluator, q_domain, domain, evaluator, q_domain, 0));
        assert(stack@[0] == Cell { q: q_domain, evaluator, depth: 0 });
        assert forall|x: (int, int)| holds_point(q_domain, x) implies (exists|j: int|
            0 <= j < stack@.len() && #[trigger] holds_point(stack@[j].q, x)) || leaf_rules_out(
            domain,
            leaves,
            x,
        ) || root_holds(roots@, x) by {
            assert(holds_point(stack@[0].q, x));
        }
    }
    while stack.len() != 0
        invariant
            forall|i: int|
                0 <= i < stack@.len() ==> derived(
                    evaluator,
                    q_domain,
                    domain,
                    (#[trigger] stack@[i]).evaluator,
                    stack@[i].q,
                    stack@[i].depth as nat,
                ),
            forall|i: int|
                0 <= i < stack@.len() ==> (taylor ==> (#[trigger] stack@[i]).evaluator == evaluator),
            forall|i: int|
                0 <= i < stack@.len() ==> (#[trigger] stack@[i]).evaluator.is_taylor() == taylor,
            leaves_derived(evaluator, q_domain, domain, leaves),
            covered(q_domain, domain, stack@, leaves, roots@),
            1 <= max_depth <= 15,
            md == max_depth,
            taylor == evaluator.is_taylor(),
            1 <= root_capacity <= MAX_ROOTS,
            stack@.len() <= MAX_STACK,
            roots@.len() <= root_capacity,
            forall|i: int| 0 <= i < stack@.len() ==> cell_ok(#[trigger] stack@[i], q_domain, md, taylor),
            roots_ok(roots@, q_domain, taylor),
            root_search(evaluator, q_domain, domain, tol, md, cap) == search_run(
                cells_view(stack@),
                roots@,
                domain,
                tol,
                md,
                cap,
                fuel,
            ),
            stack_measure(stack@, md) <= fuel,
            tol == tolerance_raw,
            cap == root_capacity,
        decreases stack_measure(stack@, md),
    {
        let ghost before = stack@;
        let cell = stack.pop().unwrap();
        proof {
            assert(before == stack@.push(cell));
            lemma_measure_push(stack@, cell, md);
            assert(cell_ok(before[before.len() - 1], q_domain, md, taylor));
            crate::dyadic::lemma_two_pow_pos((md + 1 - cell.depth) as nat);
            assert(derived(evaluator, q_domain, domain, before[before.len() - 1].evaluator, before[before.len() - 1].q, before[before.len() - 1].depth as nat));
            assert(taylor ==> before[before.len() - 1].evaluator == evaluator);
            assert(before[before.len() - 1].evaluator.is_taylor() == taylor);
            lemma_listed_self(roots@);
        }
        let ghost popped = stack@;
        let ghost view = cells_view(before);
        let ghost roots_before = roots@;
        let ghost step = search_step(view, roots_before, domain, tol, md, cap);
        proof {
            lemma_cells_view_push(popped, cell);
            assert(view.last() == cell_view(cell));
            assert(view.drop_last() =~= cells_view(popped));
            let k = (md - cell.depth) as nat;
            crate::dyadic::lemma_two_pow_pos(k);
            assert(crate::dyadic::two_pow(k + 1) == 2 * crate::dyadic::two_pow(k));
            assert((md + 1 - cell.depth) as nat == k + 1);
            assert(fuel > 0);
            lemma_run_unfold(view, roots_before, domain, tol, md, cap, fuel);
        }
        let mut variation = SignVariation::Inconclusive;
        let mut lo_zero = false;
        let mut hi_zero = false;
        match cell.evaluator {
            RootEvaluator::Bernstein(polynomial) => {
                match polynomial.sign() {
                    CoefficientSign::StrictPositive => {
                        proof {
                            lemma_leaf_push(evaluator, q_domain, domain, stack@, leaves, roots@, roots@, cell);
                            leaves = leaves.push((cell.q, cell.evaluator, cell.depth as nat));
                            assert(step == (None::<Result<RootOutcome, NumericError>>, cells_view(stack@), roots@));
                            fuel = (fuel - 1) as nat;
                        }
                        continue;
                    },
                    CoefficientSign::StrictNegative => {
                        proof {
                            lemma_leaf_push(evaluator, q_domain, domain, stack@, leaves, roots@, roots@, cell);
                            leaves = leaves.push((cell.q, cell.evaluator, cell.depth as nat));
                            assert(step == (None::<Result<RootOutcome, NumericError>>, cells_view(stack@), roots@));
                            fuel = (fuel - 1) as nat;
                        }
                        continue;
                    },
                    CoefficientSign::Mixed => {},
                }
                let degree: usize = polynomial.degree as usize;
                variation = polynomial.sign_variations();
                lo_zero = polynomial.coefficients[0].lo == 0 && polynomial.coefficients[0].hi == 0;
                hi_zero = polynomial.coefficients[degree].lo == 0
                    && polynomial.coefficients[degree].hi == 0;
            },
            RootEvaluator::IntervalTaylor { polynomial, remainder } => {
                let range = match taylor_with_remainder(polynomial, cell.q, remainder, domain) {
                    Ok(range) => range,
                    Err(_) => {
                        proof {
                            assert(derived(evaluator, q_domain, domain, evaluator, cell.q, cell.depth as nat));
                            assert(step.0 == Some(Ok::<RootOutcome, NumericError>(RootOutcome::Unresolved(RootReason::Numeric))));
                        }
                        return Ok(RootOutcome::Unresolved(RootReason::Numeric));
                    },
                };
                if range.lo > 0 || range.hi < 0 {
                    proof {
                        lemma_leaf_push(evaluator, q_domain, domain, stack@, leaves, roots@, roots@, cell);
                        leaves = leaves.push((cell.q, cell.evaluator, cell.depth as nat));
                        assert(step == (None::<Result<RootOutcome, NumericError>>, cells_view(stack@), roots@));
                        fuel = (fuel - 1) as nat;
                    }
                    continue;
                }
            },
        }
        let exact_zero = match variation {
            SignVariation::Exact(v) => v == 0,
            SignVariation::Inconclusive => false,
        };
        proof {
            assert(step == search_open_cell(
                cell_view(cell),
                cells_view(popped),
                roots_before,
                variation,
                lo_zero,
                hi_zero,
                domain,
                tol,
                md,
                cap,
            ));
        }
        if exact_zero {
            let ghost roots0 = roots@;
            if lo_zero {
                if !record_root(
                    &mut roots,
                    root_capacity,
                    RootInterval { interval: Iv32::point(cell.q.lo), unique: false },
                    Ghost(q_domain),
                    Ghost(taylor),
                ) {
                    proof {
                        assert(step.0 == Some(Ok::<RootOutcome, NumericError>(RootOutcome::Unresolved(RootReason::CapacityRoots))));
                    }
                    return Ok(RootOutcome::Unresolved(RootReason::CapacityRoots));
                }
            }
            let ghost roots1 = roots@;
            proof {
                if !lo_zero {
                    lemma_listed_self(roots0);
                }
            }
            if hi_zero && cell.q.hi != cell.q.lo {
                if !record_root(
                    &mut roots,
                    root_capacity,
                    RootInterval { interval: Iv32::point(cell.q.hi), unique: false },
                    Ghost(q_domain),
                    Ghost(taylor),
                ) {
                    proof {
                        assert(step.0 == Some(Ok::<RootOutcome, NumericError>(RootOutcome::Unresolved(RootReason::CapacityRoots))));
                    }
                    return Ok(RootOutcome::Unresolved(RootReason::CapacityRoots));
                }
            }
            proof {
                let roots2 = roots@;
                if !(hi_zero && cell.q.hi != cell.q.lo) {
                    lemma_listed_self(roots1);
                }
                lemma_listed_chain(roots0, roots1, roots2);
                if lo_zero {
                    assert(interval_listed(roots1, Iv32 { lo: cell.q.lo, hi: cell.q.lo }));
                    let j = choose|j: int| 0 <= j < roots1.len() && #[trigger] roots1[j].interval == Iv32 { lo: cell.q.lo, hi: cell.q.lo };
                    assert(interval_listed(roots2, roots1[j].interval));
                }
                assert forall|x: (int, int)| #[trigger] holds_point(cell.q, x) implies excludes_root(
                    cell.evaluator,
                    cell.q,
                    domain,
                    x,
                ) || root_holds(roots2, x) by {
                    if !excludes_root(cell.evaluator, cell.q, domain, x) {
                        if x.0 == cell.q.lo * x.1 && lo_zero {
                            let j = choose|j: int| 0 <= j < roots2.len() && #[trigger] roots2[j].interval == Iv32 { lo: cell.q.lo, hi: cell.q.lo };
                            assert(holds_point(roots2[j].interval, x));
                        } else {
                            assert(x.0 == cell.q.hi * x.1 && hi_zero);
                            assert(interval_listed(roots2, Iv32 { lo: cell.q.hi, hi: cell.q.hi }));
                            let j = choose|j: int| 0 <= j < roots2.len() && #[trigger] roots2[j].interval == Iv32 { lo: cell.q.hi, hi: cell.q.hi };
                            assert(holds_point(roots2[j].interval, x));
                        }
                    }
                }
                lemma_leaf_push(evaluator, q_domain, domain, stack@, leaves, roots0, roots2, cell);
                leaves = leaves.push((cell.q, cell.evaluator, cell.depth as nat));
                assert(step == (None::<Result<RootOutcome, NumericError>>, cells_view(stack@), roots@));
                fuel = (fuel - 1) as nat;
            }
            continue;
        }
        let width = match cell.q.width_raw() {
            Ok(w) => w,
            Err(e) => {
                proof {
                    assert(false);
                }
                return Err(e);
            },
        };
        let endpoint_roots: u8 = (if lo_zero {
            1u8
        } else {
            0u8
        }) + (if hi_zero && cell.q.hi != cell.q.lo {
            1u8
        } else {
            0u8
        });
        let terminal_is_complete = match variation {
            SignVariation::Exact(root_count) => root_count as u16 + endpoint_roots as u16 <= 1,
            SignVariation::Inconclusive => true,
        };
        if width <= tolerance_raw && terminal_is_complete {
            let unique = match variation {
                SignVariation::Exact(v) => v == 1 && endpoint_roots == 0,
                SignVariation::Inconclusive => false,
            };
            let ghost roots0 = roots@;
            if !record_root(
                &mut roots,
                root_capacity,
                RootInterval { interval: cell.q, unique },
                Ghost(q_domain),
                Ghost(taylor),
            ) {
                proof {
                    assert(step.0 == Some(Ok::<RootOutcome, NumericError>(RootOutcome::Unresolved(RootReason::CapacityRoots))));
                }
                return Ok(RootOutcome::Unresolved(RootReason::CapacityRoots));
            }
            proof {
                let roots2 = roots@;
                assert(interval_listed(roots2, cell.q));
                let j = choose|j: int| 0 <= j < roots2.len() && #[trigger] roots2[j].interval == cell.q;
                assert forall|x: (int, int)| #[trigger] holds_point(cell.q, x) implies (exists|i: int|
                    0 <= i < stack@.len() && #[trigger] holds_point(stack@[i].q, x)) || leaf_rules_out(
                    domain,
                    leaves,
                    x,
                ) || root_holds(roots2, x) by {
                    assert(holds_point(roots2[j].interval, x));
                }
                lemma_cover_transfer(q_domain, domain, stack@, leaves, roots0, cell, stack@, leaves, roots2);
                assert(step == (None::<Result<RootOutcome, NumericError>>, cells_view(stack@), roots@));
                fuel = (fuel - 1) as nat;
            }
            continue;
        }
        if cell.depth >= max_depth {
            proof {
                assert(step.0 == Some(Ok::<RootOutcome, NumericError>(RootOutcome::Unresolved(RootReason::DepthExhausted))));
            }
            return Ok(RootOutcome::Unresolved(RootReason::DepthExhausted));
        }
        let span: i64 = cell.q.hi as i64 - cell.q.lo as i64;
        let midpoint_i64: i64 = cell.q.lo as i64 + span / 2;
        proof {
            assert(cell.q.lo <= midpoint_i64 <= cell.q.hi);
        }
        let midpoint: i32 = midpoint_i64 as i32;
        if midpoint <= cell.q.lo || midpoint >= cell.q.hi {
            proof {
                assert(step.0 == Some(Ok::<RootOutcome, NumericError>(RootOutcome::Unresolved(RootReason::NoProgress))));
            }
            return Ok(RootOutcome::Unresolved(RootReason::NoProgress));
        }
        let (left_evaluator, right_evaluator) = match cell.evaluator {
            RootEvaluator::Bernstein(polynomial) => {
                let numerator: u64 = (midpoint as i64 - cell.q.lo as i64) as u64;
                let denominator: u64 = span as u64;
                let (left, right) = match polynomial.subdivide_at(numerator, denominator, domain) {
                    Ok(halves) => halves,
                    Err(e) => {
                        proof {
                            assert(step.0 == Some(Err::<RootOutcome, NumericError>(e)));
                        }
                        return Err(e);
                    },
                };
                proof {
                    lemma_bernstein_with(left);
                    lemma_bernstein_with(right);
                }
                (RootEvaluator::Bernstein(left), RootEvaluator::Bernstein(right))
            },
            RootEvaluator::IntervalTaylor { polynomial, remainder } => (
                RootEvaluator::IntervalTaylor { polynomial, remainder },
                RootEvaluator::IntervalTaylor { polynomial, remainder },
            ),
        };
        if stack.len() + 2 > MAX_STACK {
            proof {
                assert(step.0 == Some(Ok::<RootOutcome, NumericError>(RootOutcome::Unresolved(RootReason::CapacitySheets))));
            }
            return Ok(RootOutcome::Unresolved(RootReason::CapacitySheets));
        }
        let left_cell = Cell {
            q: Iv32 { lo: cell.q.lo, hi: midpoint },
            evaluator: left_evaluator,
            depth: cell.depth + 1,
        };
        let right_cell = Cell {
            q: Iv32 { lo: midpoint, hi: cell.q.hi },
            evaluator: right_evaluator,
            depth: cell.depth + 1,
        };
        proof {
            let k = (md - cell.depth) as nat;
            assert((md + 1 - cell.depth) as nat == k + 1);
            assert((md + 1 - (cell.depth + 1)) as nat == k);
            assert(crate::dyadic::two_pow(k + 1) == 2 * crate::dyadic::two_pow(k));
            crate::dyadic::lemma_two_pow_pos(k);
            lemma_measure_push(stack@, left_cell, md);
            lemma_measure_push(stack@.push(left_cell), right_cell, md);
            assert(halves(cell.evaluator, cell.q, left_cell.evaluator, left_cell.q, domain));
            assert(halves(cell.evaluator, cell.q, right_cell.evaluator, right_cell.q, domain));
            let pd = cell.depth as nat;
            assert(left_cell.depth as nat == pd + 1);
            assert(right_cell.depth as nat == pd + 1);
            assert(derived(evaluator, q_domain, domain, cell.evaluator, cell.q, pd));
            lemma_derived_step(evaluator, q_domain, domain, cell.evaluator, cell.q, left_cell.evaluator, left_cell.q, pd);
            lemma_derived_step(evaluator, q_domain, domain, cell.evaluator, cell.q, right_cell.evaluator, right_cell.q, pd);
            assert(derived(evaluator, q_domain, domain, left_cell.evaluator, left_cell.q, left_cell.depth as nat));
            assert(derived(evaluator, q_domain, domain, right_cell.evaluator, right_cell.q, right_cell.depth as nat));
        }
        let ghost kept = stack@;
        stack.push(left_cell);
        stack.push(right_cell);
        proof {
            let grown = stack@;
            assert(grown[kept.len() as int] == left_cell);
            assert(grown[kept.len() + 1int] == right_cell);
            assert forall|x: (int, int)| #[trigger] holds_point(cell.q, x) implies (exists|i: int|
                0 <= i < grown.len() && #[trigger] holds_point(grown[i].q, x)) || leaf_rules_out(
                domain,
                leaves,
                x,
            ) || root_holds(roots@, x) by {
                if x.0 <= midpoint * x.1 {
                    assert(holds_point(grown[kept.len() as int].q, x));
                } else {
                    assert(holds_point(grown[kept.len() + 1int].q, x));
                }
            }
            lemma_listed_self(roots@);
            lemma_cover_transfer(q_domain, domain, kept, leaves, roots@, cell, grown, leaves, roots@);
            lemma_cells_view_push(kept, left_cell);
            lemma_cells_view_push(kept.push(left_cell), right_cell);
            assert(kept.push(left_cell).push(right_cell) == grown);
            assert(step == (None::<Result<RootOutcome, NumericError>>, cells_view(grown), roots@));
            fuel = (fuel - 1) as nat;
        }
    }
    proof {
        assert(search_run(cells_view(stack@), roots@, domain, tol, md, cap, fuel) == (None::<Result<RootOutcome, NumericError>>, roots@));
    }
    if roots.len() == 0 {
        proof {
            assert forall|x: (int, int)|
                holds_point(q_domain, x) implies #[trigger] leaf_rules_out(domain, leaves, x)
                || root_holds(Seq::<RootInterval>::empty(), x) by {
                assert(!root_holds(roots@, x));
            }
            assert(leaves_derived(evaluator, q_domain, domain, leaves));
        }
        return Ok(RootOutcome::CertifiedNone);
    }
    let ghost collected = roots@;
    sort_near_to_far(&mut roots, Ghost(q_domain), Ghost(taylor));
    proof {
        broadcast use vstd::seq_lib::to_multiset_contains;

        assert forall|x: (int, int)| holds_point(q_domain, x) implies #[trigger] leaf_rules_out(
            domain,
            leaves,
            x,
        ) || root_holds(roots@, x) by {
            if !leaf_rules_out(domain, leaves, x) {
                assert(root_holds(collected, x));
                let k = choose|k: int| 0 <= k < collected.len() && #[trigger] holds_point(collected[k].interval, x);
                assert(collected.contains(collected[k]));
                assert(roots@.to_multiset().count(collected[k]) > 0);
                assert(roots@.contains(collected[k]));
                let m = choose|m: int| 0 <= m < roots@.len() && roots@[m] == collected[k];
                assert(holds_point(roots@[m].interval, x));
            }
        }
    }
    let mut merged: Vec<RootInterval> = Vec::new();
    let mut i: usize = 0;
    while i < roots.len()
        invariant
            roots@.len() <= root_capacity <= MAX_ROOTS,
            i <= roots@.len(),
            merged@.len() <= i,
            i > 0 ==> merged@.len() > 0,
            i > 0 ==> merged@[merged@.len() - 1].interval == roots@[i - 1].interval,
            forall|a: int, b: int|
                0 <= a < b < roots@.len() ==> roots@[b].interval.lo <= roots@[a].interval.lo,
            forall|a: int|
                0 <= a < roots@.len() ==> q_domain.lo <= (#[trigger] roots@[a]).interval.lo
                    <= roots@[a].interval.hi <= q_domain.hi,
            taylor ==> forall|a: int| 0 <= a < roots@.len() ==> !roots@[a].unique,
            forall|a: int, b: int|
                0 <= a < b < merged@.len() ==> merged@[b].interval.lo <= merged@[a].interval.lo,
            forall|a: int|
                0 <= a < merged@.len() ==> q_domain.lo <= (#[trigger] merged@[a]).interval.lo
                    <= merged@[a].interval.hi <= q_domain.hi,
            forall|a: int| 0 <= a < merged@.len() - 1 ==> (#[trigger] merged@[a]).interval != merged@[a + 1].interval,
            taylor ==> forall|a: int| 0 <= a < merged@.len() ==> !merged@[a].unique,
            i > 0 ==> forall|a: int|
                0 <= a < merged@.len() ==> roots@[i - 1].interval.lo <= merged@[a].interval.lo,
            forall|a: int| 0 <= a < i ==> interval_listed(merged@, (#[trigger] roots@[a]).interval),
            forall|b: int| 0 <= b < merged@.len() ==> interval_listed(roots@, (#[trigger] merged@[b]).interval),
        decreases roots@.len() - i,
    {
        let root = roots[i];
        let len = merged.len();
        let ghost earlier = merged@;
        if len > 0 && merged[len - 1].interval.lo == root.interval.lo
            && merged[len - 1].interval.hi == root.interval.hi {
            let previous = merged[len - 1];
            merged.set(
                len - 1,
                RootInterval { interval: previous.interval, unique: previous.unique && root.unique },
            );
        } else {
            merged.push(root);
        }
        proof {
            assert forall|a: int| 0 <= a < i + 1 implies interval_listed(
                merged@,
                (#[trigger] roots@[a]).interval,
            ) by {
                if a < i {
                    assert(interval_listed(earlier, roots@[a].interval));
                    let b = choose|b: int| 0 <= b < earlier.len() && #[trigger] earlier[b].interval == roots@[a].interval;
                    assert(merged@[b].interval == earlier[b].interval);
                } else {
                    assert(merged@[merged@.len() - 1].interval == root.interval);
                }
            }
            assert forall|b: int| 0 <= b < merged@.len() implies interval_listed(
                roots@,
                (#[trigger] merged@[b]).interval,
            ) by {
                if b < earlier.len() {
                    assert(merged@[b].interval == earlier[b].interval);
                    assert(interval_listed(roots@, earlier[b].interval));
                } else {
                    assert(merged@[b].interval == roots@[i as int].interval);
                }
            }
        }
        i = i + 1;
    }
    let mut out = [empty_root_exec();16];
    let mut j: usize = 0;
    while j < merged.len()
        invariant
            merged@.len() <= MAX_ROOTS,
            j <= merged@.len(),
            out@.len() == MAX_ROOTS,
            forall|a: int| 0 <= a < j ==> out@[a] == merged@[a],
            forall|a: int| j <= a < MAX_ROOTS ==> out@[a] == empty_root(),
        decreases merged@.len() - j,
    {
        out[j] = merged[j];
        j = j + 1;
    }
    proof {
        let listed = out@.subrange(0, merged@.len() as int);
        assert forall|x: (int, int)| holds_point(q_domain, x) implies #[trigger] leaf_rules_out(
            domain,
            leaves,
            x,
        ) || root_holds(listed, x) by {
            if !leaf_rules_out(domain, leaves, x) {
                let k = choose|k: int| 0 <= k < roots@.len() && #[trigger] holds_point(roots@[k].interval, x);
                assert(interval_listed(merged@, roots@[k].interval));
                let b = choose|b: int| 0 <= b < merged@.len() && #[trigger] merged@[b].interval == roots@[k].interval;
                assert(listed[b] == merged@[b]);
                assert(holds_point(listed[b].interval, x));
            }
        }
        assert(leaves_derived(evaluator, q_domain, domain, leaves));
        lemma_same_intervals(collected, roots@, merged@, listed);
    }
    Ok(RootOutcome::Roots { roots: out, count: merged.len() as u16 })
}

fn empty_root_exec() -> (r: RootInterval)
    ensures
        r == empty_root(),
{
    RootInterval { interval: Iv32::point(0), unique: false }
}

/// Appends a root, merging it into an identical predecessor. Returns false
/// when the capacity is exhausted.
fn record_root(
    roots: &mut Vec<RootInterval>,
    capacity: u16,
    candidate: RootInterval,
    Ghost(q): Ghost<Iv32>,
    Ghost(taylor): Ghost<bool>,
) -> (r: bool)
    requires
        old(roots)@.len() <= capacity,
        roots_ok(old(roots)@, q, taylor),
        q.lo <= candidate.interval.lo <= candidate.interval.hi <= q.hi,
        taylor ==> !candidate.unique,
    ensures
        final(roots)@.len() <= capacity,
        roots_ok(final(roots)@, q, taylor),
        ({
            let before = old(roots)@;
            let n = before.len();
            if n > 0 && before[n - 1].interval.lo == candidate.interval.lo && before[n - 1].interval.hi
                == candidate.interval.hi {
                &&& r
                &&& final(roots)@ == before.update(
                    n - 1,
                    RootInterval {
                        interval: before[n - 1].interval,
                        unique: before[n - 1].unique && candidate.unique,
                    },
                )
            } else if n >= capacity {
                !r && final(roots)@ == before
            } else {
                r && final(roots)@ == before.push(candidate)
            }
        }),
        forall|i: int|
            0 <= i < old(roots)@.len() ==> interval_listed(final(roots)@, (#[trigger] old(roots)@[i]).interval),
        r ==> interval_listed(final(roots)@, candidate.interval),
        r == recorded(old(roots)@, capacity as int, candidate) is Some,
        r ==> final(roots)@ == recorded(old(roots)@, capacity as int, candidate)->Some_0,
        !r ==> final(roots)@ == old(roots)@,
{
    let ghost before = roots@;
    proof {
        assert forall|i: int| 0 <= i < before.len() implies interval_listed(
            before.push(candidate),
            (#[trigger] before[i]).interval,
        ) by {
            assert(before.push(candidate)[i] == before[i]);
        }
        assert(before.push(candidate)[before.len() as int] == candidate);
        if before.len() > 0 {
            let n = before.len() - 1;
            let merged = before.update(n, RootInterval { interval: before[n].interval, unique: before[n].unique && candidate.unique });
            assert forall|i: int| 0 <= i < before.len() implies interval_listed(
                merged,
                (#[trigger] before[i]).interval,
            ) by {
                assert(merged[i].interval == before[i].interval);
            }
            assert(merged[n].interval == before[n].interval);
        }
        assert forall|i: int| 0 <= i < before.len() implies interval_listed(
            before,
            (#[trigger] before[i]).interval,
        ) by {
            assert(before[i].interval == before[i].interval);
        }
    }
    let len = roots.len();
    if len > 0 && roots[len - 1].interval.lo == candidate.interval.lo && roots[len - 1].interval.hi
        == candidate.interval.hi {
        let previous = roots[len - 1];
        roots.set(
            len - 1,
            RootInterval {
                interval: previous.interval,
                unique: previous.unique && candidate.unique,
            },
        );
        return true;
    }
    if len >= capacity as usize {
        return false;
    }
    roots.push(candidate);
    true
}

/// Stable insertion sort by descending lower end.
fn sort_near_to_far(roots: &mut Vec<RootInterval>, Ghost(q): Ghost<Iv32>, Ghost(taylor): Ghost<bool>)
    requires
        forall|a: int|
            0 <= a < old(roots)@.len() ==> q.lo <= (#[trigger] old(roots)@[a]).interval.lo
                <= old(roots)@[a].interval.hi <= q.hi,
        taylor ==> forall|a: int| 0 <= a < old(roots)@.len() ==> !old(roots)@[a].unique,
    ensures
        final(roots)@.len() == old(roots)@.len(),
        forall|a: int, b: int|
            0 <= a < b < final(roots)@.len() ==> final(roots)@[b].interval.lo
                <= final(roots)@[a].interval.lo,
        forall|a: int|
            0 <= a < final(roots)@.len() ==> q.lo <= (#[trigger] final(roots)@[a]).interval.lo
                <= final(roots)@[a].interval.hi <= q.hi,
        taylor ==> forall|a: int| 0 <= a < final(roots)@.len() ==> !final(roots)@[a].unique,
        final(roots)@.to_multiset() == old(roots)@.to_multiset(),
{
    let ghost original = roots@;
    let n = roots.len();
    let mut index: usize = 1;
    while index < n
        invariant
            n == roots@.len(),
            roots@.to_multiset() == original.to_multiset(),
            1 <= index,
            forall|a: int, b: int|
                0 <= a < b < index && b < n ==> roots@[b].interval.lo <= roots@[a].interval.lo,
            forall|a: int|
                0 <= a < n ==> q.lo <= (#[trigger] roots@[a]).interval.lo <= roots@[a].interval.hi <= q.hi,
            taylor ==> forall|a: int| 0 <= a < n ==> !roots@[a].unique,
        decreases n - index,
    {
        let value = roots[index];
        let mut destination = index;
        proof {
            assert(roots@.update(index as int, value) =~= roots@);
        }
        while destination != 0 && roots[destination - 1].interval.lo < value.interval.lo
            invariant
                n == roots@.len(),
                index < n,
                destination <= index,
                roots@.update(destination as int, value).to_multiset() == original.to_multiset(),
                forall|a: int, b: int|
                    0 <= a < b <= index && b != destination && a != destination
                        ==> roots@[b].interval.lo <= roots@[a].interval.lo,
                forall|b: int|
                    destination < b <= index ==> value.interval.lo > roots@[b].interval.lo,
                q.lo <= value.interval.lo <= value.interval.hi <= q.hi,
                taylor ==> !value.unique,
                forall|a: int|
                    0 <= a < n ==> q.lo <= (#[trigger] roots@[a]).interval.lo <= roots@[a].interval.hi <= q.hi,
                taylor ==> forall|a: int| 0 <= a < n ==> !roots@[a].unique,
            decreases destination,
        {
            let moved = roots[destination - 1];
            let ghost before = roots@;
            roots.set(destination, moved);
            proof {
                let d = destination as int;
                let with_value = before.update(d, value);
                crate::arrange::lemma_swap_to_multiset(with_value, d - 1, d);
                assert(with_value.update(d - 1, with_value[d]).update(d, with_value[d - 1])
                    =~= roots@.update(d - 1, value));
            }
            destination = destination - 1;
        }
        roots.set(destination, value);
        index = index + 1;
    }
}

} // verus!
