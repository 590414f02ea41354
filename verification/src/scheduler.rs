//! Output-code refinement scheduler with exact integer priorities.
use vstd::prelude::*;

verus! {

#[derive(Clone, Copy, Debug, PartialEq, Eq, PartialOrd, Ord, Structural)]
pub enum ErrorSource {
    Visibility,
    Coverage,
    Normal,
    Material,
    Texture,
    DirectLight,
    Shadow,
    Ao,
    Gi,
    Transparency,
    Post,
    Temporal,
    Quantization,
}

#[derive(Clone, Copy, Debug, PartialEq, Eq, Structural)]
pub struct RefinementOption {
    pub source: ErrorSource,
    pub code_span_reduction: u64,
    pub operation_count: u64,
    pub remaining_depth: u16,
    pub interval_width: u64,
    pub payload_id: u32,
}

#[derive(Clone, Copy, Debug, PartialEq, Eq)]
pub enum RefinementResult {
    Singleton([u8; 3]),
    CertificateExhausted,
}

/// Position of a source in the declared order, which breaks priority ties.
pub open spec fn source_rank(source: ErrorSource) -> int {
    match source {
        ErrorSource::Visibility => 0,
        ErrorSource::Coverage => 1,
        ErrorSource::Normal => 2,
        ErrorSource::Material => 3,
        ErrorSource::Texture => 4,
        ErrorSource::DirectLight => 5,
        ErrorSource::Shadow => 6,
        ErrorSource::Ao => 7,
        ErrorSource::Gi => 8,
        ErrorSource::Transparency => 9,
        ErrorSource::Post => 10,
        ErrorSource::Temporal => 11,
        ErrorSource::Quantization => 12,
    }
}

fn same_code(a: [u8; 3], b: [u8; 3]) -> (r: bool)
    ensures
        r == (a == b),
{
    let equal = a[0] == b[0] && a[1] == b[1] && a[2] == b[2];
    proof {
        if equal {
            assert(a@ =~= b@);
            vstd::array::axiom_array_ext_equal(a, b);
        }
    }
    equal
}

fn rank(source: ErrorSource) -> (r: u8)
    ensures
        r == source_rank(source),
{
    match source {
        ErrorSource::Visibility => 0,
        ErrorSource::Coverage => 1,
        ErrorSource::Normal => 2,
        ErrorSource::Material => 3,
        ErrorSource::Texture => 4,
        ErrorSource::DirectLight => 5,
        ErrorSource::Shadow => 6,
        ErrorSource::Ao => 7,
        ErrorSource::Gi => 8,
        ErrorSource::Transparency => 9,
        ErrorSource::Post => 10,
        ErrorSource::Temporal => 11,
        ErrorSource::Quantization => 12,
    }
}

impl RefinementOption {
    pub open spec fn is_valid(self) -> bool {
        self.operation_count > 0 && self.remaining_depth > 0 && self.interval_width > 0
    }

    pub fn validate(self) -> (r: bool)
        ensures
            r == self.is_valid(),
    {
        self.operation_count > 0 && self.remaining_depth > 0 && self.interval_width > 0
    }
}

/// `a` has strictly higher priority than `b`: a larger reduction per
/// operation (compared by cross-multiplication), then the earlier source,
/// then the smaller payload id.
pub open spec fn outranks(a: RefinementOption, b: RefinementOption) -> bool {
    let left = a.code_span_reduction * b.operation_count;
    let right = b.code_span_reduction * a.operation_count;
    left > right || (left == right && (source_rank(a.source) < source_rank(b.source) || (
    source_rank(a.source) == source_rank(b.source) && a.payload_id < b.payload_id)))
}

/// `i` is the first option that no other option outranks.
pub open spec fn is_selection(options: Seq<RefinementOption>, i: int) -> bool {
    &&& 0 <= i < options.len()
    &&& forall|j: int| 0 <= j < options.len() ==> !outranks(#[trigger] options[j], options[i])
    &&& forall|j: int| 0 <= j < i ==> outranks(options[i], #[trigger] options[j])
}

pub open spec fn all_valid(options: Seq<RefinementOption>) -> bool {
    forall|j: int| 0 <= j < options.len() ==> (#[trigger] options[j]).is_valid()
}

proof fn lemma_outranks_order(a: RefinementOption, b: RefinementOption, c: RefinementOption)
    requires
        a.is_valid(),
        b.is_valid(),
        c.is_valid(),
    ensures
        outranks(a, b) && !outranks(c, b) ==> outranks(a, c),
        !outranks(a, a),
{
    if outranks(a, b) && !outranks(c, b) {
        let (ar, ao) = (a.code_span_reduction as int, a.operation_count as int);
        let (br, bo) = (b.code_span_reduction as int, b.operation_count as int);
        let (cr, co) = (c.code_span_reduction as int, c.operation_count as int);
        assert(ar * bo >= br * ao);
        assert(br * co >= cr * bo);
        assert(ar * co >= cr * ao) by (nonlinear_arith)
            requires
                ar * bo >= br * ao,
                br * co >= cr * bo,
                ao > 0,
                bo > 0,
                co > 0,
                ar >= 0,
                br >= 0,
                cr >= 0,
        ;
        if ar * bo > br * ao {
            assert(ar * co > cr * ao) by (nonlinear_arith)
                requires
                    ar * bo > br * ao,
                    br * co >= cr * bo,
                    ao > 0,
                    bo > 0,
                    co > 0,
                    ar >= 0,
                    br >= 0,
                    cr >= 0,
            ;
        } else if br * co > cr * bo {
            assert(ar * co > cr * ao) by (nonlinear_arith)
                requires
                    ar * bo >= br * ao,
                    br * co > cr * bo,
                    ao > 0,
                    bo > 0,
                    co > 0,
                    ar >= 0,
                    br >= 0,
                    cr >= 0,
            ;
        } else {
            if ar * co > cr * ao {
            } else {
                assert(ar * co == cr * ao);
            }
        }
    }
}

fn outranks_exec(a: &RefinementOption, b: &RefinementOption) -> (r: bool)
    ensures
        r == outranks(*a, *b),
{
    proof {
        let (x, y, z, w) = (
            a.code_span_reduction as int,
            b.operation_count as int,
            b.code_span_reduction as int,
            a.operation_count as int,
        );
        assert(x * y <= u64::MAX * u64::MAX && z * w <= u64::MAX * u64::MAX) by (nonlinear_arith)
            requires
                0 <= x <= u64::MAX,
                0 <= y <= u64::MAX,
                0 <= z <= u64::MAX,
                0 <= w <= u64::MAX,
        ;
    }
    let left: u128 = a.code_span_reduction as u128 * b.operation_count as u128;
    let right: u128 = b.code_span_reduction as u128 * a.operation_count as u128;
    let ra = rank(a.source);
    let rb = rank(b.source);
    left > right || (left == right && (ra < rb || (ra == rb && a.payload_id < b.payload_id)))
}

/// The option to refine next, or `None` when there is none; any invalid
/// option refuses the whole set.
pub fn select(options: &[RefinementOption]) -> (r: Result<Option<usize>, String>)
    ensures
        !all_valid(options@) ==> (r matches Err(e) && e@ == "P031: invalid refinement option"@),
        all_valid(options@) && options@.len() == 0 ==> r == Ok::<Option<usize>, String>(None),
        all_valid(options@) && options@.len() > 0 ==> (r matches Ok(Some(i)) && is_selection(
            options@,
            i as int,
        )),
{
    let mut k: usize = 0;
    while k < options.len()
        invariant
            k <= options@.len(),
            forall|j: int| 0 <= j < k ==> (#[trigger] options@[j]).is_valid(),
        decreases options@.len() - k,
    {
        if !options[k].validate() {
            let message = "P031: invalid refinement option".to_string();
            proof {
                vstd::string::to_string_from_display_ensures_for_str(
                    "P031: invalid refinement option",
                    message,
                );
            }
            return Err(message);
        }
        k = k + 1;
    }
    if options.len() == 0 {
        return Ok(None);
    }
    let mut best: usize = 0;
    let mut index: usize = 1;
    while index < options.len()
        invariant
            all_valid(options@),
            0 <= best < index <= options@.len(),
            forall|j: int| 0 <= j < index ==> !outranks(#[trigger] options@[j], options@[best as int]),
            forall|j: int| 0 <= j < best ==> outranks(options@[best as int], #[trigger] options@[j]),
        decreases options@.len() - index,
    {
        if outranks_exec(&options[index], &options[best]) {
            proof {
                assert forall|j: int| 0 <= j < index implies outranks(
                    options@[index as int],
                    #[trigger] options@[j],
                ) by {
                    lemma_outranks_order(options@[index as int], options@[best as int], options@[j]);
                }
                assert forall|j: int| 0 <= j < index + 1 implies !outranks(
                    #[trigger] options@[j],
                    options@[index as int],
                ) by {
                    lemma_outranks_order(options@[j], options@[index as int], options@[best as int]);
                    lemma_outranks_order(options@[index as int], options@[index as int], options@[index as int]);
                    if j < index {
                        if outranks(options@[j], options@[index as int]) {
                            lemma_outranks_order(options@[j], options@[index as int], options@[best as int]);
                        }
                    }
                }
            }
            best = index;
        }
        index = index + 1;
    }
    Ok(Some(best))
}

/// The refined option must be valid and strictly decrease the pair
/// `(remaining_depth, interval_width)` lexicographically.
pub open spec fn measure_decreases(before: RefinementOption, after: RefinementOption) -> bool {
    after.remaining_depth < before.remaining_depth || (after.remaining_depth
        == before.remaining_depth && after.interval_width < before.interval_width)
}

pub fn apply_measure(before: RefinementOption, after: Option<RefinementOption>) -> (r: Result<
    (),
    String,
>)
    ensures
        !before.is_valid() ==> (r matches Err(e) && e@ == "P031: invalid refinement measure"@),
        before.is_valid() && (after matches Some(a) && (!a.is_valid() || !measure_decreases(
            before,
            a,
        ))) ==> (r matches Err(e) && e@
            == "P031: refinement did not strictly decrease its discrete measure"@),
        before.is_valid() && !(after matches Some(a) && (!a.is_valid() || !measure_decreases(
            before,
            a,
        ))) ==> r is Ok,
{
    if !before.validate() {
        let message = "P031: invalid refinement measure".to_string();
        proof {
            vstd::string::to_string_from_display_ensures_for_str(
                "P031: invalid refinement measure",
                message,
            );
        }
        return Err(message);
    }
    if let Some(after) = after {
        if !after.validate() || !(after.remaining_depth < before.remaining_depth || (
        after.remaining_depth == before.remaining_depth && after.interval_width
            < before.interval_width)) {
            let message = "P031: refinement did not strictly decrease its discrete measure".to_string();
            proof {
                vstd::string::to_string_from_display_ensures_for_str(
                    "P031: refinement did not strictly decrease its discrete measure",
                    message,
                );
            }
            return Err(message);
        }
    }
    Ok(())
}

/// How one refinement round ends, given what the callbacks returned in it.
#[derive(Clone, Copy, Debug, PartialEq, Eq)]
pub enum RoundEnd {
    /// The selected option was refined and its measure decreased.
    Continue,
    /// Both endpoint codes agree.
    Singleton([u8; 3]),
    /// No option is left to refine.
    Exhausted,
    /// Some offered option is invalid.
    InvalidOption,
    /// Refining the selected option failed.
    RefineFailed,
    /// The refinement did not strictly decrease the selected option's measure.
    MeasureFailed,
}

/// A refinement round as observed: the endpoint codes, the options offered,
/// the index selected among them and what refining it returned.
pub open spec fn round_codes(
    round: (([u8; 3], [u8; 3]), Vec<RefinementOption>, int, Result<Option<RefinementOption>, String>),
) -> ([u8; 3], [u8; 3]) {
    round.0
}

/// The end of a round: stop on agreeing codes, refuse an invalid option set,
/// report exhaustion when nothing is offered, fail with a failed refinement
/// or a measure that did not decrease, and otherwise continue.
pub open spec fn round_end(
    round: (([u8; 3], [u8; 3]), Vec<RefinementOption>, int, Result<Option<RefinementOption>, String>),
) -> RoundEnd {
    let (codes, available, index, after) = round;
    if codes.0 == codes.1 {
        RoundEnd::Singleton(codes.0)
    } else if !all_valid(available@) {
        RoundEnd::InvalidOption
    } else if available@.len() == 0 {
        RoundEnd::Exhausted
    } else {
        match after {
            Err(_) => RoundEnd::RefineFailed,
            Ok(Some(a)) => if !a.is_valid() || !measure_decreases(available@[index], a) {
                RoundEnd::MeasureFailed
            } else {
                RoundEnd::Continue
            },
            Ok(None) => RoundEnd::Continue,
        }
    }
}

/// The round is what the callbacks can return: the codes come from
/// `endpoint_codes`; when they differ the options come from `options`; and
/// when those are valid and not empty the selected option's payload is what
/// `refine` was given.
pub open spec fn round_observed<E, O, R>(
    endpoint_codes: E,
    options: O,
    refine: R,
    round: (([u8; 3], [u8; 3]), Vec<RefinementOption>, int, Result<Option<RefinementOption>, String>),
) -> bool where
    E: Fn() -> ([u8; 3], [u8; 3]),
    O: Fn() -> Vec<RefinementOption>,
    R: Fn(u32) -> Result<Option<RefinementOption>, String>,
 {
    let (codes, available, index, after) = round;
    &&& call_ensures(endpoint_codes, (), codes)
    &&& codes.0 != codes.1 ==> call_ensures(options, (), available)
    &&& (codes.0 != codes.1 && all_valid(available@) && available@.len() > 0) ==> {
        &&& is_selection(available@, index)
        &&& call_ensures(refine, (available@[index].payload_id,), after)
    }
}

/// Rounds `0..n` were observed in full and each continued.
pub open spec fn rounds_continued<E, O, R>(
    endpoint_codes: E,
    options: O,
    refine: R,
    rounds: Seq<
        (([u8; 3], [u8; 3]), Vec<RefinementOption>, int, Result<Option<RefinementOption>, String>),
    >,
    n: int,
) -> bool where
    E: Fn() -> ([u8; 3], [u8; 3]),
    O: Fn() -> Vec<RefinementOption>,
    R: Fn(u32) -> Result<Option<RefinementOption>, String>,
 {
    forall|k: int|
        0 <= k < n ==> #[trigger] round_observed(endpoint_codes, options, refine, rounds[k])
            && round_end(rounds[k]) == RoundEnd::Continue
}

/// The observed `rounds` lead to `r`: every round but the last was observed
/// in full and continued; the last either stopped the run, or, when it is the
/// check made after `maximum_steps` refinements, only read the endpoint codes
/// and gives the agreeing code or exhaustion.
pub open spec fn run_trace<E, O, R>(
    endpoint_codes: E,
    options: O,
    refine: R,
    rounds: Seq<
        (([u8; 3], [u8; 3]), Vec<RefinementOption>, int, Result<Option<RefinementOption>, String>),
    >,
    maximum_steps: int,
    r: Result<RefinementResult, String>,
) -> bool where
    E: Fn() -> ([u8; 3], [u8; 3]),
    O: Fn() -> Vec<RefinementOption>,
    R: Fn(u32) -> Result<Option<RefinementOption>, String>,
 {
    let last = rounds.last();
    let codes = round_codes(last);
    &&& 1 <= rounds.len() <= maximum_steps + 1
    &&& rounds_continued(endpoint_codes, options, refine, rounds, rounds.len() - 1)
    &&& if rounds.len() - 1 == maximum_steps {
        &&& call_ensures(endpoint_codes, (), codes)
        &&& r == Ok::<RefinementResult, String>(
            if codes.0 == codes.1 {
                RefinementResult::Singleton(codes.0)
            } else {
                RefinementResult::CertificateExhausted
            },
        )
    } else {
        &&& round_observed(endpoint_codes, options, refine, last)
        &&& match round_end(last) {
            RoundEnd::Continue => false,
            RoundEnd::Singleton(c) => r == Ok::<RefinementResult, String>(RefinementResult::Singleton(c)),
            RoundEnd::Exhausted => r == Ok::<RefinementResult, String>(
                RefinementResult::CertificateExhausted,
            ),
            RoundEnd::InvalidOption => r matches Err(e) && e@ == "P031: invalid refinement option"@,
            RoundEnd::RefineFailed => match last.3 {
                Err(e) => r == Err::<RefinementResult, String>(e),
                Ok(_) => false,
            },
            RoundEnd::MeasureFailed => r matches Err(e) && e@
                == "P031: refinement did not strictly decrease its discrete measure"@,
        }
    }
}

/// Some sequence of rounds that the callbacks can produce leads to `r`.
pub open spec fn run_explained<E, O, R>(
    endpoint_codes: E,
    options: O,
    refine: R,
    maximum_steps: int,
    r: Result<RefinementResult, String>,
) -> bool where
    E: Fn() -> ([u8; 3], [u8; 3]),
    O: Fn() -> Vec<RefinementOption>,
    R: Fn(u32) -> Result<Option<RefinementOption>, String>,
 {
    exists|
        rounds: Seq<
            (([u8; 3], [u8; 3]), Vec<RefinementOption>, int, Result<Option<RefinementOption>, String>),
        >,
    | #[trigger] run_trace(endpoint_codes, options, refine, rounds, maximum_steps, r)
}

/// Drives refinement for at most `maximum_steps` steps: stop with the code
/// once both endpoints agree, refine the selected option otherwise, and
/// report exhaustion when no option is left or the steps run out.
pub fn run<E, O, R>(endpoint_codes: E, options: O, refine: R, maximum_steps: usize) -> (r: Result<
    RefinementResult,
    String,
>) where
    E: Fn() -> ([u8; 3], [u8; 3]),
    O: Fn() -> Vec<RefinementOption>,
    R: Fn(u32) -> Result<Option<RefinementOption>, String>,

    requires
        call_requires(endpoint_codes, ()),
        call_requires(options, ()),
        forall|id: u32| call_requires(refine, (id,)),
    ensures
        run_explained(endpoint_codes, options, refine, maximum_steps as int, r),
{
    let ghost mut rounds: Seq<
        (([u8; 3], [u8; 3]), Vec<RefinementOption>, int, Result<Option<RefinementOption>, String>),
    > = Seq::empty();
    let mut step: usize = 0;
    while step < maximum_steps
        invariant
            call_requires(endpoint_codes, ()),
            call_requires(options, ()),
            forall|id: u32| call_requires(refine, (id,)),
            step <= maximum_steps,
            rounds.len() == step,
            rounds_continued(endpoint_codes, options, refine, rounds, rounds.len() as int),
        decreases maximum_steps - step,
    {
        let (lo, hi) = endpoint_codes();
        if same_code(lo, hi) {
            let r = Ok(RefinementResult::Singleton(lo));
            proof {
                let round = (
                    (lo, hi),
                    vstd::pervasive::arbitrary::<Vec<RefinementOption>>(),
                    0int,
                    Ok::<Option<RefinementOption>, String>(None),
                );
                lemma_trace_stops(endpoint_codes, options, refine, rounds, round, maximum_steps as int, r);
            }
            return r;
        }
        let available = options();
        let ghost offered = available;
        let selected = select(available.as_slice());
        let chosen_index = match selected {
            Ok(Some(index)) => index,
            Ok(None) => {
                let r = Ok(RefinementResult::CertificateExhausted);
                proof {
                    let round = ((lo, hi), offered, 0int, Ok::<Option<RefinementOption>, String>(None));
                    lemma_trace_stops(endpoint_codes, options, refine, rounds, round, maximum_steps as int, r);
                }
                return r;
            },
            Err(e) => {
                let r = Err(e);
                proof {
                    let round = ((lo, hi), offered, 0int, Ok::<Option<RefinementOption>, String>(None));
                    lemma_trace_stops(endpoint_codes, options, refine, rounds, round, maximum_steps as int, r);
                }
                return r;
            },
        };
        let chosen = available[chosen_index];
        let after = refine(chosen.payload_id);
        let ghost round = ((lo, hi), offered, chosen_index as int, after);
        let after = match after {
            Ok(after) => after,
            Err(e) => {
                let r = Err(e);
                proof {
                    lemma_trace_stops(endpoint_codes, options, refine, rounds, round, maximum_steps as int, r);
                }
                return r;
            },
        };
        match apply_measure(chosen, after) {
            Ok(()) => {},
            Err(e) => {
                let r = Err(e);
                proof {
                    lemma_trace_stops(endpoint_codes, options, refine, rounds, round, maximum_steps as int, r);
                }
                return r;
            },
        }
        proof {
            assert(round_end(round) == RoundEnd::Continue);
            assert(round_observed(endpoint_codes, options, refine, round));
            let next = rounds.push(round);
            lemma_continued_push(endpoint_codes, options, refine, rounds, round);
            rounds = next;
        }
        step = step + 1;
    }
    let (lo, hi) = endpoint_codes();
    let r = if same_code(lo, hi) {
        Ok(RefinementResult::Singleton(lo))
    } else {
        Ok(RefinementResult::CertificateExhausted)
    };
    proof {
        let round = (
            (lo, hi),
            vstd::pervasive::arbitrary::<Vec<RefinementOption>>(),
            0int,
            Ok::<Option<RefinementOption>, String>(None),
        );
        let all = rounds.push(round);
        lemma_continued_prefix(endpoint_codes, options, refine, rounds, round);
        assert(all.last() == round);
        assert(run_trace(endpoint_codes, options, refine, all, maximum_steps as int, r));
    }
    r
}

/// A round that stops the run after `rounds` continued rounds explains the
/// result it stops with.
proof fn lemma_trace_stops<E, O, R>(
    endpoint_codes: E,
    options: O,
    refine: R,
    rounds: Seq<
        (([u8; 3], [u8; 3]), Vec<RefinementOption>, int, Result<Option<RefinementOption>, String>),
    >,
    round: (([u8; 3], [u8; 3]), Vec<RefinementOption>, int, Result<Option<RefinementOption>, String>),
    maximum_steps: int,
    r: Result<RefinementResult, String>,
) where
    E: Fn() -> ([u8; 3], [u8; 3]),
    O: Fn() -> Vec<RefinementOption>,
    R: Fn(u32) -> Result<Option<RefinementOption>, String>,

    requires
        rounds.len() < maximum_steps,
        rounds_continued(endpoint_codes, options, refine, rounds, rounds.len() as int),
        round_observed(endpoint_codes, options, refine, round),
        match round_end(round) {
            RoundEnd::Continue => false,
            RoundEnd::Singleton(c) => r == Ok::<RefinementResult, String>(RefinementResult::Singleton(c)),
            RoundEnd::Exhausted => r == Ok::<RefinementResult, String>(
                RefinementResult::CertificateExhausted,
            ),
            RoundEnd::InvalidOption => r matches Err(e) && e@ == "P031: invalid refinement option"@,
            RoundEnd::RefineFailed => match round.3 {
                Err(e) => r == Err::<RefinementResult, String>(e),
                Ok(_) => false,
            },
            RoundEnd::MeasureFailed => r matches Err(e) && e@
                == "P031: refinement did not strictly decrease its discrete measure"@,
        },
    ensures
        run_explained(endpoint_codes, options, refine, maximum_steps, r),
{
    let all = rounds.push(round);
    lemma_continued_prefix(endpoint_codes, options, refine, rounds, round);
    assert(all.last() == round);
    assert(run_trace(endpoint_codes, options, refine, all, maximum_steps, r));
}

/// Appending a round keeps the earlier rounds continued.
proof fn lemma_continued_prefix<E, O, R>(
    endpoint_codes: E,
    options: O,
    refine: R,
    rounds: Seq<
        (([u8; 3], [u8; 3]), Vec<RefinementOption>, int, Result<Option<RefinementOption>, String>),
    >,
    round: (([u8; 3], [u8; 3]), Vec<RefinementOption>, int, Result<Option<RefinementOption>, String>),
) where
    E: Fn() -> ([u8; 3], [u8; 3]),
    O: Fn() -> Vec<RefinementOption>,
    R: Fn(u32) -> Result<Option<RefinementOption>, String>,

    requires
        rounds_continued(endpoint_codes, options, refine, rounds, rounds.len() as int),
    ensures
        rounds_continued(endpoint_codes, options, refine, rounds.push(round), rounds.len() as int),
{
    let all = rounds.push(round);
    assert forall|k: int| 0 <= k < rounds.len() implies #[trigger] round_observed(
        endpoint_codes,
        options,
        refine,
        all[k],
    ) && round_end(all[k]) == RoundEnd::Continue by {
        assert(all[k] == rounds[k]);
        assert(round_observed(endpoint_codes, options, refine, rounds[k]));
    }
}

/// Appending a round that continued extends the continued rounds.
proof fn lemma_continued_push<E, O, R>(
    endpoint_codes: E,
    options: O,
    refine: R,
    rounds: Seq<
        (([u8; 3], [u8; 3]), Vec<RefinementOption>, int, Result<Option<RefinementOption>, String>),
    >,
    round: (([u8; 3], [u8; 3]), Vec<RefinementOption>, int, Result<Option<RefinementOption>, String>),
) where
    E: Fn() -> ([u8; 3], [u8; 3]),
    O: Fn() -> Vec<RefinementOption>,
    R: Fn(u32) -> Result<Option<RefinementOption>, String>,

    requires
        rounds_continued(endpoint_codes, options, refine, rounds, rounds.len() as int),
        round_observed(endpoint_codes, options, refine, round),
        round_end(round) == RoundEnd::Continue,
    ensures
        rounds_continued(endpoint_codes, options, refine, rounds.push(round), rounds.len() + 1int),
{
    lemma_continued_prefix(endpoint_codes, options, refine, rounds, round);
    let all = rounds.push(round);
    assert(all[rounds.len() as int] == round);
}

} // verus!
