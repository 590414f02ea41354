//! Fixed-stack CSG occupancy and boundary influence kernels.
use vstd::prelude::*;
use crate::iv32::NumericError;

verus! {

pub const MAX_CSG_STACK: usize = 64;

#[derive(Clone, Copy, Debug, PartialEq, Eq, Structural)]
pub enum CsgInstruction {
    Object(u8),
    Union,
    Intersection,
    Subtract,
    Negate,
}

#[derive(Clone, Copy, Debug, PartialEq, Eq, Structural)]
pub enum Orientation {
    Enter,
    Exit,
}

/// Bit `index` of `bits` is set.
pub open spec fn bit_set(bits: u64, index: u8) -> bool {
    bits & (1u64 << index) != 0
}

/// One instruction of the boolean stack machine.
pub open spec fn csg_step(instruction: CsgInstruction, stack: Seq<bool>, inside_bits: u64) -> Result<
    Seq<bool>,
    NumericError,
> {
    match instruction {
        CsgInstruction::Object(index) => if stack.len() == MAX_CSG_STACK || index >= 64 {
            Err(NumericError::CapacityExceeded)
        } else {
            Ok(stack.push(bit_set(inside_bits, index)))
        },
        CsgInstruction::Negate => if stack.len() == 0 {
            Err(NumericError::UnsupportedShape)
        } else {
            Ok(stack.update(stack.len() - 1, !stack.last()))
        },
        _ => if stack.len() < 2 {
            Err(NumericError::UnsupportedShape)
        } else {
            let right = stack[stack.len() - 1];
            let left = stack[stack.len() - 2];
            let value = match instruction {
                CsgInstruction::Union => left || right,
                CsgInstruction::Intersection => left && right,
                _ => left && !right,
            };
            Ok(stack.drop_last().update(stack.len() - 2, value))
        },
    }
}

/// The stack after running the first `n` instructions.
pub open spec fn csg_run(program: Seq<CsgInstruction>, inside_bits: u64, n: nat) -> Result<
    Seq<bool>,
    NumericError,
>
    decreases n,
{
    if n == 0 {
        Ok(Seq::empty())
    } else {
        match csg_run(program, inside_bits, (n - 1) as nat) {
            Ok(stack) => csg_step(program[n - 1], stack, inside_bits),
            Err(e) => Err(e),
        }
    }
}

/// Occupancy of the program for the given inside bits: the single value
/// left on the stack.
pub open spec fn csg_value(program: Seq<CsgInstruction>, inside_bits: u64) -> Result<
    bool,
    NumericError,
> {
    match csg_run(program, inside_bits, program.len()) {
        Ok(stack) => if stack.len() != 1 {
            Err(NumericError::UnsupportedShape)
        } else {
            Ok(stack[0])
        },
        Err(e) => Err(e),
    }
}

proof fn lemma_run_error_persists(program: Seq<CsgInstruction>, bits: u64, m: nat, n: nat)
    requires
        m <= n,
        csg_run(program, bits, m) is Err,
    ensures
        csg_run(program, bits, n) == csg_run(program, bits, m),
    decreases n - m,
{
    if m < n {
        lemma_run_error_persists(program, bits, m, (n - 1) as nat);
    }
}

pub fn evaluate(program: &[CsgInstruction], inside_bits: u64) -> (r: Result<bool, NumericError>)
    ensures
        r == csg_value(program@, inside_bits),
{
    let mut stack: Vec<bool> = Vec::new();
    let mut i: usize = 0;
    while i < program.len()
        invariant
            i <= program@.len(),
            csg_run(program@, inside_bits, i as nat) == Ok::<Seq<bool>, NumericError>(stack@),
        decreases program@.len() - i,
    {
        let len = stack.len();
        match program[i] {
            CsgInstruction::Object(index) => {
                if len == MAX_CSG_STACK || index >= 64 {
                    proof {
                        lemma_run_error_persists(program@, inside_bits, (i + 1) as nat, program@.len());
                    }
                    return Err(NumericError::CapacityExceeded);
                }
                stack.push(inside_bits & (1u64 << index) != 0);
            },
            CsgInstruction::Negate => {
                if len == 0 {
                    proof {
                        lemma_run_error_persists(program@, inside_bits, (i + 1) as nat, program@.len());
                    }
                    return Err(NumericError::UnsupportedShape);
                }
                let top = stack[len - 1];
                stack.set(len - 1, !top);
            },
            operation => {
                if len < 2 {
                    proof {
                        lemma_run_error_persists(program@, inside_bits, (i + 1) as nat, program@.len());
                    }
                    return Err(NumericError::UnsupportedShape);
                }
                let right = stack[len - 1];
                let left = stack[len - 2];
                let value = match operation {
                    CsgInstruction::Union => left || right,
                    CsgInstruction::Intersection => left && right,
                    _ => left && !right,
                };
                stack.pop();
                stack.set(len - 2, value);
            },
        }
        i = i + 1;
    }
    if stack.len() != 1 {
        return Err(NumericError::UnsupportedShape);
    }
    Ok(stack[0])
}

pub open spec fn spec_oriented_toggle(inside_bits: u64, object: u8, orientation: Orientation) -> Result<
    u64,
    NumericError,
> {
    if object >= 64 {
        Err(NumericError::CapacityExceeded)
    } else if bit_set(inside_bits, object) == (orientation == Orientation::Enter) {
        Err(NumericError::UnsupportedShape)
    } else {
        Ok(inside_bits ^ (1u64 << object))
    }
}

/// Crossing a boundary flips the object's bit; entering an object already
/// inside, or leaving one not inside, is refused.
pub fn oriented_toggle(inside_bits: u64, object: u8, orientation: Orientation) -> (r: Result<
    u64,
    NumericError,
>)
    ensures
        r == spec_oriented_toggle(inside_bits, object, orientation),
{
    if object >= 64 {
        return Err(NumericError::CapacityExceeded);
    }
    let mask = 1u64 << object;
    let is_inside = inside_bits & mask != 0;
    let entering = match orientation {
        Orientation::Enter => true,
        Orientation::Exit => false,
    };
    if is_inside == entering {
        return Err(NumericError::UnsupportedShape);
    }
    Ok(inside_bits ^ mask)
}

pub open spec fn spec_boundary_influences(program: Seq<CsgInstruction>, inside_bits: u64, object: u8) -> Result<
    bool,
    NumericError,
> {
    if object >= 64 {
        Err(NumericError::CapacityExceeded)
    } else {
        match csg_value(program, inside_bits & !(1u64 << object)) {
            Err(e) => Err(e),
            Ok(outside) => match csg_value(program, inside_bits | (1u64 << object)) {
                Err(e) => Err(e),
                Ok(inside) => Ok(outside != inside),
            },
        }
    }
}

/// Whether toggling `object` can change the occupancy at these inside bits.
pub fn boundary_influences(program: &[CsgInstruction], inside_bits: u64, object: u8) -> (r: Result<
    bool,
    NumericError,
>)
    ensures
        r == spec_boundary_influences(program@, inside_bits, object),
{
    if object >= 64 {
        return Err(NumericError::CapacityExceeded);
    }
    let mask = 1u64 << object;
    let outside = evaluate(program, inside_bits & !mask)?;
    let inside = evaluate(program, inside_bits | mask)?;
    Ok(outside != inside)
}

/// Index of the first crossing (from `start`) that changes occupancy.
pub open spec fn transition_from(
    program: Seq<CsgInstruction>,
    inside_bits: u64,
    occupied: bool,
    crossings: Seq<(u8, Orientation)>,
    start: int,
) -> Result<Option<usize>, NumericError>
    decreases crossings.len() - start,
{
    if start < 0 || start >= crossings.len() {
        Ok(None)
    } else {
        let (object, orientation) = crossings[start];
        match spec_boundary_influences(program, inside_bits, object) {
            Err(e) => Err(e),
            Ok(influences) => match spec_oriented_toggle(inside_bits, object, orientation) {
                Err(e) => Err(e),
                Ok(next_bits) => if !influences {
                    transition_from(program, next_bits, occupied, crossings, start + 1)
                } else {
                    match csg_value(program, next_bits) {
                        Err(e) => Err(e),
                        Ok(next) => if next != occupied {
                            Ok(Some(start as usize))
                        } else {
                            transition_from(program, next_bits, next, crossings, start + 1)
                        },
                    }
                },
            },
        }
    }
}

pub open spec fn spec_first_transition(
    program: Seq<CsgInstruction>,
    inside_bits: u64,
    crossings: Seq<(u8, Orientation)>,
) -> Result<Option<usize>, NumericError> {
    match csg_value(program, inside_bits) {
        Err(e) => Err(e),
        Ok(occupied) => transition_from(program, inside_bits, occupied, crossings, 0),
    }
}

pub fn first_transition(
    program: &[CsgInstruction],
    inside_bits: u64,
    crossings: &[(u8, Orientation)],
) -> (r: Result<Option<usize>, NumericError>)
    ensures
        r == spec_first_transition(program@, inside_bits, crossings@),
{
    let mut bits = inside_bits;
    let mut occupied = evaluate(program, bits)?;
    let mut index: usize = 0;
    while index < crossings.len()
        invariant
            index <= crossings@.len(),
            spec_first_transition(program@, inside_bits, crossings@) == transition_from(
                program@,
                bits,
                occupied,
                crossings@,
                index as int,
            ),
        decreases crossings@.len() - index,
    {
        let (object, orientation) = crossings[index];
        let influences = boundary_influences(program, bits, object)?;
        if !influences {
            bits = oriented_toggle(bits, object, orientation)?;
            index = index + 1;
            continue;
        }
        bits = oriented_toggle(bits, object, orientation)?;
        let next = evaluate(program, bits)?;
        if next != occupied {
            return Ok(Some(index));
        }
        occupied = next;
        index = index + 1;
    }
    Ok(None)
}

/// Inside bits after the first `k` crossings, each flipping its object's bit.
pub open spec fn bits_after(inside_bits: u64, crossings: Seq<(u8, Orientation)>, k: nat) -> u64
    decreases k,
{
    if k == 0 {
        inside_bits
    } else {
        bits_after(inside_bits, crossings, (k - 1) as nat) ^ (1u64 << crossings[k - 1].0)
    }
}

/// Occupancy differs on the two sides of crossing `k`.
pub open spec fn occupancy_changes(
    program: Seq<CsgInstruction>,
    inside_bits: u64,
    crossings: Seq<(u8, Orientation)>,
    k: nat,
) -> bool {
    csg_value(program, bits_after(inside_bits, crossings, k + 1)) != csg_value(
        program,
        bits_after(inside_bits, crossings, k),
    )
}

/// Every crossing is oriented consistently with the bits it meets, and every
/// occupancy evaluation along the way succeeds.
pub open spec fn crossings_evaluate(
    program: Seq<CsgInstruction>,
    inside_bits: u64,
    crossings: Seq<(u8, Orientation)>,
) -> bool {
    &&& forall|k: nat|
        k < crossings.len() ==> spec_oriented_toggle(
            #[trigger] bits_after(inside_bits, crossings, k),
            crossings[k as int].0,
            crossings[k as int].1,
        ) is Ok && spec_boundary_influences(
            program,
            bits_after(inside_bits, crossings, k),
            crossings[k as int].0,
        ) is Ok
    &&& forall|k: nat|
        k <= crossings.len() ==> csg_value(program, #[trigger] bits_after(inside_bits, crossings, k))
            is Ok
}

/// Clearing and setting one bit give the bits themselves and the bits with
/// that one flipped, in some order.
proof fn lemma_one_bit(b: u64, object: u8)
    requires
        object < 64,
    ensures
        b & (1u64 << object) != 0 ==> (b | (1u64 << object)) == b && (b & !(1u64 << object)) == b
            ^ (1u64 << object),
        b & (1u64 << object) == 0 ==> (b & !(1u64 << object)) == b && (b | (1u64 << object)) == b
            ^ (1u64 << object),
{
    assert(b & (1u64 << object) != 0 ==> (b | (1u64 << object)) == b && (b & !(1u64 << object))
        == b ^ (1u64 << object)) by (bit_vector)
        requires
            object < 64,
    ;
    assert(b & (1u64 << object) == 0 ==> (b & !(1u64 << object)) == b && (b | (1u64 << object))
        == b ^ (1u64 << object)) by (bit_vector)
        requires
            object < 64,
    ;
}

proof fn lemma_transition_from_least(
    program: Seq<CsgInstruction>,
    inside_bits: u64,
    crossings: Seq<(u8, Orientation)>,
    start: nat,
    occupied: bool,
)
    requires
        crossings_evaluate(program, inside_bits, crossings),
        crossings.len() <= usize::MAX,
        start <= crossings.len(),
        csg_value(program, bits_after(inside_bits, crossings, start)) == Ok::<bool, NumericError>(
            occupied,
        ),
    ensures
        match transition_from(
            program,
            bits_after(inside_bits, crossings, start),
            occupied,
            crossings,
            start as int,
        ) {
            Ok(Some(i)) => start <= i < crossings.len() && occupancy_changes(
                program,
                inside_bits,
                crossings,
                i as nat,
            ) && forall|j: nat|
                start <= j < i ==> !#[trigger] occupancy_changes(program, inside_bits, crossings, j),
            Ok(None) => forall|j: nat|
                start <= j < crossings.len() ==> !#[trigger] occupancy_changes(
                    program,
                    inside_bits,
                    crossings,
                    j,
                ),
            Err(_) => false,
        },
    decreases crossings.len() - start,
{
    if start < crossings.len() {
        let b = bits_after(inside_bits, crossings, start);
        let (object, orientation) = crossings[start as int];
        let next_bits = bits_after(inside_bits, crossings, start + 1);
        assert(spec_oriented_toggle(b, object, orientation) is Ok);
        assert(spec_boundary_influences(program, b, object) is Ok);
        assert(next_bits == b ^ (1u64 << object));
        assert(csg_value(program, next_bits) is Ok);
        lemma_one_bit(b, object);
        let next = csg_value(program, next_bits)->Ok_0;
        if !spec_boundary_influences(program, b, object)->Ok_0 {
            assert(next == occupied);
        }
        let influences = spec_boundary_influences(program, b, object)->Ok_0;
        assert(spec_oriented_toggle(b, object, orientation) == Ok::<u64, NumericError>(next_bits));
        let here = transition_from(program, b, occupied, crossings, start as int);
        let rest = transition_from(program, next_bits, next, crossings, start + 1int);
        if next == occupied {
            assert(!occupancy_changes(program, inside_bits, crossings, start));
            assert(here == rest);
            lemma_transition_from_least(program, inside_bits, crossings, start + 1, next);
            match rest {
                Ok(Some(i)) => {
                    assert forall|j: nat| start <= j < i implies !#[trigger] occupancy_changes(
                        program,
                        inside_bits,
                        crossings,
                        j,
                    ) by {
                        if j > start {
                            assert(start + 1 <= j);
                        }
                    }
                },
                Ok(None) => {
                    assert forall|j: nat|
                        start <= j < crossings.len() implies !#[trigger] occupancy_changes(
                        program,
                        inside_bits,
                        crossings,
                        j,
                    ) by {
                        if j > start {
                            assert(start + 1 <= j);
                        }
                    }
                },
                Err(_) => {},
            }
        } else {
            assert(influences);
            assert(occupancy_changes(program, inside_bits, crossings, start));
            assert(here == Ok::<Option<usize>, NumericError>(Some(start as usize)));
        }
    }
}

/// The first transition is the least crossing whose flip changes
/// occupancy, or `None` when no crossing does.
pub proof fn first_transition_is_least_change(
    program: Seq<CsgInstruction>,
    inside_bits: u64,
    crossings: Seq<(u8, Orientation)>,
)
    requires
        crossings_evaluate(program, inside_bits, crossings),
        crossings.len() <= usize::MAX,
    ensures
        match spec_first_transition(program, inside_bits, crossings) {
            Ok(Some(i)) => i < crossings.len() && occupancy_changes(
                program,
                inside_bits,
                crossings,
                i as nat,
            ) && forall|j: nat|
                j < i ==> !#[trigger] occupancy_changes(program, inside_bits, crossings, j),
            Ok(None) => forall|j: nat|
                j < crossings.len() ==> !#[trigger] occupancy_changes(
                    program,
                    inside_bits,
                    crossings,
                    j,
                ),
            Err(_) => false,
        },
{
    assert(csg_value(program, bits_after(inside_bits, crossings, 0)) is Ok);
    let occupied = csg_value(program, inside_bits)->Ok_0;
    lemma_transition_from_least(program, inside_bits, crossings, 0, occupied);
}

/// Object `i` holds the point exactly when bit `i` of the inside bits is one.
pub open spec fn inside_object(bits: u64, i: u8) -> bool {
    (bits >> i) & 1 == 1
}

proof fn lemma_bit_set_is_inside(bits: u64, i: u8)
    requires
        i < 64,
    ensures
        bit_set(bits, i) == inside_object(bits, i),
{
    assert(bits & (1u64 << i) != 0 <==> (bits >> i) & 1 == 1) by (bit_vector)
        requires
            i < 64,
    ;
}

/// Each instruction acts on the operands on top of the stack: an object
/// pushes whether the point is inside it, negation flips the top value, and
/// union, intersection and difference pop two operands and push their
/// disjunction, conjunction, and "left and not right".
pub proof fn instructions_act_on_the_top(stack: Seq<bool>, bits: u64, i: u8)
    ensures
        stack.len() < MAX_CSG_STACK && i < 64 ==> csg_step(CsgInstruction::Object(i), stack, bits)
            == Ok::<Seq<bool>, NumericError>(stack.push(inside_object(bits, i))),
        stack.len() >= 1 ==> csg_step(CsgInstruction::Negate, stack, bits) == Ok::<Seq<bool>, NumericError>(
            stack.drop_last().push(!stack.last()),
        ),
        stack.len() >= 2 ==> {
            let rest = stack.subrange(0, stack.len() - 2);
            let left = stack[stack.len() - 2];
            let right = stack[stack.len() - 1];
            &&& csg_step(CsgInstruction::Union, stack, bits) == Ok::<Seq<bool>, NumericError>(
                rest.push(left || right),
            )
            &&& csg_step(CsgInstruction::Intersection, stack, bits) == Ok::<Seq<bool>, NumericError>(
                rest.push(left && right),
            )
            &&& csg_step(CsgInstruction::Subtract, stack, bits) == Ok::<Seq<bool>, NumericError>(
                rest.push(left && !right),
            )
        },
{
    if i < 64 {
        lemma_bit_set_is_inside(bits, i);
    }
    if stack.len() >= 1 {
        assert(stack.update(stack.len() - 1, !stack.last()) =~= stack.drop_last().push(!stack.last()));
    }
    if stack.len() >= 2 {
        let rest = stack.subrange(0, stack.len() - 2);
        let left = stack[stack.len() - 2];
        let right = stack[stack.len() - 1];
        assert(stack.drop_last().update(stack.len() - 2, left || right) =~= rest.push(left || right));
        assert(stack.drop_last().update(stack.len() - 2, left && right) =~= rest.push(left && right));
        assert(stack.drop_last().update(stack.len() - 2, left && !right) =~= rest.push(left && !right));
    }
}

/// Occupancy of the basic programs: one object is its bit, a negated object
/// the opposite, and two objects combined by union, intersection or
/// difference give the disjunction, conjunction, or "first and not second"
/// of their bits.
pub proof fn basic_programs_mean_set_operations(bits: u64, i: u8, j: u8)
    requires
        i < 64,
        j < 64,
    ensures
        csg_value(seq![CsgInstruction::Object(i)], bits) == Ok::<bool, NumericError>(inside_object(bits, i)),
        csg_value(seq![CsgInstruction::Object(i), CsgInstruction::Negate], bits) == Ok::<bool, NumericError>(
            !inside_object(bits, i),
        ),
        csg_value(
            seq![CsgInstruction::Object(i), CsgInstruction::Object(j), CsgInstruction::Union],
            bits,
        ) == Ok::<bool, NumericError>(inside_object(bits, i) || inside_object(bits, j)),
        csg_value(
            seq![CsgInstruction::Object(i), CsgInstruction::Object(j), CsgInstruction::Intersection],
            bits,
        ) == Ok::<bool, NumericError>(inside_object(bits, i) && inside_object(bits, j)),
        csg_value(
            seq![CsgInstruction::Object(i), CsgInstruction::Object(j), CsgInstruction::Subtract],
            bits,
        ) == Ok::<bool, NumericError>(inside_object(bits, i) && !inside_object(bits, j)),
{
    lemma_bit_set_is_inside(bits, i);
    lemma_bit_set_is_inside(bits, j);
    let a = bit_set(bits, i);
    let b = bit_set(bits, j);
    let one = seq![CsgInstruction::Object(i)];
    assert(csg_run(one, bits, 1) == Ok::<Seq<bool>, NumericError>(seq![a])) by {
        assert(csg_run(one, bits, 0) == Ok::<Seq<bool>, NumericError>(Seq::empty()));
        assert(one[0] == CsgInstruction::Object(i));
        assert(Seq::<bool>::empty().push(a) =~= seq![a]);
    }
    let neg = seq![CsgInstruction::Object(i), CsgInstruction::Negate];
    assert(csg_run(neg, bits, 1) == Ok::<Seq<bool>, NumericError>(seq![a])) by {
        assert(csg_run(neg, bits, 0) == Ok::<Seq<bool>, NumericError>(Seq::empty()));
        assert(neg[0] == CsgInstruction::Object(i));
        assert(Seq::<bool>::empty().push(a) =~= seq![a]);
    }
    assert(csg_run(neg, bits, 2) == Ok::<Seq<bool>, NumericError>(seq![!a])) by {
        assert(seq![a].update(0, !a) =~= seq![!a]);
    }
    let ops = seq![CsgInstruction::Union, CsgInstruction::Intersection, CsgInstruction::Subtract];
    assert forall|k: int| 0 <= k < 3 implies {
        let p = seq![CsgInstruction::Object(i), CsgInstruction::Object(j), #[trigger] ops[k]];
        let v = if k == 0 {
            a || b
        } else if k == 1 {
            a && b
        } else {
            a && !b
        };
        csg_run(p, bits, 3) == Ok::<Seq<bool>, NumericError>(seq![v])
    } by {
        let p = seq![CsgInstruction::Object(i), CsgInstruction::Object(j), ops[k]];
        assert(csg_run(p, bits, 1) == Ok::<Seq<bool>, NumericError>(seq![a])) by {
            assert(csg_run(p, bits, 0) == Ok::<Seq<bool>, NumericError>(Seq::empty()));
            assert(p[0] == CsgInstruction::Object(i));
            assert(Seq::<bool>::empty().push(a) =~= seq![a]);
        }
        assert(csg_run(p, bits, 2) == Ok::<Seq<bool>, NumericError>(seq![a, b])) by {
            assert(p[1] == CsgInstruction::Object(j));
            assert(seq![a].push(b) =~= seq![a, b]);
        }
        let v = if k == 0 {
            a || b
        } else if k == 1 {
            a && b
        } else {
            a && !b
        };
        assert(p[2] == ops[k]);
        assert(seq![a, b].drop_last().update(0, v) =~= seq![v]);
    }
    assert(ops[0] == CsgInstruction::Union);
    assert(ops[1] == CsgInstruction::Intersection);
    assert(ops[2] == CsgInstruction::Subtract);
}

} // verus!
