use pixels_reference::csg::{boundary_influences, evaluate, first_transition, CsgInstruction, Orientation};
use pixels_reference::iv32::NumericError;
use pixels_reference::kinetic::slack_preserves;

#[test]
fn stack_program_matches_boolean_exhaustively() {
    let program = [
        CsgInstruction::Object(0),
        CsgInstruction::Object(1),
        CsgInstruction::Union,
        CsgInstruction::Object(2),
        CsgInstruction::Subtract,
    ];
    for bits in 0_u64..8 {
        assert_eq!(
            evaluate(&program, bits).unwrap(),
            ((bits & 1 != 0) || (bits & 2 != 0)) && bits & 4 == 0
        );
    }
}

#[test]
fn noninfluential_boundary_is_skipped() {
    let program = [CsgInstruction::Object(0)];
    assert!(!boundary_influences(&program, 0, 1).unwrap());
    assert_eq!(
        first_transition(
            &program,
            0,
            &[(1, Orientation::Enter), (0, Orientation::Enter)]
        ),
        Ok(Some(1))
    );
}

#[test]
fn equality_does_not_preserve_strict_slack() {
    assert_eq!(slack_preserves(4, 3), Ok(true));
    assert_eq!(slack_preserves(4, 4), Ok(false));
    assert_eq!(slack_preserves(4, -1), Err(NumericError::InvalidDomain));
}

#[test]
fn negation_and_empty_programs_fail_closed() {
    assert_eq!(evaluate(&[], 0), Err(NumericError::UnsupportedShape));
    assert_eq!(evaluate(&[CsgInstruction::Negate], 0), Err(NumericError::UnsupportedShape));
    assert_eq!(
        evaluate(&[CsgInstruction::Object(64)], 0),
        Err(NumericError::CapacityExceeded)
    );
    assert_eq!(
        evaluate(&[CsgInstruction::Object(3), CsgInstruction::Negate], 8),
        Ok(false)
    );
}
