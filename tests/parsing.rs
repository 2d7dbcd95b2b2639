use taxicab::{DistanceFault, Instruction, InstructionDirection, Instructions, ParseErrorKind};

fn ins(direction: InstructionDirection, distance: u32) -> Instruction {
    Instruction { direction, distance }
}

fn kind_of(s: &str) -> ParseErrorKind {
    Instructions::parse(s).unwrap_err().kind
}

#[test]
fn parse_example_sequence() {
    let parsed = Instructions::parse("L1, L3, L5, L3, R1").unwrap();
    assert_eq!(
        parsed.0,
        vec![
            ins(InstructionDirection::Left, 1),
            ins(InstructionDirection::Left, 3),
            ins(InstructionDirection::Left, 5),
            ins(InstructionDirection::Left, 3),
            ins(InstructionDirection::Right, 1),
        ]
    );
}

#[test]
fn parse_twice_gives_the_same_sequence() {
    let s = "R5, L5, R5, R3, L192, R45";
    let a = Instructions::parse(s).unwrap();
    let b = Instructions::parse(s).unwrap();
    assert_eq!(a.0, b.0);
    assert_eq!(a.0.len(), 6);
}

#[test]
fn parse_single_token() {
    let parsed = Instructions::parse("R192").unwrap();
    assert_eq!(parsed.0, vec![ins(InstructionDirection::Right, 192)]);
}

#[test]
fn parse_zero_distance() {
    let parsed = Instructions::parse("L0").unwrap();
    assert_eq!(parsed.0, vec![ins(InstructionDirection::Left, 0)]);
}

#[test]
fn parse_largest_distance() {
    let parsed = Instructions::parse("R4294967295").unwrap();
    assert_eq!(parsed.0, vec![ins(InstructionDirection::Right, u32::MAX)]);
}

#[test]
fn parse_plus_sign_is_accepted() {
    let parsed = Instructions::parse("L+7").unwrap();
    assert_eq!(parsed.0, vec![ins(InstructionDirection::Left, 7)]);
}

#[test]
fn parse_bad_turn_letter() {
    assert_eq!(kind_of("X2"), ParseErrorKind::InvalidTurnToken);
}

#[test]
fn parse_lowercase_turn_letter() {
    assert_eq!(kind_of("l2"), ParseErrorKind::InvalidTurnToken);
}

#[test]
fn parse_empty_distance() {
    assert_eq!(kind_of("L"), ParseErrorKind::InvalidDistance(DistanceFault::Empty));
}

#[test]
fn parse_invalid_digit() {
    assert_eq!(kind_of("R1x"), ParseErrorKind::InvalidDistance(DistanceFault::InvalidDigit));
    assert_eq!(kind_of("R-3"), ParseErrorKind::InvalidDistance(DistanceFault::InvalidDigit));
    assert_eq!(kind_of("R+"), ParseErrorKind::InvalidDistance(DistanceFault::InvalidDigit));
}

#[test]
fn parse_distance_too_large() {
    assert_eq!(kind_of("L4294967296"), ParseErrorKind::InvalidDistance(DistanceFault::TooLarge));
}

#[test]
fn parse_empty_input_fails() {
    assert_eq!(kind_of(""), ParseErrorKind::InvalidTurnToken);
}

#[test]
fn parse_trailing_separator_fails() {
    assert_eq!(kind_of("R2, L3, "), ParseErrorKind::InvalidTurnToken);
}

#[test]
fn parse_extra_space_fails() {
    assert_eq!(kind_of("R2,  L3"), ParseErrorKind::InvalidTurnToken);
}

#[test]
fn parse_missing_space_fails() {
    assert_eq!(kind_of("R2,L3"), ParseErrorKind::InvalidDistance(DistanceFault::InvalidDigit));
}

#[test]
fn parse_first_bad_token_decides() {
    assert_eq!(kind_of("R2, Q1, L"), ParseErrorKind::InvalidTurnToken);
    assert_eq!(kind_of("R2, L, Q1"), ParseErrorKind::InvalidDistance(DistanceFault::Empty));
}

#[test]
fn error_messages() {
    assert_eq!(
        Instructions::parse("X2").unwrap_err().message(),
        "there was a problem: must be L or R"
    );
    assert_eq!(
        Instructions::parse("L").unwrap_err().message(),
        "there was a problem: cannot parse integer from empty string"
    );
    assert_eq!(
        Instructions::parse("L2a").unwrap_err().message(),
        "there was a problem: invalid digit found in string"
    );
    assert_eq!(
        Instructions::parse("L99999999999").unwrap_err().message(),
        "there was a problem: number too large to fit in target type"
    );
}

#[test]
fn turn_letters() {
    assert_eq!(InstructionDirection::from_char('L'), Some(InstructionDirection::Left));
    assert_eq!(InstructionDirection::from_char('R'), Some(InstructionDirection::Right));
    assert_eq!(InstructionDirection::from_char('U'), None);
}

#[test]
fn token_from_chars() {
    let t: Vec<char> = "R17".chars().collect();
    assert_eq!(Instruction::from_chars(&t), Ok(ins(InstructionDirection::Right, 17)));
    let e: Vec<char> = Vec::new();
    assert_eq!(Instruction::from_chars(&e), Err(ParseErrorKind::InvalidTurnToken));
}
