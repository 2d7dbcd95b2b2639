use taxicab::{fits_in_range, walk, Heading, Instructions, Position, WalkSummary};
use taxicab::InstructionDirection::{Left, Right};

fn run(s: &str) -> WalkSummary {
    Instructions::parse(s).unwrap().walk().unwrap()
}

fn at(x: i64, y: i64) -> Position {
    Position { x, y }
}

#[test]
fn walk_r2_l3() {
    let w = run("R2, L3");
    assert_eq!(w.end, at(2, 3));
    assert_eq!(w.final_distance(), 5);
    assert_eq!(w.first_repeat, None);
    assert_eq!(w.repeat_distance(), None);
}

#[test]
fn walk_r2_r2_r2() {
    let w = run("R2, R2, R2");
    assert_eq!(w.end, at(0, -2));
    assert_eq!(w.final_distance(), 2);
}

#[test]
fn walk_r5_l5_r5_r3() {
    let w = run("R5, L5, R5, R3");
    assert_eq!(w.final_distance(), 12);
}

#[test]
fn walk_r8_r4_r4_r8_first_repeat() {
    let w = run("R8, R4, R4, R8");
    assert_eq!(w.first_repeat, Some(at(4, 0)));
    assert_eq!(w.repeat_distance(), Some(4));
    assert_eq!(w.end, at(4, 4));
}

#[test]
fn repeat_found_between_endpoints() {
    // No instruction ends on (4, 0); the last one crosses it halfway.
    let w = run("R8, R4, R4, R8");
    let p = w.first_repeat.unwrap();
    assert_ne!(p, at(8, 0));
    assert_ne!(p, at(4, 4));
    assert_eq!(p, at(4, 0));
}

#[test]
fn each_unit_step_is_a_candidate() {
    // Turns alone stand still and repeat nothing; stepping back west from
    // (3, 0), the first step lands on (2, 0), already stood on.
    let w = run("R3, R0, R0, L0, R0");
    assert_eq!(w.first_repeat, None);
    let w = run("R3, L0, L2");
    assert_eq!(w.first_repeat, Some(at(2, 0)));
}

#[test]
fn first_repeat_is_never_overwritten() {
    // After (4, 0) is found, the walk comes back to the origin, closer
    // still: the first repeat stays (4, 0).
    let w = run("R8, R4, R4, R8, L4, L4");
    assert_eq!(w.end, at(0, 0));
    assert_eq!(w.first_repeat, Some(at(4, 0)));
    assert_eq!(w.repeat_distance(), Some(4));
}

#[test]
fn origin_counts_as_visited() {
    let w = run("R2, R2, R2, R2");
    assert_eq!(w.end, at(0, 0));
    assert_eq!(w.first_repeat, Some(at(0, 0)));
    assert_eq!(w.repeat_distance(), Some(0));
}

#[test]
fn zero_distance_turns_only() {
    let w = run("L0, L0");
    assert_eq!(w.end, at(0, 0));
    assert_eq!(w.first_repeat, None);
}

#[test]
fn heading_table() {
    assert_eq!(Heading::North.turn(Left), Heading::West);
    assert_eq!(Heading::North.turn(Right), Heading::East);
    assert_eq!(Heading::East.turn(Left), Heading::North);
    assert_eq!(Heading::East.turn(Right), Heading::South);
    assert_eq!(Heading::South.turn(Left), Heading::East);
    assert_eq!(Heading::South.turn(Right), Heading::West);
    assert_eq!(Heading::West.turn(Left), Heading::South);
    assert_eq!(Heading::West.turn(Right), Heading::North);
}

#[test]
fn heading_units() {
    assert_eq!(Heading::North.unit(), (0, 1));
    assert_eq!(Heading::East.unit(), (1, 0));
    assert_eq!(Heading::South.unit(), (0, -1));
    assert_eq!(Heading::West.unit(), (-1, 0));
}

#[test]
fn manhattan_of_extremes() {
    assert_eq!(at(-3, 4).manhattan(), 7);
    assert_eq!(at(i64::MIN, i64::MIN).manhattan(), 1u128 << 64);
    assert_eq!(at(i64::MAX, 0).manhattan(), i64::MAX as u128);
}

#[test]
fn range_check() {
    let small = Instructions::parse("R4294967295, L4294967295").unwrap();
    assert!(fits_in_range(&small.0));
    let short = Instructions::parse("L7, L3").unwrap();
    assert!(fits_in_range(&short.0));
    let w = walk(&short.0);
    assert_eq!(w.end, at(-7, -3));
    assert_eq!(w.final_distance(), 10);
}

#[test]
fn puzzle_input_walks() {
    let w = run("R2, L3, R2, R4, L2, L1, R2, R4, R1, L4, L5, R5, R5, R2, R2, R1, L2, L3, L2, L1");
    assert_eq!(w.final_distance() as i64, w.end.x.abs() + w.end.y.abs());
}
