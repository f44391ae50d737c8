use aoc25::day01::solver;
use aoc25::solver::Solver;

#[test]
fn day01_provided_example() {
    let example = "L68
L30
R48
L5
R60
L55
L1
L99
R14
L82";
    let mut s = solver();
    s.presolve(example);
    assert_eq!("3", s.solve_part_one());
    assert_eq!("6", s.solve_part_two());
}

#[test]
fn day01_full_turns_count_every_pass() {
    let mut s = solver();
    s.presolve("R1000\n");
    assert_eq!("0", s.solve_part_one());
    assert_eq!("10", s.solve_part_two());
    s.presolve("L50\nL100\n");
    assert_eq!("2", s.solve_part_one());
    assert_eq!("2", s.solve_part_two());
}

#[test]
fn day01_malformed_input_gives_no_answer() {
    let mut s = solver();
    s.presolve("L10\nX5\n");
    assert_eq!("", s.solve_part_one());
    assert_eq!("", s.solve_part_two());
}
