use aoc25::day05::solver;
use aoc25::solver::Solver;

#[test]
fn day05_provided_example() {
    let example = "3-5
10-14
16-20
12-18

1
5
8
11
17
32";
    let mut s = solver();
    s.presolve(example);
    assert_eq!("3", s.solve_part_one());
    assert_eq!("14", s.solve_part_two());
}

#[test]
fn day05_empty_and_malformed_input() {
    let mut s = solver();
    s.presolve("5-3\n\n4\n");
    assert_eq!("0", s.solve_part_one());
    assert_eq!("0", s.solve_part_two());
    s.presolve("1-2\n3\n");
    assert_eq!("", s.solve_part_one());
    assert_eq!("", s.solve_part_two());
    s.presolve("1-10\n\n-4\n10\n+3\n");
    assert_eq!("2", s.solve_part_one());
    assert_eq!("10", s.solve_part_two());
}
