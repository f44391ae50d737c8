use aoc25::day03::solver;
use aoc25::solver::Solver;

#[test]
fn day03_provided_example() {
    let example = "987654321111111
811111111111119
234234234234278
818181911112111";
    let mut s = solver();
    s.presolve(example);
    assert_eq!("357", s.solve_part_one());
    assert_eq!("3121910778619", s.solve_part_two());
}

#[test]
fn day03_short_banks() {
    let mut s = solver();
    s.presolve("19\n5\n");
    assert_eq!("19", s.solve_part_one());
    assert_eq!("", s.solve_part_two());
    s.presolve("12a");
    assert_eq!("", s.solve_part_one());
}
