use aoc25::day06::solver;
use aoc25::solver::Solver;

#[test]
fn day06_provided_example() {
    let example = "123 328  51 64
 45 64  387 23
  6 98  215 314
*   +   *   +  ";
    let mut s = solver();
    s.presolve(example);
    assert_eq!("4277556", s.solve_part_one());
    assert_eq!("3263827", s.solve_part_two());
}

#[test]
fn day06_unknown_operator_and_short_rows() {
    let mut s = solver();
    s.presolve("1 2\n3 4\n- +\n");
    assert_eq!("", s.solve_part_one());
    s.presolve("12\n3\n* ");
    assert_eq!("36", s.solve_part_one());
    assert_eq!("26", s.solve_part_two());
    s.presolve("12\n 3\n+ \n");
    assert_eq!("15", s.solve_part_one());
    assert_eq!("24", s.solve_part_two());
}
