use aoc25::day04::solver;
use aoc25::solver::Solver;

#[test]
fn day04_provided_example() {
    let example = "..@@.@@@@.
@@@.@.@.@@
@@@@@.@.@@
@.@@@@..@.
@@.@@@@.@@
.@@@@@@@.@
.@.@.@.@@@
@.@@@.@@@@
.@@@@@@@@.
@.@.@@@.@.";
    let mut s = solver();
    s.presolve(example);
    assert_eq!("13", s.solve_part_one());
    assert_eq!("43", s.solve_part_two());
}

#[test]
fn day04_full_block_keeps_its_core() {
    let mut s = solver();
    s.presolve("@@@\n@@@\n@@@\n");
    assert_eq!("4", s.solve_part_one());
    assert_eq!("9", s.solve_part_two());
    s.presolve("");
    assert_eq!("0", s.solve_part_one());
    assert_eq!("0", s.solve_part_two());
}
