use aoc25::day07::solver;
use aoc25::solver::Solver;

#[test]
fn day07_provided_example() {
    let example = ".......S.......
...............
.......^.......
...............
......^.^......
...............
.....^.^.^.....
...............
....^.^...^....
...............
...^.^...^.^...
...............
..^...^.....^..
...............
.^.^.^.^.^...^.
...............";
    let mut s = solver();
    s.presolve(example);
    assert_eq!("21", s.solve_part_one());
    assert_eq!("40", s.solve_part_two());
}

#[test]
fn day07_no_start_and_single_split() {
    let mut s = solver();
    s.presolve("...\n.^.\n");
    assert_eq!("", s.solve_part_one());
    assert_eq!("", s.solve_part_two());
    s.presolve(".S.\n.^.\n...\n");
    assert_eq!("1", s.solve_part_one());
    assert_eq!("2", s.solve_part_two());
}
