use aoc25::day02::solver;
use aoc25::solver::Solver;

#[test]
fn day02_provided_example() {
    let example = "11-22,95-115,998-1012,1188511880-1188511890,222220-222224,1698522-1698528,446443-446449,38593856-38593862,565653-565659,824824821-824824827,2121212118-2121212124";
    let mut s = solver();
    s.presolve(example);
    assert_eq!("1227775554", s.solve_part_one());
    assert_eq!("4174379265", s.solve_part_two());
}

#[test]
fn why_cant_you_be_normal() {
    let example = "1052-2547";
    let mut s = solver();
    s.presolve(example);
    assert_eq!("27270", s.solve_part_one());
    assert_eq!("27270", s.solve_part_two());
}

#[test]
fn just_work_plz() {
    let example = "95-115";
    let mut s = solver();
    s.presolve(example);
    assert_eq!("99", s.solve_part_one());
    assert_eq!("210", s.solve_part_two());
}

#[test]
fn day02_trailing_newline_and_bad_range() {
    let mut s = solver();
    s.presolve("11-22\n");
    assert_eq!("33", s.solve_part_one());
    assert_eq!("33", s.solve_part_two());
    s.presolve("11-x");
    assert_eq!("", s.solve_part_one());
    s.presolve("30-20");
    assert_eq!("0", s.solve_part_one());
}
