use aoc25::day08::solver;
use aoc25::solver::Solver;

#[test]
fn day08_provided_example() {
    let example = "162,817,812
57,618,57
906,360,560
592,479,940
352,342,300
466,668,158
542,29,236
431,825,988
739,650,466
52,470,668
216,146,977
819,987,18
117,168,530
805,96,715
346,949,466
970,615,88
941,993,340
862,61,35
984,92,344
425,690,689";
    let mut s = solver();
    s.presolve(example);
    assert_eq!("40", s.solve_part_one_limit(10));
    assert_eq!("25272", s.solve_part_two());
}

#[test]
fn day08_small_and_malformed_inputs() {
    let mut s = solver();
    s.presolve("0,0,0\n3,0,0\n1,0,0\n");
    assert_eq!("2", s.solve_part_one_limit(1));
    assert_eq!("3", s.solve_part_one_limit(5));
    assert_eq!("3", s.solve_part_two());
    s.presolve("1,2\n");
    assert_eq!("", s.solve_part_one());
    assert_eq!("", s.solve_part_two());
    s.presolve("5,0,0\n");
    assert_eq!("1", s.solve_part_one());
    assert_eq!("", s.solve_part_two());
}
