use aoc25::day11::solver;
use aoc25::solver::Solver;

#[test]
fn day11_provided_example() {
    let example = "aaa: you hhh
you: bbb ccc
bbb: ddd eee
ccc: ddd eee fff
ddd: ggg
eee: out
fff: out
ggg: out
hhh: ccc fff iii
iii: out";
    let mut s = solver();
    s.presolve(example);
    assert_eq!("5", s.solve_part_one());
}

#[test]
fn provided_example_two() {
    let example = "svr: aaa bbb
aaa: fft
fft: ccc
bbb: tty
tty: ccc
ccc: ddd eee
ddd: hub
hub: fff
eee: dac
dac: fff
fff: ggg hhh
ggg: out
hhh: out";
    let mut s = solver();
    s.presolve(example);
    assert_eq!("2", s.solve_part_two());
}

#[test]
fn day11_edge_cases() {
    let mut s = solver();
    s.presolve("you: out out\n");
    assert_eq!("2", s.solve_part_one());
    assert_eq!("0", s.solve_part_two());
    s.presolve("you out\n");
    assert_eq!("", s.solve_part_one());
    s.presolve("you: nowhere\n");
    assert_eq!("0", s.solve_part_one());
}
