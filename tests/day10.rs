use aoc25::day10::{fewest_presses, parse_button, parse_joltage, parse_light_pattern};

#[test]
fn day10_parsers() {
    assert_eq!(parse_light_pattern("[.##.]"), (6, 4));
    assert_eq!(parse_light_pattern("[...#.]"), (8, 5));
    assert_eq!(parse_light_pattern("[]"), (0, 0));
    assert_eq!(parse_button("(1,3)"), 10);
    assert_eq!(parse_button("(0,2,3,4)"), 29);
    assert_eq!(parse_button("(2,2)"), 4);
    assert_eq!(parse_joltage("{3,5,4,7}"), vec![3, 5, 4, 7]);
}

#[test]
fn day10_fewest_presses_of_the_example_machines() {
    let first: Vec<u64> = ["(3)", "(1,3)", "(2)", "(2,3)", "(0,2)", "(0,1)"]
        .iter()
        .map(|b| parse_button(b))
        .collect();
    assert_eq!(fewest_presses(&first, parse_light_pattern("[.##.]").0), Some(2));
    let second: Vec<u64> = ["(0,2,3,4)", "(2,3)", "(0,4)", "(0,1,2)", "(1,2,3,4)"]
        .iter()
        .map(|b| parse_button(b))
        .collect();
    assert_eq!(fewest_presses(&second, parse_light_pattern("[...#.]").0), Some(3));
    let third: Vec<u64> = ["(0,1,2,3,4)", "(0,3,4)", "(0,1,2,4,5)", "(1,2)"]
        .iter()
        .map(|b| parse_button(b))
        .collect();
    assert_eq!(fewest_presses(&third, parse_light_pattern("[.###.#]").0), Some(2));
    assert_eq!(fewest_presses(&vec![], 0), Some(0));
    assert_eq!(fewest_presses(&vec![1], 2), None);
}
