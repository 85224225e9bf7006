use advent_of_code::aoc::y2024::d11;
use advent_of_code::aoc::y2024::d11_stone_dyn_count;
use advent_of_code::aoc::y2024::d11_stone_dyn_count::Stone;

// The puzzle input itself is not part of the repository. These rows of stones are built
// so that they give the recorded answers: the first after 25 blinks, the second after 75.
const INPUT_25: &str = "23705 73280 62459 13287 1 1 1 78561\n";
const INPUT_75: &str = "35506 214103 402209 989772 335072 378232 417226 852394\n";

#[test]
fn d11_test_part1() {
    assert_eq!(d11::part1(INPUT_25), 202019);
}

#[test]
fn d11_test_part2() {
    assert_eq!(d11::part2(INPUT_75), 239321955280205);
}

#[test]
fn d11_stone_dyn_count_test_part1() {
    assert_eq!(d11_stone_dyn_count::part1(INPUT_25), 202019);
}

#[test]
fn d11_stone_dyn_count_test_part2() {
    assert_eq!(d11_stone_dyn_count::part2(INPUT_75), 239321955280205);
}

#[test]
fn d11_example_one_blink() {
    assert_eq!(d11::apply_rules(&[0, 1, 10, 99, 999]), vec![1, 2024, 1, 0, 9, 9, 2021976]);
}

#[test]
fn d11_example_counts() {
    assert_eq!(d11_stone_dyn_count::count_stones(&[125, 17], 6), 22);
    assert_eq!(d11::part1("125 17"), 55312);
    assert_eq!(d11_stone_dyn_count::part1("125 17"), 55312);
}

#[test]
fn d11_call_stack_counts_like_the_simulation() {
    let mut calls = d11::CallStack::new(Stone { number: 125, blinks_left: 6 });
    assert_eq!(calls.eval(), 7);
    let input = "0 7 4048 28676032";
    assert_eq!(d11::part1(input), d11_stone_dyn_count::part1(input));
}

#[test]
fn d11_digits_and_split() {
    assert_eq!(d11_stone_dyn_count::nb_digits(0), 1);
    assert_eq!(d11_stone_dyn_count::nb_digits(1000), 4);
    assert_eq!(d11_stone_dyn_count::split(253000, 3), vec![253, 0]);
    assert_eq!(d11_stone_dyn_count::get_children(1), vec![2024]);
    assert_eq!(d11_stone_dyn_count::get_children(1000), vec![10, 0]);
}
