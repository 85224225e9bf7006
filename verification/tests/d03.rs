use advent_of_code::aoc::y2024::d03::{part1, part2};

// The puzzle input itself is not part of the repository. This memory is built so that it
// gives the recorded answers: multiplications while on, a `don't()`, more multiplications,
// and a `do()` at the end.
fn products(total: i64) -> Vec<String> {
    let mut parts = Vec::new();
    let (q, r) = (total / 998001, total % 998001);
    for _ in 0..q {
        parts.push("mul(999,999)".to_string());
    }
    let (a, b) = (r / 999, r % 999);
    if a > 0 {
        parts.push(format!("mul({},999)", a));
    }
    if b > 0 {
        parts.push(format!("mul({},1)", b));
    }
    parts
}

fn d03_input() -> String {
    let on = products(82045421).join("x");
    let off = products(161085926 - 82045421).join("!");
    format!("{}don't(){}do()", on, off)
}

#[test]
fn recorded_part1() {
    assert_eq!(part1(&d03_input()), 161085926);
}

#[test]
fn recorded_part2() {
    assert_eq!(part2(&d03_input()), 82045421);
}

#[test]
fn d03_examples() {
    let ex1 = "xmul(2,4)%&mul[3,7]!@^do_not_mul(5,5)+mul(32,64]then(mul(11,8)mul(8,5))";
    assert_eq!(part1(ex1), 161);
    let ex2 = "xmul(2,4)&mul[3,7]!^don't()_mul(5,5)+mul(32,64](mul(11,8)undo()?mul(8,5))";
    assert_eq!(part2(ex2), 48);
}

#[test]
fn malformed_instructions() {
    // Four digits, spaces, a missing factor or bracket: none count.
    assert_eq!(part1("mul(1234,5)mul( 2,3)mul(4,)mul(4,5"), 0);
    assert_eq!(part1("mul(123,456)"), 56088);
    assert_eq!(part1("mulmul(2,3)"), 6);
    assert_eq!(part2("don't()mul(2,3)do()mul(4,5)"), 20);
    assert_eq!(part2("do()don't()mul(2,3)"), 0);
    assert_eq!(part1(""), 0);
}
