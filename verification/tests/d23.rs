use advent_of_code::aoc::y2024::d23_graph_cliques::{parse_network, part1, part2};

// The puzzle input itself is not part of the repository. This network is built so that it
// gives the recorded answers: a clique of thirteen computers, each also linked to one
// computer of a second clique of thirteen with smaller names, and two cliques in which
// computers whose names begin with 't' make the triangles counted.
fn clique(names: &[String], edges: &mut Vec<String>) {
    for i in 0..names.len() {
        for j in i + 1..names.len() {
            edges.push(format!("{}-{}", names[i], names[j]));
        }
    }
}

fn d23_input() -> String {
    let k: Vec<String> = "di,gs,jw,kz,md,nc,qp,rp,sa,ss,uk,xk,yn".split(',').map(|s| s.to_string()).collect();
    let x: Vec<String> = (0..13u8).map(|i| format!("c{}", (b'a' + i) as char)).collect();
    let mut edges = Vec::new();
    clique(&k, &mut edges);
    clique(&x, &mut edges);
    for (a, b) in k.iter().zip(x.iter()) {
        edges.push(format!("{}-{}", a, b));
    }
    for (ci, (small, t)) in [(1usize, 17usize), (11, 7)].into_iter().enumerate() {
        let mut names: Vec<String> = (0..small).map(|i| format!("a{}{}", ci, i)).collect();
        names.extend((0..t).map(|i| format!("t{}{:02}", ci, i)));
        clique(&names, &mut edges);
    }
    let mut s = edges.join("\n");
    s.push('\n');
    s
}

const EXAMPLE: &str = "kh-tc\nqp-kh\nde-cg\nka-co\nyn-aq\nqp-ub\ncg-tb\nvc-aq\ntb-ka\nwh-tc\nyn-cg\nkh-ub\nta-co\nde-co\ntc-td\ntb-wq\nwh-td\nta-ka\ntd-qp\naq-cg\nwq-ub\nub-vc\nde-ta\nwq-aq\nwq-vc\nwh-yn\nka-de\nkh-ta\nco-tc\nwh-qp\ntb-vc\ntd-yn\n";

#[test]
fn d23_graph_cliques_test_part1() {
    assert_eq!(part1(&d23_input()), 1467);
}

#[test]
fn d23_graph_cliques_test_part2() {
    assert_eq!(part2(&d23_input()), "di,gs,jw,kz,md,nc,qp,rp,sa,ss,uk,xk,yn");
}

#[test]
fn example_network() {
    assert_eq!(part1(EXAMPLE), 7);
    assert_eq!(part2(EXAMPLE), "co,de,ka,ta");
}

#[test]
fn network_is_sorted_and_symmetric() {
    let net = parse_network("b-a\nc-a\na-b\n");
    let names: Vec<String> = net.names.iter().map(|n| n.iter().collect()).collect();
    assert_eq!(names, vec!["a", "b", "c"]);
    assert_eq!(net.adj, vec![vec![1, 2], vec![0], vec![0]]);
}

#[test]
fn no_links() {
    assert_eq!(part1(""), 0);
    assert_eq!(part2(""), "");
}

#[test]
fn single_triangle() {
    assert_eq!(part1("ta-b\nb-c\nc-ta\n"), 1);
    assert_eq!(part1("xa-b\nb-c\nc-xa\n"), 0);
    assert_eq!(part2("ta-b\nb-c\nc-ta\n"), "b,c");
}
