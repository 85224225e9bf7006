use advent_of_code::lgl::data::graph::{shortest_path, Graph};
use advent_of_code::lgl::data::table::to_table;

#[test]
fn lgl_table_keeps_bare_carriage_return() {
    // Only "\r\n" ends a line: a final bare '\r' stays in the last line.
    assert_eq!(to_table("a\r", ','), vec![vec!["a\r"]]);
    assert_eq!(to_table("a,b\r\nc", ','), vec![vec!["a", "b"], vec!["c"]]);
}

#[test]
fn lgl_shortest_path_weighted() {
    // 0 -> 1 (1), 0 -> 2 (5), 1 -> 3 (10), 2 -> 3 (1): the shortest way to 3 goes through 2.
    let g = Graph { n: 4, directed: true, edges: vec![(0, 1, 1), (0, 2, 5), (1, 3, 10), (2, 3, 1)] };
    let costs = vec![Some(0), Some(1), Some(5), Some(6)];
    assert_eq!(shortest_path(&g, &costs, 3), vec![0, 2, 3]);
    assert_eq!(shortest_path(&g, &costs, 1), vec![0, 1]);
    let unreached = vec![Some(0), None, None, None];
    assert_eq!(shortest_path(&g, &unreached, 3), Vec::<usize>::new());
}
