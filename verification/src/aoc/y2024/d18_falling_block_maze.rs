use crate::aoc::y2024::d18;
use crate::lgl::data::graph;
use crate::lgl::text;
use vstd::prelude::*;

pub use crate::aoc::y2024::d18::bisect_predicate;
pub use crate::aoc::y2024::d18::parse_input;

verus! {

/// Least number of steps from the top left corner to the bottom right one of the 71 by 71
/// memory once the first kilobyte has fallen.
pub fn part1(input: &str) -> (n: usize)
    requires
        d18::valid_input(input@),
        d18::in_square(d18::falling_of(input@), d18::first_kb(d18::falling_of(input@)), 71),
        !d18::blocked_after(d18::falling_of(input@), d18::first_kb(d18::falling_of(input@))),
    ensures
        graph::maze_dist(
            d18::open_after(d18::falling_of(input@), d18::first_kb(d18::falling_of(input@)), 71),
            d18::start_tile(),
            d18::goal_tile(),
            n as nat,
        ),
{
    let falling = d18::parse_input(input);
    let k = if falling.len() < 1024 {
        falling.len()
    } else {
        1024
    };
    let maze = d18::build_maze(&falling, k, 71);
    let maze_graph = graph::from_maze_grid(&maze);
    let costs = graph::dijkstra_undirected(&maze_graph, 0, Some(5040));
    proof {
        assert(graph::tile(71, d18::start_tile()) == 0 && graph::tile(71, d18::goal_tile()) == 5040);
        let y = choose|y: nat|
            graph::maze_walk(d18::open_after(falling@, k as int, 71), d18::start_tile(), d18::goal_tile(), y);
        graph::lemma_maze_walk(&maze_graph, &maze, d18::start_tile(), d18::goal_tile(), y);
        assert(maze_graph.walk(0, 5040, y));
    }
    let path = graph::shortest_path(&maze_graph, &costs, 5040);
    proof {
        graph::lemma_back_path_len(&maze_graph, 0, Some(5040usize), costs@, path@, 5040);
        graph::lemma_maze_dist(
            &maze_graph,
            &maze,
            d18::start_tile(),
            d18::goal_tile(),
            costs@[5040]->0 as nat,
        );
    }
    path.len() - 1
}

/// The position "X,Y" of the first byte after which the goal can no longer be reached: the
/// goal can be reached with the bytes before it (or it is the first byte), and not once it
/// has fallen (or it is the last byte).
pub fn part2(input: &str) -> (s: String)
    requires
        d18::valid_input(input@),
        d18::in_square(d18::falling_of(input@), d18::falling_of(input@).len() as int, 71),
        d18::falling_of(input@).len() >= 1,
    ensures
        exists|r: int|
            0 <= r < d18::falling_of(input@).len() && (r == 0 || !d18::blocked_after(d18::falling_of(input@), r)) && (r
                + 1 == d18::falling_of(input@).len() || d18::blocked_after(d18::falling_of(input@), r + 1)) && s@
                == text::dec_string(d18::falling_of(input@)[r].1 as int) + seq![','] + text::dec_string(
                d18::falling_of(input@)[r].0 as int,
            ),
{
    let falling = d18::parse_input(input);
    let goal_is_unreachable = |i: usize| -> (b: bool)
        requires
            i <= falling@.len(),
            d18::in_square(falling@, falling@.len() as int, 71),
        ensures
            b == d18::blocked_after(falling@, i as int),
        {
            let maze = d18::build_maze(&falling, i, 71);
            let maze_graph = graph::from_maze_grid(&maze);
            let costs = graph::dijkstra_undirected(&maze_graph, 0, Some(5040));
            proof {
                assert(graph::tile(71, d18::start_tile()) == 0 && graph::tile(71, d18::goal_tile()) == 5040);
                graph::lemma_maze_unreachable(&maze_graph, &maze, d18::start_tile(), d18::goal_tile());
                if costs@[5040] is Some {
                    assert(maze_graph.walk(0, 5040, costs@[5040]->0 as nat));
                }
            }
            costs[5040].is_none()
        };
    proof {
        assert forall|i: usize| 0 <= i <= falling@.len() implies call_requires(
            goal_is_unreachable,
            (i,),
        ) by {}
    }
    // How many tiles can be blocked by the falling bytes, without blocking the goal.
    let nb_reachable = d18::bisect_predicate(goal_is_unreachable, 0, falling.len());
    let blocking_byte = falling[nb_reachable];
    let mut s = text::isize_string(blocking_byte.1);
    s.append(",");
    let y = text::isize_string(blocking_byte.0);
    s.append(y.as_str());
    proof {
        reveal_strlit(",");
    }
    s
}

} // verus!
