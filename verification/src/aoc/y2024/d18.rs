use crate::lgl::data::array2d;
use crate::lgl::data::array2d::Grid;
use crate::lgl::data::graph;
use crate::lgl::data::graph::Graph;
use crate::lgl::data::index::Ix2s;
use crate::lgl::parse;
use crate::lgl::text;
use vstd::prelude::*;

verus! {

// ---------------------------------------------------------------------------
// Input

/// A line "X,Y" of two integers.
pub open spec fn valid_line(line: Seq<char>) -> bool {
    let f = parse::split_on(line, ',');
    &&& f.len() == 2
    &&& parse::lit_isize(f[0]) is Some
    &&& parse::lit_isize(f[1]) is Some
}

/// The position of the byte of a line "X,Y": row Y, column X.
pub open spec fn line_pos(line: Seq<char>) -> Ix2s {
    let f = parse::split_on(line, ',');
    Ix2s(parse::lit_isize(f[1])->0, parse::lit_isize(f[0])->0)
}

pub open spec fn valid_input(input: Seq<char>) -> bool {
    forall|k: int| 0 <= k < parse::lines_of(input).len() ==> valid_line(#[trigger] parse::lines_of(input)[k])
}

/// The falling bytes, in order.
pub open spec fn falling_of(input: Seq<char>) -> Seq<Ix2s> {
    parse::lines_of(input).map_values(|l: Seq<char>| line_pos(l))
}

/// Read rows of X,Y integers, as positions (row Y, column X).
pub fn parse_input(input: &str) -> (v: Vec<Ix2s>)
    requires
        valid_input(input@),
    ensures
        v@ == falling_of(input@),
{
    let s = parse::chars_of(input);
    let lines = parse::line_spans(s.as_slice(), 0, s.len());
    let ghost ls = parse::lines_of(input@);
    proof {
        assert(s@.subrange(0, s@.len() as int) =~= input@);
    }
    let mut v: Vec<Ix2s> = Vec::new();
    let mut k: usize = 0;
    while k < lines.len()
        invariant
            valid_input(input@),
            ls == parse::lines_of(input@),
            s@ == input@,
            lines@.len() == ls.len(),
            forall|j: int|
                0 <= j < lines@.len() ==> {
                    let (b, e) = #[trigger] lines@[j];
                    &&& b <= e <= s@.len()
                    &&& s@.subrange(b as int, e as int) == ls[j]
                },
            k <= lines@.len(),
            v@ == ls.take(k as int).map_values(|l: Seq<char>| line_pos(l)),
        decreases lines@.len() - k,
    {
        let (b, e) = lines[k];
        let ghost line = ls[k as int];
        assert(valid_line(line));
        let f = parse::split_spans(s.as_slice(), b, e, ',');
        let (b0, e0) = f[0];
        let (b1, e1) = f[1];
        let x = parse::parse_isize(s.as_slice(), b0, e0).unwrap();
        let y = parse::parse_isize(s.as_slice(), b1, e1).unwrap();
        v.push(Ix2s(y, x));
        assert(v@ =~= ls.take(k + 1).map_values(|l: Seq<char>| line_pos(l)));
        k += 1;
    }
    assert(ls.take(ls.len() as int) =~= ls);
    v
}

// ---------------------------------------------------------------------------
// The maze

/// The tiles of a square of side `side` that none of the first `k` bytes has fallen on.
pub open spec fn open_after(falling: Seq<Ix2s>, k: int, side: int) -> spec_fn(int, int) -> bool {
    |r: int, c: int|
        0 <= r < side && 0 <= c < side && !exists|i: int|
            0 <= i < k && #[trigger] falling[i].0 == r && falling[i].1 == c
}

/// The first `k` bytes fall inside the square.
pub open spec fn in_square(falling: Seq<Ix2s>, k: int, side: int) -> bool {
    forall|i: int| 0 <= i < k ==> 0 <= (#[trigger] falling[i]).0 < side && 0 <= falling[i].1 < side
}

/// The square of side `side` with the first `k` bytes fallen: `false` where a byte fell.
pub fn build_maze(falling: &Vec<Ix2s>, k: usize, side: usize) -> (g: Grid<bool>)
    requires
        k <= falling@.len(),
        in_square(falling@, k as int, side as int),
        side <= 1000,
    ensures
        g.wf(),
        g.height() == side,
        g.width == side,
        graph::grid_open(&g) == open_after(falling@, k as int, side as int),
{
    let mut cells: Vec<Vec<bool>> = Vec::new();
    let mut r: usize = 0;
    while r < side
        invariant
            r <= side,
            cells@.len() == r,
            forall|i: int, j: int|
                0 <= i < r && 0 <= j < side ==> #[trigger] cells@[i]@[j],
            forall|i: int| 0 <= i < r ==> (#[trigger] cells@[i])@.len() == side,
        decreases side - r,
    {
        let mut row: Vec<bool> = Vec::new();
        let mut c: usize = 0;
        while c < side
            invariant
                c <= side,
                row@.len() == c,
                forall|j: int| 0 <= j < c ==> row@[j],
            decreases side - c,
        {
            row.push(true);
            c += 1;
        }
        cells.push(row);
        r += 1;
    }
    let mut g = Grid { cells, width: side };
    let mut i: usize = 0;
    while i < k
        invariant
            k <= falling@.len(),
            in_square(falling@, k as int, side as int),
            g.wf(),
            g.height() == side,
            g.width == side,
            i <= k,
            forall|r2: int, c2: int|
                0 <= r2 < side && 0 <= c2 < side ==> #[trigger] g.at(r2, c2) == !exists|j: int|
                    0 <= j < i && #[trigger] falling@[j].0 == r2 && falling@[j].1 == c2,
        decreases k - i,
    {
        let b = falling[i];
        proof {
            assert(0 <= falling@[i as int].0 < side && 0 <= falling@[i as int].1 < side);
        }
        let ghost old_g = g;
        array2d::set(&mut g, b, false);
        proof {
            assert forall|r2: int, c2: int| 0 <= r2 < side && 0 <= c2 < side implies #[trigger] g.at(r2, c2)
                == !exists|j: int| 0 <= j < i + 1 && #[trigger] falling@[j].0 == r2 && falling@[j].1 == c2 by {
                if r2 == b.0 && c2 == b.1 {
                    assert(falling@[i as int].0 == r2 && falling@[i as int].1 == c2);
                } else {
                    assert(old_g.at(r2, c2) == g.at(r2, c2));
                    if exists|j: int| 0 <= j < i + 1 && #[trigger] falling@[j].0 == r2 && falling@[j].1 == c2 {
                        let j = choose|j: int| 0 <= j < i + 1 && #[trigger] falling@[j].0 == r2 && falling@[j].1 == c2;
                        assert(j < i);
                    }
                }
            }
        }
        i += 1;
    }
    assert(graph::grid_open(&g) =~= open_after(falling@, k as int, side as int));
    g
}

/// The graph of the maze: a node per tile, an edge between open tiles side by side.
pub fn to_maze_graph(maze: &Grid<bool>) -> (mg: Graph)
    requires
        maze.wf(),
        4 * maze.height() * maze.width <= i32::MAX,
    ensures
        graph::is_maze_graph(&mg, maze),
{
    graph::from_maze_grid(maze)
}

/// The maze drawn with '.' for open tiles and '#' for fallen bytes.
pub fn show_maze(maze: &Grid<bool>) -> (m: Grid<char>)
    requires
        maze.wf(),
    ensures
        m.wf(),
        m.height() == maze.height(),
        m.width == maze.width,
        forall|r: int, c: int|
            0 <= r < maze.height() && 0 <= c < maze.width ==> #[trigger] m.at(r, c) == (if maze.at(r, c) {
                '.'
            } else {
                '#'
            }),
{
    let mut cells: Vec<Vec<char>> = Vec::new();
    let mut r: usize = 0;
    while r < maze.cells.len()
        invariant
            maze.wf(),
            r <= maze.height(),
            cells@.len() == r,
            forall|i: int| 0 <= i < r ==> (#[trigger] cells@[i])@.len() == maze.width,
            forall|i: int, j: int|
                0 <= i < r && 0 <= j < maze.width ==> #[trigger] cells@[i]@[j] == (if maze.at(i, j) {
                    '.'
                } else {
                    '#'
                }),
        decreases maze.height() - r,
    {
        let mut row: Vec<char> = Vec::new();
        let mut c: usize = 0;
        while c < maze.width
            invariant
                maze.wf(),
                r < maze.height(),
                c <= maze.width,
                row@.len() == c,
                forall|j: int| 0 <= j < c ==> row@[j] == (if maze.at(r as int, j) {
                    '.'
                } else {
                    '#'
                }),
            decreases maze.width - c,
        {
            assert(maze.cells@[r as int]@.len() == maze.width);
            row.push(
                if maze.cells[r][c] {
                    '.'
                } else {
                    '#'
                },
            );
            c += 1;
        }
        cells.push(row);
        r += 1;
    }
    Grid { cells, width: maze.width }
}

// ---------------------------------------------------------------------------
// Searching

/// The largest `i` in `[lo, hi)` with `p(i)` false, for `p` false at `lo`, true at `hi`,
/// and never false again once true. Whatever `p`: the result is `lo` or a point where `p`
/// was false, and the point after it is `hi` or a point where `p` was true; `p` is only
/// called strictly between `lo` and `hi`, so it need not be callable at either end.
pub fn bisect_predicate<P: Fn(usize) -> bool>(p: P, lo: usize, hi: usize) -> (r: usize)
    requires
        lo < usize::MAX,
        forall|i: usize| lo < i < hi ==> call_requires(p, (i,)),
    ensures
        lo < hi ==> lo <= r < hi,
        hi <= lo ==> r == lo,
        r == lo || call_ensures(p, (r,), false),
        r + 1 >= hi || call_ensures(p, ((r + 1) as usize,), true),
{
    let ghost lo0 = lo;
    let ghost hi0 = hi;
    let mut lo = lo;
    let mut hi = hi;
    while lo + 1 < hi
        invariant
            forall|i: usize| lo0 < i < hi0 ==> call_requires(p, (i,)),
            lo0 <= lo,
            hi <= hi0,
            lo0 < hi0 ==> lo < hi,
            hi0 <= lo0 ==> lo == lo0,
            lo < usize::MAX,
            lo == lo0 || call_ensures(p, (lo,), false),
            hi == hi0 || call_ensures(p, (hi,), true),
        decreases hi - lo,
    {
        let mid = lo + (hi - lo) / 2;
        if p(mid) {
            hi = mid;
        } else {
            lo = mid;
        }
    }
    lo
}

/// The tile of a node of the maze graph of a square of side 71.
pub open spec fn start_tile() -> (int, int) {
    (0, 0)
}

pub open spec fn goal_tile() -> (int, int) {
    (70, 70)
}

/// No walk leads from the start to the goal once the first `k` bytes have fallen.
pub open spec fn blocked_after(falling: Seq<Ix2s>, k: int) -> bool {
    forall|y: nat| !#[trigger] graph::maze_walk(open_after(falling, k, 71), start_tile(), goal_tile(), y)
}

/// The number of bytes that fall before the memory is searched.
pub open spec fn first_kb(falling: Seq<Ix2s>) -> int {
    if falling.len() < 1024 {
        falling.len() as int
    } else {
        1024
    }
}

/// Least number of steps from the top left corner to the bottom right one of the 71 by 71
/// memory once the first kilobyte has fallen.
pub fn part1(input: &str) -> (n: usize)
    requires
        valid_input(input@),
        in_square(falling_of(input@), first_kb(falling_of(input@)), 71),
        !blocked_after(falling_of(input@), first_kb(falling_of(input@))),
    ensures
        graph::maze_dist(
            open_after(falling_of(input@), first_kb(falling_of(input@)), 71),
            start_tile(),
            goal_tile(),
            n as nat,
        ),
{
    let falling = parse_input(input);
    let k = if falling.len() < 1024 {
        falling.len()
    } else {
        1024
    };
    let maze = build_maze(&falling, k, 71);
    let maze_graph = to_maze_graph(&maze);
    let costs = graph::dijkstra_undirected(&maze_graph, 0, Some(5040));
    proof {
        assert(graph::tile(71, start_tile()) == 0 && graph::tile(71, goal_tile()) == 5040);
        let y = choose|y: nat|
            graph::maze_walk(open_after(falling@, k as int, 71), start_tile(), goal_tile(), y);
        graph::lemma_maze_walk(&maze_graph, &maze, start_tile(), goal_tile(), y);
        assert(maze_graph.walk(0, 5040, y));
    }
    let path = graph::shortest_path(&maze_graph, &costs, 5040);
    proof {
        graph::lemma_back_path_len(&maze_graph, 0, Some(5040usize), costs@, path@, 5040);
        graph::lemma_maze_dist(
            &maze_graph,
            &maze,
            start_tile(),
            goal_tile(),
            costs@[5040]->0 as nat,
        );
    }
    path.len() - 1
}

/// The position "X,Y" of the first byte after which the goal can no longer be reached: the
/// goal can be reached with the bytes before it (or it is the first byte), and not once it
/// has fallen (or it is the last byte).
pub fn part2(input: &str) -> (s: String)
    requires
        valid_input(input@),
        in_square(falling_of(input@), falling_of(input@).len() as int, 71),
        falling_of(input@).len() >= 1,
    ensures
        exists|r: int|
            0 <= r < falling_of(input@).len() && (r == 0 || !blocked_after(falling_of(input@), r)) && (r
                + 1 == falling_of(input@).len() || blocked_after(falling_of(input@), r + 1)) && s@
                == text::dec_string(falling_of(input@)[r].1 as int) + seq![','] + text::dec_string(
                falling_of(input@)[r].0 as int,
            ),
{
    let falling = parse_input(input);
    let goal_is_unreachable = |i: usize| -> (b: bool)
        requires
            i <= falling@.len(),
            in_square(falling@, falling@.len() as int, 71),
        ensures
            b == blocked_after(falling@, i as int),
        {
            let maze = build_maze(&falling, i, 71);
            let maze_graph = to_maze_graph(&maze);
            let costs = graph::dijkstra_undirected(&maze_graph, 0, Some(5040));
            proof {
                assert(graph::tile(71, start_tile()) == 0 && graph::tile(71, goal_tile()) == 5040);
                graph::lemma_maze_unreachable(&maze_graph, &maze, start_tile(), goal_tile());
                if costs@[5040] is Some {
                    assert(maze_graph.walk(0, 5040, costs@[5040]->0 as nat));
                }
            }
            costs[5040].is_none()
        };
    proof {
        assert forall|i: usize| 0 <= i <= falling@.len() implies call_requires(
            goal_is_unreachable,
            (i,),
        ) by {}
    }
    // How many tiles can be blocked by the falling bytes, without blocking the goal.
    let nb_reachable = bisect_predicate(goal_is_unreachable, 0, falling.len());
    let blocking_byte = falling[nb_reachable];
    let mut s = text::isize_string(blocking_byte.1);
    s.append(",");
    let y = text::isize_string(blocking_byte.0);
    s.append(y.as_str());
    proof {
        reveal_strlit(",");
    }
    s
}

} // verus!
