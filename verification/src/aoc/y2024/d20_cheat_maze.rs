use crate::lgl::data::array2d::{self, Grid};
use crate::lgl::data::graph::{self, grid_open, maze_dist, maze_walk, tile, Graph};
use crate::lgl::data::index::Ix2s;
use crate::lgl::parse;
use vstd::prelude::*;

verus! {

// ---------------------------------------------------------------------------
// Cheats
//
// A race runs from the start to the goal through the open tiles of a maze, one step to a
// tile side by side. Once, the racer may pass through walls: from an open tile `s` straight
// to an open tile `e` at most `max_len` steps away (Manhattan distance). The time saved is
// measured against the length of the fair path, counted in tiles.

/// The least number of steps from `a` to `b`.
pub open spec fn dist(open: spec_fn(int, int) -> bool, a: (int, int), b: (int, int)) -> nat {
    choose|n: nat| maze_dist(open, a, b, n)
}

/// Some walk leads from `a` to `b`.
pub open spec fn reachable(open: spec_fn(int, int) -> bool, a: (int, int), b: (int, int)) -> bool {
    exists|n: nat| maze_walk(open, a, b, n)
}

pub open spec fn abs(x: int) -> int {
    if x < 0 {
        -x
    } else {
        x
    }
}

pub open spec fn manhattan(a: (int, int), b: (int, int)) -> int {
    abs(b.0 - a.0) + abs(b.1 - a.1)
}

/// Tiles of the fair path less the tiles of the race that cheats from `s` to `e`.
pub open spec fn saving(open: spec_fn(int, int) -> bool, start: (int, int), goal: (int, int), s: (int, int), e: (int, int)) -> int {
    dist(open, start, goal) + 1 - (dist(open, start, s) + manhattan(s, e) + dist(open, goal, e))
}

/// A cheat from `s` to `e` between two different open tiles saves at least `min_save`.
pub open spec fn good_cheat(
    open: spec_fn(int, int) -> bool,
    start: (int, int),
    goal: (int, int),
    min_save: int,
    s: (int, int),
    e: (int, int),
) -> bool {
    open(s.0, s.1) && open(e.0, e.1) && s != e && min_save <= saving(open, start, goal, s, e)
}

/// Good cheats from `s` to the tiles `(s.0 + dx, s.1 + dy)`, `dy` from `lo` to `lo + k - 1`.
pub open spec fn count_dy(
    open: spec_fn(int, int) -> bool,
    start: (int, int),
    goal: (int, int),
    min_save: int,
    s: (int, int),
    dx: int,
    lo: int,
    k: int,
) -> nat
    decreases k,
{
    if k <= 0 {
        0
    } else {
        count_dy(open, start, goal, min_save, s, dx, lo, k - 1) + if good_cheat(
            open,
            start,
            goal,
            min_save,
            s,
            (s.0 + dx, s.1 + lo + k - 1),
        ) {
            1nat
        } else {
            0
        }
    }
}

/// Good cheats from `s` of length at most `l`, with a row offset `dx` from `-l` to `-l + k - 1`.
pub open spec fn count_dx(
    open: spec_fn(int, int) -> bool,
    start: (int, int),
    goal: (int, int),
    min_save: int,
    s: (int, int),
    l: int,
    k: int,
) -> nat
    decreases k,
{
    if k <= 0 {
        0
    } else {
        let dx = -l + k - 1;
        let rem = l - abs(dx);
        count_dx(open, start, goal, min_save, s, l, k - 1) + count_dy(
            open,
            start,
            goal,
            min_save,
            s,
            dx,
            -rem,
            2 * rem + 1,
        )
    }
}

/// Good cheats of length at most `l` starting at the first `k` tiles, row by row, of a
/// maze of width `w`.
pub open spec fn count_src(
    open: spec_fn(int, int) -> bool,
    start: (int, int),
    goal: (int, int),
    min_save: int,
    w: int,
    l: int,
    k: int,
) -> nat
    decreases k,
{
    if k <= 0 {
        0
    } else {
        count_src(open, start, goal, min_save, w, l, k - 1) + count_dx(
            open,
            start,
            goal,
            min_save,
            ((k - 1) / w, (k - 1) % w),
            l,
            2 * l + 1,
        )
    }
}

/// The number of good cheats of length at most `l` in the maze: pairs of a start tile and
/// an offset of Manhattan length at most `l`.
pub open spec fn cheat_count(maze: &Grid<bool>, start: (int, int), goal: (int, int), l: int, min_save: int) -> nat {
    count_src(
        grid_open(maze),
        start,
        goal,
        min_save,
        maze.width as int,
        l,
        maze.height() * maze.width,
    )
}

/// Every open tile can be reached from the start and from the goal, which are open.
pub open spec fn all_reachable(maze: &Grid<bool>, start: (int, int), goal: (int, int)) -> bool {
    reach_all(grid_open(maze), start, goal)
}

/// Every open tile can be reached from `start` and from `goal`, which are open.
pub open spec fn reach_all(open: spec_fn(int, int) -> bool, start: (int, int), goal: (int, int)) -> bool {
    &&& open(start.0, start.1)
    &&& open(goal.0, goal.1)
    &&& forall|r: int, c: int|
        #[trigger] open(r, c) ==> reachable(open, start, (r, c)) && reachable(open, goal, (r, c))
}

proof fn lemma_dist_unique(open: spec_fn(int, int) -> bool, a: (int, int), b: (int, int), n: nat, m: nat)
    requires
        maze_dist(open, a, b, n),
        maze_dist(open, a, b, m),
    ensures
        n == m,
{
    if n < m {
        assert(!maze_walk(open, a, b, n));
    }
    if m < n {
        assert(!maze_walk(open, a, b, m));
    }
}

/// The cost Dijkstra's algorithm gives an open tile is its distance.
proof fn lemma_cost_is_dist(mg: &Graph, g: &Grid<bool>, costs: Seq<Option<i32>>, s: (int, int), p: (int, int))
    requires
        graph::is_maze_graph(mg, g),
        0 <= s.0 < g.height() && 0 <= s.1 < g.width,
        0 <= p.0 < g.height() && 0 <= p.1 < g.width,
        mg.dijkstra_spec(tile(g.width as int, s) as usize, None, costs),
        reachable(grid_open(g), s, p),
    ensures
        costs[tile(g.width as int, p)] is Some,
        costs[tile(g.width as int, p)]->0 == dist(grid_open(g), s, p),
{
    let w = g.width as int;
    let open = grid_open(g);
    let y = choose|y: nat| maze_walk(open, s, p, y);
    graph::lemma_maze_walk(mg, g, s, p, y);
    graph::lemma_tile_in(g, s);
    graph::lemma_tile_in(g, p);
    let v = tile(w, p);
    assert(mg.walk(tile(w, s), v, y));
    let c = costs[v]->0;
    assert(costs[v] is Some && c >= 0 && mg.walk(tile(w, s), v, c as nat));
    assert forall|z: nat| z < c implies !#[trigger] mg.walk(tile(w, s), v, z) by {
        if mg.walk(tile(w, s), v, z) {
            assert(costs[v]->0 <= z);
        }
    }
    graph::lemma_maze_dist(mg, g, s, p, c as nat);
    lemma_dist_unique(open, s, p, c as nat, dist(open, s, p));
}

/// Good cheats from `s` with row offset `dx`, column offsets `lo .. lo + k`.
fn count_column(
    maze: &Grid<bool>,
    from_start: &Vec<Option<i32>>,
    from_goal: &Vec<Option<i32>>,
    fair: i64,
    min_save: i64,
    s: (usize, usize),
    dx: isize,
    lo: isize,
    k: usize,
    Ghost(start): Ghost<(int, int)>,
    Ghost(goal): Ghost<(int, int)>,
) -> (n: usize)
    requires
        maze.wf(),
        maze.height() * maze.width <= i32::MAX,
        maze.height() < 0x100_0000 && maze.width < 0x100_0000,
        from_start@.len() == maze.height() * maze.width,
        from_goal@.len() == maze.height() * maze.width,
        fair == dist(grid_open(maze), start, goal) + 1,
        forall|r: int, c: int|
            #[trigger] grid_open(maze)(r, c) ==> from_start@[tile(maze.width as int, (r, c))] == Some(
                dist(grid_open(maze), start, (r, c)) as i32,
            ) && from_goal@[tile(maze.width as int, (r, c))] == Some(
                dist(grid_open(maze), goal, (r, c)) as i32,
            ),
        forall|r: int, c: int|
            #[trigger] grid_open(maze)(r, c) ==> dist(grid_open(maze), start, (r, c)) <= i32::MAX
                && dist(grid_open(maze), goal, (r, c)) <= i32::MAX,
        dist(grid_open(maze), start, goal) <= i32::MAX,
        s.0 < maze.height() && s.1 < maze.width,
        -1000 <= dx <= 1000,
        -1000 <= lo,
        lo + k <= 1001,
    ensures
        n == count_dy(grid_open(maze), start, goal, min_save as int, (s.0 as int, s.1 as int), dx as int, lo as int, k as int),
        n <= k,
{
    let ghost open = grid_open(maze);
    let ghost sp = (s.0 as int, s.1 as int);
    let src_open = maze.cells[s.0][s.1];
    let mut n: usize = 0;
    let mut j: usize = 0;
    while j < k
        invariant
            maze.wf(),
            j <= k,
            n <= j,
            open == grid_open(maze),
            sp == (s.0 as int, s.1 as int),
            src_open == open(sp.0, sp.1),
            s.0 < maze.height() && s.1 < maze.width,
            -1000 <= dx <= 1000,
            -1000 <= lo,
            lo + k <= 1001,
            maze.height() * maze.width <= i32::MAX,
            maze.height() < 0x100_0000 && maze.width < 0x100_0000,
            from_start@.len() == maze.height() * maze.width,
            from_goal@.len() == maze.height() * maze.width,
            fair == dist(open, start, goal) + 1,
            forall|r: int, c: int|
                #[trigger] open(r, c) ==> from_start@[tile(maze.width as int, (r, c))] == Some(
                    dist(open, start, (r, c)) as i32,
                ) && from_goal@[tile(maze.width as int, (r, c))] == Some(dist(open, goal, (r, c)) as i32),
            forall|r: int, c: int|
                #[trigger] open(r, c) ==> dist(open, start, (r, c)) <= i32::MAX && dist(open, goal, (r, c))
                    <= i32::MAX,
            dist(open, start, goal) <= i32::MAX,
            n == count_dy(open, start, goal, min_save as int, sp, dx as int, lo as int, j as int),
        decreases k - j,
    {
        let dy = lo + j as isize;
        let er = s.0 as isize + dx;
        let ec = s.1 as isize + dy;
        let ghost e = (er as int, ec as int);
        let dst = Ix2s(er, ec);
        let mut good = false;
        if src_open && array2d::contains(maze, dst) {
            let eru = er as usize;
            let ecu = ec as usize;
            if maze.cells[eru][ecu] && !(eru == s.0 && ecu == s.1) {
                proof {
                    graph::lemma_tile_in(maze, sp);
                    graph::lemma_tile_in(maze, e);
                    assert(open(sp.0, sp.1));
                    assert(open(e.0, e.1));
                }
                let ts = s.0 * maze.width + s.1;
                let te = eru * maze.width + ecu;
                let ds = from_start[ts].unwrap();
                let dg = from_goal[te].unwrap();
                let adx: i64 = if dx < 0 {
                    -(dx as i64)
                } else {
                    dx as i64
                };
                let ady: i64 = if dy < 0 {
                    -(dy as i64)
                } else {
                    dy as i64
                };
                let len = ds as i64 + adx + ady + dg as i64;
                let save = fair - len;
                proof {
                    assert(manhattan(sp, e) == adx + ady);
                    assert(save == saving(open, start, goal, sp, e));
                }
                good = min_save <= save;
            }
        }
        proof {
            assert(e == (sp.0 + dx, sp.1 + lo + (j + 1) - 1));
            assert(good == good_cheat(open, start, goal, min_save as int, sp, e));
        }
        if good {
            n += 1;
        }
        j += 1;
    }
    n
}

/// What the counting loops need to know of the distances found.
pub open spec fn dists_known(
    maze: &Grid<bool>,
    from_start: Seq<Option<i32>>,
    from_goal: Seq<Option<i32>>,
    start: (int, int),
    goal: (int, int),
) -> bool {
    let open = grid_open(maze);
    &&& from_start.len() == maze.height() * maze.width
    &&& from_goal.len() == maze.height() * maze.width
    &&& forall|r: int, c: int|
        #[trigger] open(r, c) ==> from_start[tile(maze.width as int, (r, c))] == Some(
            dist(open, start, (r, c)) as i32,
        ) && from_goal[tile(maze.width as int, (r, c))] == Some(dist(open, goal, (r, c)) as i32)
    &&& forall|r: int, c: int|
        #[trigger] open(r, c) ==> dist(open, start, (r, c)) <= i32::MAX && dist(open, goal, (r, c))
            <= i32::MAX
    &&& dist(open, start, goal) <= i32::MAX
}

/// Dijkstra's costs from the start and from the goal are the distances of the open tiles.
proof fn lemma_dists_known(
    mg: &Graph,
    maze: &Grid<bool>,
    from_start: Seq<Option<i32>>,
    from_goal: Seq<Option<i32>>,
    sp: (int, int),
    gp: (int, int),
)
    requires
        graph::is_maze_graph(mg, maze),
        0 <= sp.0 < maze.height() && 0 <= sp.1 < maze.width,
        0 <= gp.0 < maze.height() && 0 <= gp.1 < maze.width,
        mg.dijkstra_spec(tile(maze.width as int, sp) as usize, None, from_start),
        mg.dijkstra_spec(tile(maze.width as int, gp) as usize, None, from_goal),
        all_reachable(maze, sp, gp),
    ensures
        dists_known(maze, from_start, from_goal, sp, gp),
        from_start[tile(maze.width as int, gp)] == Some(dist(grid_open(maze), sp, gp) as i32),
{
    let open = grid_open(maze);
    let w = maze.width;
    assert forall|r: int, c: int| #[trigger] open(r, c) implies from_start[tile(w as int, (r, c))] == Some(
        dist(open, sp, (r, c)) as i32,
    ) && from_goal[tile(w as int, (r, c))] == Some(dist(open, gp, (r, c)) as i32) && dist(
        open,
        sp,
        (r, c),
    ) <= i32::MAX && dist(open, gp, (r, c)) <= i32::MAX by {
        lemma_cost_is_dist(mg, maze, from_start, sp, (r, c));
        lemma_cost_is_dist(mg, maze, from_goal, gp, (r, c));
    }
    assert(open(gp.0, gp.1));
    lemma_cost_is_dist(mg, maze, from_start, sp, gp);
}

/// Good cheats from `s` of length at most `l`.
fn count_from(
    maze: &Grid<bool>,
    from_start: &Vec<Option<i32>>,
    from_goal: &Vec<Option<i32>>,
    fair: i64,
    min_save: i64,
    s: (usize, usize),
    l: usize,
    Ghost(start): Ghost<(int, int)>,
    Ghost(goal): Ghost<(int, int)>,
) -> (n: usize)
    requires
        maze.wf(),
        maze.height() * maze.width <= i32::MAX,
        maze.height() < 0x100_0000 && maze.width < 0x100_0000,
        dists_known(maze, from_start@, from_goal@, start, goal),
        fair == dist(grid_open(maze), start, goal) + 1,
        s.0 < maze.height() && s.1 < maze.width,
        l <= 1000,
    ensures
        n == count_dx(grid_open(maze), start, goal, min_save as int, (s.0 as int, s.1 as int), l as int, 2 * l + 1),
        n <= (2 * l + 1) * (2 * l + 1),
{
    let ghost open = grid_open(maze);
    let ghost sp = (s.0 as int, s.1 as int);
    let k = 2 * l + 1;
    let mut n: usize = 0;
    let mut j: usize = 0;
    while j < k
        invariant
            maze.wf(),
            maze.height() * maze.width <= i32::MAX,
            maze.height() < 0x100_0000 && maze.width < 0x100_0000,
            dists_known(maze, from_start@, from_goal@, start, goal),
            fair == dist(grid_open(maze), start, goal) + 1,
            s.0 < maze.height() && s.1 < maze.width,
            l <= 1000,
            k == 2 * l + 1,
            open == grid_open(maze),
            sp == (s.0 as int, s.1 as int),
            j <= k,
            n <= j * k,
            n == count_dx(open, start, goal, min_save as int, sp, l as int, j as int),
        decreases k - j,
    {
        let dx: isize = j as isize - l as isize;
        let adx: usize = if j < l {
            l - j
        } else {
            j - l
        };
        let rem: usize = l - adx;
        let c = count_column(
            maze,
            from_start,
            from_goal,
            fair,
            min_save,
            s,
            dx,
            -(rem as isize),
            2 * rem + 1,
            Ghost(start),
            Ghost(goal),
        );
        proof {
            assert(abs(dx as int) == adx);
            assert(-(l as int) + (j + 1) - 1 == dx);
            assert((j + 1) * k == j * k + k) by (nonlinear_arith);
            assert((j + 1) * k <= 2001 * 2001) by (nonlinear_arith)
                requires
                    j < k,
                    k <= 2001,
            ;
        }
        n = n + c;
        j += 1;
    }
    n
}

/// The number of cheats of length at most `max_len` that save at least `min_save` tiles
/// against the fair path, whose tiles are counted from the start to the goal.
pub fn count_cheats(maze: &Grid<bool>, start: (usize, usize), goal: (usize, usize), max_len: usize, min_save: i64) -> (n: usize)
    requires
        maze.wf(),
        4 * maze.height() * maze.width <= i32::MAX,
        maze.height() < 0x100_0000 && maze.width < 0x100_0000,
        start.0 < maze.height() && start.1 < maze.width,
        goal.0 < maze.height() && goal.1 < maze.width,
        all_reachable(maze, (start.0 as int, start.1 as int), (goal.0 as int, goal.1 as int)),
        max_len <= 1000,
        maze.height() * maze.width * ((2 * max_len + 1) * (2 * max_len + 1)) <= usize::MAX,
    ensures
        n == cheat_count(maze, (start.0 as int, start.1 as int), (goal.0 as int, goal.1 as int), max_len as int, min_save as int),
{
    let ghost open = grid_open(maze);
    let ghost sp = (start.0 as int, start.1 as int);
    let ghost gp = (goal.0 as int, goal.1 as int);
    let ghost h = maze.height();
    let w = maze.width;
    let hu = maze.cells.len();
    proof {
        assert(4 * (h * w) == 4 * h * w) by (nonlinear_arith);
        graph::lemma_tile_in(maze, sp);
        graph::lemma_tile_in(maze, gp);
    }
    let mg = graph::from_maze_grid(maze);
    let ts = start.0 * w + start.1;
    let tg = goal.0 * w + goal.1;
    let from_start = graph::dijkstra_undirected(&mg, ts, None);
    let from_goal = graph::dijkstra_undirected(&mg, tg, None);
    proof {
        assert(graph::is_maze_graph(&mg, maze));
        lemma_dists_known(&mg, maze, from_start@, from_goal@, sp, gp);
    }
    let path = graph::shortest_path(&mg, &from_start, tg);
    proof {
        graph::lemma_back_path_len(&mg, ts, None, from_start@, path@, tg);
    }
    let fair: i64 = path.len() as i64;
    let k = hu * w;
    let ghost per = (2 * max_len + 1) * (2 * max_len + 1);
    let mut n: usize = 0;
    let mut t: usize = 0;
    while t < k
        invariant
            maze.wf(),
            maze.height() * maze.width <= i32::MAX,
            maze.height() < 0x100_0000 && maze.width < 0x100_0000,
            dists_known(maze, from_start@, from_goal@, sp, gp),
            fair == dist(grid_open(maze), sp, gp) + 1,
            max_len <= 1000,
            open == grid_open(maze),
            w == maze.width,
            k == maze.height() * maze.width,
            per == (2 * max_len + 1) * (2 * max_len + 1),
            k * per <= usize::MAX,
            t <= k,
            n <= t * per,
            n == count_src(open, sp, gp, min_save as int, w as int, max_len as int, t as int),
        decreases k - t,
    {
        let r = t / w;
        let c = t % w;
        proof {
            assert(r < maze.height()) by (nonlinear_arith)
                requires
                    t < k,
                    k == maze.height() * w,
                    r == t / w,
                    w > 0,
            ;
        }
        let m = count_from(maze, &from_start, &from_goal, fair, min_save, (r, c), max_len, Ghost(sp), Ghost(gp));
        proof {
            assert((t + 1) * per == t * per + per) by (nonlinear_arith);
            assert((t + 1) * per <= k * per) by (nonlinear_arith)
                requires
                    t < k,
                    per >= 0,
            ;
        }
        n = n + m;
        t += 1;
    }
    n
}

// ---------------------------------------------------------------------------
// Input: the maze as text, '#' for walls, 'S' for the start and 'E' for the goal.

/// `p` holds the first `ch` of the text, row by row.
pub open spec fn first_pos(ls: Seq<Seq<char>>, ch: char, p: (int, int)) -> bool {
    &&& 0 <= p.0 < ls.len() && 0 <= p.1 < ls[p.0].len()
    &&& ls[p.0][p.1] == ch
    &&& forall|r: int, c: int|
        0 <= r < ls.len() && 0 <= c < ls[r].len() && (r < p.0 || (r == p.0 && c < p.1)) ==> #[trigger] ls[r][c]
            != ch
}

/// The place of the first `ch` of the text.
pub open spec fn pos_of(ls: Seq<Seq<char>>, ch: char) -> (int, int) {
    choose|p: (int, int)| first_pos(ls, ch, p)
}

proof fn lemma_first_unique(ls: Seq<Seq<char>>, ch: char, p: (int, int), q: (int, int))
    requires
        first_pos(ls, ch, p),
        first_pos(ls, ch, q),
    ensures
        p == q,
{
    if p.0 < q.0 || (p.0 == q.0 && p.1 < q.1) {
        assert(ls[p.0][p.1] != ch);
    }
    if q.0 < p.0 || (q.0 == p.0 && q.1 < p.1) {
        assert(ls[q.0][q.1] != ch);
    }
}

/// The tiles of the text that are no wall.
pub open spec fn text_open(ls: Seq<Seq<char>>) -> spec_fn(int, int) -> bool {
    |r: int, c: int| 0 <= r < ls.len() && 0 <= c < ls[0].len() && ls[r][c] != '#'
}

/// A rectangular maze, small enough for the distances and the counts, with a start and a
/// goal from which every tile that is no wall can be reached.
pub open spec fn valid_input(input: Seq<char>, max_len: int) -> bool {
    let ls = parse::lines_of(input);
    &&& array2d::rectangular(ls)
    &&& ls.len() >= 1
    &&& 4 * ls.len() * ls[0].len() <= i32::MAX
    &&& ls.len() < 0x100_0000 && ls[0].len() < 0x100_0000
    &&& ls.len() * ls[0].len() * ((2 * max_len + 1) * (2 * max_len + 1)) <= usize::MAX
    &&& exists|p: (int, int)| first_pos(ls, 'S', p)
    &&& exists|p: (int, int)| first_pos(ls, 'E', p)
    &&& reach_all(text_open(ls), pos_of(ls, 'S'), pos_of(ls, 'E'))
}

/// The good cheats of the maze of the text, of length at most `max_len`, saving at least
/// 100 tiles.
pub open spec fn cheats_of(input: Seq<char>, max_len: int) -> nat {
    let ls = parse::lines_of(input);
    count_src(
        text_open(ls),
        pos_of(ls, 'S'),
        pos_of(ls, 'E'),
        100,
        ls[0].len() as int,
        max_len,
        (ls.len() * ls[0].len()) as int,
    )
}

/// The maze with `true` for each tile that is no wall.
fn traversible(g: &Grid<char>) -> (m: Grid<bool>)
    requires
        g.wf(),
    ensures
        m.wf(),
        m.width == g.width,
        m.height() == g.height(),
        forall|r: int, c: int|
            0 <= r < g.height() && 0 <= c < g.width ==> #[trigger] m.at(r, c) == (g.at(r, c) != '#'),
{
    let mut cells: Vec<Vec<bool>> = Vec::new();
    let mut r: usize = 0;
    while r < g.cells.len()
        invariant
            g.wf(),
            r <= g.height(),
            cells@.len() == r,
            forall|i: int| 0 <= i < r ==> (#[trigger] cells@[i])@.len() == g.width,
            forall|i: int, c: int|
                0 <= i < r && 0 <= c < g.width ==> #[trigger] cells@[i]@[c] == (g.at(i, c) != '#'),
        decreases g.height() - r,
    {
        let mut row: Vec<bool> = Vec::new();
        let mut c: usize = 0;
        while c < g.width
            invariant
                g.wf(),
                r < g.height(),
                c <= g.width,
                row@.len() == c,
                forall|j: int| 0 <= j < c ==> #[trigger] row@[j] == (g.at(r as int, j) != '#'),
            decreases g.width - c,
        {
            row.push(g.cells[r][c] != '#');
            c += 1;
        }
        cells.push(row);
        r += 1;
    }
    Grid { cells, width: g.width }
}

/// The grids read from the text: the characters, and the tiles that are no wall.
proof fn lemma_text_grid(g: &Grid<char>, maze: &Grid<bool>, ls: Seq<Seq<char>>, p: (int, int), ch: char)
    requires
        g.wf(),
        g.rows() == ls,
        ls.len() >= 1,
        maze.wf(),
        maze.width == g.width,
        maze.height() == g.height(),
        forall|r: int, c: int|
            0 <= r < g.height() && 0 <= c < g.width ==> #[trigger] maze.at(r, c) == (g.at(r, c) != '#'),
        g.in_bounds(Ix2s(p.0 as isize, p.1 as isize)),
        p.0 as isize as int == p.0 && p.1 as isize as int == p.1,
        g.at(p.0, p.1) == ch,
        forall|r: int, c: int|
            #![trigger g.at(r, c)]
            0 <= r < g.height() && 0 <= c < g.width && (r < p.0 || (r == p.0 && c < p.1)) ==> g.at(r, c) != ch,
    ensures
        first_pos(ls, ch, p),
        grid_open(maze) == text_open(ls),
        maze.height() == ls.len(),
        maze.width == ls[0].len(),
{
    assert forall|r: int| 0 <= r < g.height() implies #[trigger] ls[r] == g.cells@[r]@ by {
        assert(g.rows()[r] == g.cells@[r]@);
    }
    assert(ls[0].len() == g.width);
    assert forall|r: int, c: int|
        0 <= r < ls.len() && 0 <= c < ls[r].len() && (r < p.0 || (r == p.0 && c < p.1)) implies #[trigger] ls[r][c]
        != ch by {
        assert(ls[r] == g.cells@[r]@);
        assert(g.at(r, c) != ch);
    }
    assert(ls[p.0] == g.cells@[p.0]@);
    assert forall|r: int, c: int| #[trigger] grid_open(maze)(r, c) == text_open(ls)(r, c) by {
        if 0 <= r < ls.len() && 0 <= c < ls[0].len() {
            assert(ls[r] == g.cells@[r]@);
            assert(maze.at(r, c) == (g.at(r, c) != '#'));
        }
    }
    assert(grid_open(maze) =~= text_open(ls));
}

/// A character that the text holds is in the grid read from it.
proof fn lemma_has_char(g: &Grid<char>, ls: Seq<Seq<char>>, ch: char)
    requires
        g.wf(),
        g.rows() == ls,
        exists|p: (int, int)| first_pos(ls, ch, p),
    ensures
        0 <= pos_of(ls, ch).0 < g.height() && 0 <= pos_of(ls, ch).1 < g.width,
        g.at(pos_of(ls, ch).0, pos_of(ls, ch).1) == ch,
{
    let q = pos_of(ls, ch);
    assert(first_pos(ls, ch, q));
    assert(g.rows()[q.0] == g.cells@[q.0]@);
}

fn cheats(input: &str, max_len: usize) -> (n: usize)
    requires
        max_len <= 1000,
        valid_input(input@, max_len as int),
    ensures
        n == cheats_of(input@, max_len as int),
{
    let ghost ls = parse::lines_of(input@);
    let g = array2d::from_chars(input);
    cheats_in(&g, max_len, Ghost(ls))
}

fn cheats_in(g: &Grid<char>, max_len: usize, Ghost(ls): Ghost<Seq<Seq<char>>>) -> (n: usize)
    requires
        max_len <= 1000,
        g.wf(),
        g.rows() == ls,
        ls.len() >= 1,
        4 * ls.len() * ls[0].len() <= i32::MAX,
        ls.len() < 0x100_0000 && ls[0].len() < 0x100_0000,
        ls.len() * ls[0].len() * ((2 * max_len + 1) * (2 * max_len + 1)) <= usize::MAX,
        exists|p: (int, int)| first_pos(ls, 'S', p),
        exists|p: (int, int)| first_pos(ls, 'E', p),
        reach_all(text_open(ls), pos_of(ls, 'S'), pos_of(ls, 'E')),
    ensures
        n == count_src(
            text_open(ls),
            pos_of(ls, 'S'),
            pos_of(ls, 'E'),
            100,
            ls[0].len() as int,
            max_len as int,
            (ls.len() * ls[0].len()) as int,
        ),
{
    proof {
        lemma_has_char(g, ls, 'S');
        lemma_has_char(g, ls, 'E');
        assert(g.rows()[0] == g.cells@[0]@);
    }
    let start = match array2d::find_position(g, 'S') {
        Some(p) => p,
        None => {
            proof {
                assert(g.at(pos_of(ls, 'S').0, pos_of(ls, 'S').1) == 'S');
            }
            return 0;
        },
    };
    let goal = match array2d::find_position(g, 'E') {
        Some(p) => p,
        None => {
            proof {
                assert(g.at(pos_of(ls, 'E').0, pos_of(ls, 'E').1) == 'E');
            }
            return 0;
        },
    };
    let maze = traversible(g);
    let ghost sp = (start.0 as int, start.1 as int);
    let ghost gp = (goal.0 as int, goal.1 as int);
    proof {
        lemma_text_grid(g, &maze, ls, sp, 'S');
        lemma_text_grid(g, &maze, ls, gp, 'E');
        lemma_first_unique(ls, 'S', sp, pos_of(ls, 'S'));
        lemma_first_unique(ls, 'E', gp, pos_of(ls, 'E'));
        assert(maze.height() * maze.width == ls.len() * ls[0].len());
    }
    count_cheats(&maze, (start.0 as usize, start.1 as usize), (goal.0 as usize, goal.1 as usize), max_len, 100)
}

/// Cheats of up to two steps that save at least 100 tiles.
pub fn part1(input: &str) -> (n: usize)
    requires
        valid_input(input@, 2),
    ensures
        n == cheats_of(input@, 2),
{
    cheats(input, 2)
}

/// Cheats of up to twenty steps that save at least 100 tiles.
pub fn part2(input: &str) -> (n: usize)
    requires
        valid_input(input@, 20),
    ensures
        n == cheats_of(input@, 20),
{
    cheats(input, 20)
}

} // verus!
