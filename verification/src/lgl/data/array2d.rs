use crate::lgl::data::index::Ix2s;
use crate::lgl::data::table;
use crate::lgl::parse;
use crate::lgl::text;
use vstd::prelude::*;

verus! {

/// A rectangular 2D array stored row by row. Index `(r, c)` is row `r`, column `c`.
pub struct Grid<T> {
    pub cells: Vec<Vec<T>>,
    pub width: usize,
}

impl<T> Grid<T> {
    /// Every row has `width` cells.
    pub open spec fn wf(&self) -> bool {
        forall|r: int| 0 <= r < self.cells@.len() ==> (#[trigger] self.cells@[r])@.len() == self.width
    }

    pub open spec fn height(&self) -> int {
        self.cells@.len() as int
    }

    pub open spec fn at(&self, r: int, c: int) -> T {
        self.cells@[r]@[c]
    }

    pub open spec fn in_bounds(&self, p: Ix2s) -> bool {
        0 <= p.0 < self.height() && 0 <= p.1 < self.width
    }

    pub open spec fn rows(&self) -> Seq<Seq<T>> {
        self.cells@.map_values(|row: Vec<T>| row@)
    }

    pub fn height_exec(&self) -> (h: usize)
        ensures
            h == self.height(),
    {
        self.cells.len()
    }
}

/// All rows of the table have the same length.
pub open spec fn rectangular<T>(t: Seq<Seq<T>>) -> bool {
    forall|r: int| 0 <= r < t.len() ==> (#[trigger] t[r]).len() == t[0].len()
}

/// Construct a grid from a rectangular table.
pub fn to_grid<T>(table: Vec<Vec<T>>) -> (g: Grid<T>)
    requires
        rectangular(table::deep(table@)),
    ensures
        g.wf(),
        g.rows() == table::deep(table@),
        g.width == (if table@.len() == 0 { 0 } else { table@[0]@.len() }),
{
    let width = if table.len() == 0 {
        0
    } else {
        table[0].len()
    };
    let g = Grid { cells: table, width };
    assert forall|r: int| 0 <= r < g.cells@.len() implies (#[trigger] g.cells@[r])@.len()
        == g.width by {
        assert(table::deep(table@)[r].len() == table::deep(table@)[0].len());
    }
    g
}

/// Construct a grid of characters from a text whose lines all have the same length.
pub fn from_chars(s: &str) -> (g: Grid<char>)
    requires
        rectangular(parse::lines_of(s@)),
    ensures
        g.wf(),
        g.rows() == parse::lines_of(s@),
        g.height() == 0 ==> g.width == 0,
{
    let t = table::to_char_table(s);
    assert(table::deep(t@) =~= t@.map_values(|r: Vec<char>| r@));
    to_grid(t)
}

/// Whether the position lies inside the grid.
pub fn contains<T>(g: &Grid<T>, pos: Ix2s) -> (b: bool)
    requires
        g.wf(),
    ensures
        b == g.in_bounds(pos),
{
    0 <= pos.0 && (pos.0 as usize) < g.cells.len() && 0 <= pos.1 && (pos.1 as usize) < g.width
}

/// The cell at `pos`, or `None` outside the grid.
pub fn get<T>(g: &Grid<T>, pos: Ix2s) -> (r: Option<&T>)
    requires
        g.wf(),
    ensures
        r == (if g.in_bounds(pos) {
            Some(&g.at(pos.0 as int, pos.1 as int))
        } else {
            None
        }),
{
    if contains(g, pos) {
        Some(&g.cells[pos.0 as usize][pos.1 as usize])
    } else {
        None
    }
}

/// Overwrite the cell at `pos`.
pub fn set<T>(g: &mut Grid<T>, pos: Ix2s, v: T)
    requires
        old(g).wf(),
        old(g).in_bounds(pos),
    ensures
        final(g).wf(),
        final(g).width == old(g).width,
        final(g).height() == old(g).height(),
        forall|r: int, c: int|
            0 <= r < old(g).height() && 0 <= c < old(g).width ==> #[trigger] final(g).at(r, c) == (
            if r == pos.0 && c == pos.1 {
                v
            } else {
                old(g).at(r, c)
            }),
{
    let r = pos.0 as usize;
    let c = pos.1 as usize;
    g.cells[r].set(c, v);
}

/// Position of the first cell, in row-major order, equal to `needle`.
pub fn find_position(g: &Grid<char>, needle: char) -> (p: Option<Ix2s>)
    requires
        g.wf(),
        g.height() <= isize::MAX,
        g.width <= isize::MAX,
    ensures
        match p {
            Some(p) => g.in_bounds(p) && g.at(p.0 as int, p.1 as int) == needle && forall|
                r: int,
                c: int,
            |
                #![trigger g.at(r, c)]
                0 <= r < g.height() && 0 <= c < g.width && (r < p.0 || (r == p.0 && c < p.1))
                    ==> g.at(r, c) != needle,
            None => forall|r: int, c: int|
                0 <= r < g.height() && 0 <= c < g.width ==> #[trigger] g.at(r, c) != needle,
        },
{
    let mut r: usize = 0;
    while r < g.cells.len()
        invariant
            g.wf(),
            g.height() <= isize::MAX,
            g.width <= isize::MAX,
            r <= g.height(),
            forall|i: int, j: int|
                0 <= i < r && 0 <= j < g.width ==> #[trigger] g.at(i, j) != needle,
        decreases g.height() - r,
    {
        let mut c: usize = 0;
        while c < g.width
            invariant
                g.wf(),
                g.height() <= isize::MAX,
                g.width <= isize::MAX,
                r < g.height(),
                c <= g.width,
                forall|i: int, j: int|
                    0 <= i < r && 0 <= j < g.width ==> #[trigger] g.at(i, j) != needle,
                forall|j: int| 0 <= j < c ==> #[trigger] g.at(r as int, j) != needle,
            decreases g.width - c,
        {
            if g.cells[r][c] == needle {
                return Some(Ix2s(r as isize, c as isize));
            }
            c += 1;
        }
        r += 1;
    }
    None
}

/// The grid as text: one line per row, cells separated by `sep`.
pub fn display(g: &Grid<char>, sep: &str) -> (s: String)
    requires
        g.wf(),
    ensures
        s@ == text::join(
            g.rows().map_values(
                |row: Seq<char>| text::join(row.map_values(|c: char| seq![c]), sep@),
            ),
            seq!['\n'],
        ),
{
    let ghost lines = g.rows().map_values(
        |row: Seq<char>| text::join(row.map_values(|c: char| seq![c]), sep@),
    );
    let mut out = String::new();
    let mut r: usize = 0;
    while r < g.cells.len()
        invariant
            r <= g.height(),
            lines == g.rows().map_values(
                |row: Seq<char>| text::join(row.map_values(|c: char| seq![c]), sep@),
            ),
            out@ == text::join(lines.take(r as int), seq!['\n']),
        decreases g.height() - r,
    {
        if r > 0 {
            out.append("\n");
            proof {
                reveal_strlit("\n");
            }
        }
        let row = &g.cells[r];
        let ghost cells = row@.map_values(|c: char| seq![c]);
        let mut line = String::new();
        let mut c: usize = 0;
        while c < row.len()
            invariant
                c <= row@.len(),
                cells == row@.map_values(|c: char| seq![c]),
                line@ == text::join(cells.take(c as int), sep@),
            decreases row@.len() - c,
        {
            if c > 0 {
                line.append(sep);
            }
            let one = char_string(row[c]);
            line.append(one.as_str());
            assert(cells.take(c + 1).drop_last() =~= cells.take(c as int));
            c += 1;
        }
        assert(cells.take(row@.len() as int) =~= cells);
        assert(g.rows()[r as int] == row@);
        out.append(line.as_str());
        assert(lines.take(r + 1).drop_last() =~= lines.take(r as int));
        r += 1;
    }
    assert(lines.take(g.height()) =~= lines);
    out
}

/// `char::to_string`: the one-character string.
#[verifier::external_body]
pub(crate) fn char_string(c: char) -> (s: String)
    ensures
        s@ == seq![c],
{
    c.to_string()
}

} // verus!
