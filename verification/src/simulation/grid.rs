//! The grid: rows of one-character cells, its model, and the cell accessors
//! that the simulation reads and writes through.
use vstd::prelude::*;
use vstd::string::*;

verus! {

/// The model of a grid: row `y`, column `x`, the characters of the cell.
pub type GridView = Seq<Seq<Seq<char>>>;

/// The cell that holds exactly the character `c`.
pub open spec fn glyph(c: char) -> Seq<char> {
    seq![c]
}

/// Distinct characters make distinct cells.
pub broadcast proof fn lemma_glyph_injective(a: char, b: char)
    ensures
        #[trigger] glyph(a) == #[trigger] glyph(b) <==> a == b,
{
    if glyph(a) == glyph(b) {
        assert(glyph(a)[0] == glyph(b)[0]);
    }
}

/// The model of a grid value.
pub open spec fn gview(grid: &Vec<Vec<String>>) -> GridView {
    grid.deep_view()
}

pub open spec fn in_grid(g: GridView, y: int, x: int) -> bool {
    0 <= y < g.len() && 0 <= x < g[y].len()
}

/// The cell at row `y`, column `x`; a position outside the grid reads as a wall `#`.
pub open spec fn at(g: GridView, y: int, x: int) -> Seq<char> {
    if in_grid(g, y, x) {
        g[y][x]
    } else {
        glyph('#')
    }
}

/// The grid with the cell at (`y`, `x`) replaced by `v`; outside the grid nothing changes.
pub open spec fn put(g: GridView, y: int, x: int, v: Seq<char>) -> GridView {
    if in_grid(g, y, x) {
        g.update(y, g[y].update(x, v))
    } else {
        g
    }
}

/// Two grids with the same number of rows and the same row lengths.
pub open spec fn same_shape(a: GridView, b: GridView) -> bool {
    &&& a.len() == b.len()
    &&& forall|y: int| 0 <= y < a.len() ==> #[trigger] a[y].len() == b[y].len()
}

/// Every row below `rows` holds at least `cols` cells, and there are at least
/// `rows` rows (when `cols` is not zero).
pub open spec fn covers(g: GridView, cols: int, rows: int) -> bool {
    cols > 0 ==> {
        &&& rows <= g.len()
        &&& forall|y: int| 0 <= y < rows ==> #[trigger] g[y].len() >= cols
    }
}

/// The characters that the simulation writes into cells.
pub open spec fn is_symbol(c: char) -> bool {
    c == '_' || c == '0' || c == '(' || c == ')' || c == 'W' || c == '#' || c == 'B' || c == 'E'
        || c == '^' || c == ' '
}

/// Whether the text `s` is exactly the one character `c`.
pub fn is_glyph(s: &str, c: char) -> (b: bool)
    ensures
        b == (s@ == glyph(c)),
{
    if s.unicode_len() == 1 {
        let d = s.get_char(0);
        assert(s@.len() == 1);
        if d == c {
            assert(s@ =~= glyph(c));
            true
        } else {
            false
        }
    } else {
        false
    }
}

/// A new cell holding the one character `c`.
pub fn glyph_string(c: char) -> (s: String)
    requires
        is_symbol(c),
    ensures
        s@ == glyph(c),
{
    let lit: &str = if c == '_' {
        proof { reveal_strlit("_"); }
        "_"
    } else if c == '0' {
        proof { reveal_strlit("0"); }
        "0"
    } else if c == '(' {
        proof { reveal_strlit("("); }
        "("
    } else if c == ')' {
        proof { reveal_strlit(")"); }
        ")"
    } else if c == 'W' {
        proof { reveal_strlit("W"); }
        "W"
    } else if c == '#' {
        proof { reveal_strlit("#"); }
        "#"
    } else if c == 'B' {
        proof { reveal_strlit("B"); }
        "B"
    } else if c == 'E' {
        proof { reveal_strlit("E"); }
        "E"
    } else if c == '^' {
        proof { reveal_strlit("^"); }
        "^"
    } else {
        proof { reveal_strlit(" "); }
        " "
    };
    assert(lit@ =~= glyph(c));
    String::from_str(lit)
}

/// The cell at (`y` + `dy`, `x` + `dx`), or `#` where that lies outside the grid.
pub fn look<'a>(grid: &'a Vec<Vec<String>>, y: usize, x: usize, dy: i8, dx: i8) -> (s: &'a str)
    requires
        -1 <= dy <= 1,
        -1 <= dx <= 1,
    ensures
        s@ == at(gview(grid), y + dy, x + dx),
        in_grid(gview(grid), y + dy, x + dx) ==> y + dy <= usize::MAX && x + dx <= usize::MAX,
{
    proof { reveal_strlit("#"); }
    let ny: usize = if dy < 0 {
        if y == 0 {
            return "#";
        }
        y - 1
    } else if dy > 0 {
        if y >= grid.len() {
            return "#";
        }
        y + 1
    } else {
        y
    };
    let nx: usize = if dx < 0 {
        if x == 0 {
            return "#";
        }
        x - 1
    } else if dx > 0 {
        if ny >= grid.len() || x >= grid[ny].len() {
            return "#";
        }
        x + 1
    } else {
        x
    };
    if ny < grid.len() && nx < grid[ny].len() {
        grid[ny][nx].as_str()
    } else {
        "#"
    }
}

/// Whether the cell at (`y` + `dy`, `x` + `dx`) is the one character `c`.
pub fn look_is(grid: &Vec<Vec<String>>, y: usize, x: usize, dy: i8, dx: i8, c: char) -> (b: bool)
    requires
        -1 <= dy <= 1,
        -1 <= dx <= 1,
    ensures
        b == (at(gview(grid), y + dy, x + dx) == glyph(c)),
        in_grid(gview(grid), y + dy, x + dx) ==> y + dy <= usize::MAX && x + dx <= usize::MAX,
{
    is_glyph(look(grid, y, x, dy, dx), c)
}

/// Writes the one character `c` into the cell at (`y`, `x`).
pub fn write_cell(grid: &mut Vec<Vec<String>>, y: usize, x: usize, c: char)
    requires
        is_symbol(c),
        in_grid(gview(old(grid)), y as int, x as int),
    ensures
        gview(final(grid)) == put(gview(old(grid)), y as int, x as int, glyph(c)),
{
    let ghost g0 = gview(grid);
    let s = glyph_string(c);
    let mut row: Vec<String> = Vec::new();
    grid.set_and_swap(y, &mut row);
    row.set(x, s);
    grid.set_and_swap(y, &mut row);
    let ghost g1 = gview(grid);
    let ghost want = put(g0, y as int, x as int, glyph(c));
    assert(g1.len() == want.len());
    assert forall|i: int| 0 <= i < g1.len() implies #[trigger] g1[i] =~= want[i] by {
        if i == y as int {
            assert(g1[i] =~= g0[i].update(x as int, glyph(c)));
        }
    }
    assert(g1 =~= want);
}

/// The number of cells in row `y`, zero for a row outside the grid.
pub open spec fn row_len(g: GridView, y: int) -> int {
    if 0 <= y < g.len() {
        g[y].len() as int
    } else {
        0
    }
}

/// The number of cells in row `y`, zero for a row outside the grid.
pub fn row_width(grid: &Vec<Vec<String>>, y: usize) -> (n: usize)
    ensures
        n == row_len(gview(grid), y as int),
{
    if y < grid.len() {
        grid[y].len()
    } else {
        0
    }
}

/// Only a cell inside the grid can read as anything but a wall `#`.
pub broadcast proof fn lemma_inside_unless_wall(g: GridView, y: int, x: int)
    ensures
        #[trigger] at(g, y, x) != glyph('#') ==> in_grid(g, y, x),
{
}

/// Writing a cell keeps the shape of the grid and changes only that cell.
pub broadcast proof fn lemma_put_at(g: GridView, y: int, x: int, v: Seq<char>, a: int, b: int)
    ensures
        #[trigger] at(put(g, y, x, v), a, b) == if a == y && b == x && in_grid(g, y, x) {
            v
        } else {
            at(g, a, b)
        },
        in_grid(put(g, y, x, v), a, b) == in_grid(g, a, b),
{
}

/// Writing a cell keeps the shape of the grid.
pub broadcast proof fn lemma_put_shape(g: GridView, y: int, x: int, v: Seq<char>)
    ensures
        #[trigger] same_shape(g, put(g, y, x, v)),
        put(g, y, x, v).len() == g.len(),
{
}

/// Grids of the same shape have the same cells inside them.
pub proof fn lemma_same_shape_in_grid(a: GridView, b: GridView, y: int, x: int)
    requires
        same_shape(a, b),
    ensures
        in_grid(a, y, x) == in_grid(b, y, x),
        row_len(a, y) == row_len(b, y),
{
    if 0 <= y < a.len() {
        assert(a[y].len() == b[y].len());
    }
}

/// Having the same shape is transitive.
pub proof fn lemma_same_shape_trans(a: GridView, b: GridView, c: GridView)
    requires
        same_shape(a, b),
        same_shape(b, c),
    ensures
        same_shape(a, c),
{
    assert forall|y: int| 0 <= y < a.len() implies #[trigger] a[y].len() == c[y].len() by {
        assert(a[y].len() == b[y].len());
        assert(b[y].len() == c[y].len());
    }
}

/// A copy of the grid, cell by cell.
pub fn clone_grid(grid: &Vec<Vec<String>>) -> (r: Vec<Vec<String>>)
    ensures
        gview(&r) == gview(grid),
{
    let mut out: Vec<Vec<String>> = Vec::new();
    for y in 0..grid.len()
        invariant
            out@.len() == y,
            forall|r: int| 0 <= r < y ==> #[trigger] gview(&out)[r] == gview(grid)[r],
    {
        let mut row: Vec<String> = Vec::new();
        let w = grid[y].len();
        for x in 0..w
            invariant
                y < grid@.len(),
                w == grid@[y as int]@.len(),
                row@.len() == x,
                forall|c: int| 0 <= c < x ==> #[trigger] row@[c]@ == grid@[y as int]@[c]@,
        {
            row.push(grid[y][x].clone());
        }
        proof {
            assert(row.deep_view() =~= gview(grid)[y as int]);
        }
        let ghost before = out@;
        let ghost before_g = gview(&out);
        out.push(row);
        proof {
            assert forall|r: int| 0 <= r < y + 1 implies #[trigger] gview(&out)[r] == gview(grid)[r] by {
                if r < y {
                    assert(out@[r] == before[r]);
                    assert(before_g[r] == gview(grid)[r]);
                    assert(before_g[r] == before[r].deep_view());
                    assert(gview(&out)[r] == out@[r].deep_view());
                } else {
                    assert(gview(&out)[r] == out@[r].deep_view());
                }
            }
        }
    }
    assert(gview(&out) =~= gview(grid));
    out
}

/// Whether two grids hold the same cells.
pub fn grids_equal(a: &Vec<Vec<String>>, b: &Vec<Vec<String>>) -> (e: bool)
    ensures
        e == (gview(a) == gview(b)),
{
    if a.len() != b.len() {
        assert(gview(a).len() != gview(b).len());
        return false;
    }
    for y in 0..a.len()
        invariant
            a@.len() == b@.len(),
            forall|r: int| 0 <= r < y ==> #[trigger] gview(a)[r] == gview(b)[r],
    {
        if a[y].len() != b[y].len() {
            assert(gview(a)[y as int].len() != gview(b)[y as int].len());
            return false;
        }
        let w = a[y].len();
        for x in 0..w
            invariant
                y < a@.len(),
                w == a@[y as int]@.len(),
                a@.len() == b@.len(),
                a@[y as int]@.len() == b@[y as int]@.len(),
                forall|c: int| 0 <= c < x ==> #[trigger] a@[y as int]@[c]@ == b@[y as int]@[c]@,
        {
            if a[y][x] != b[y][x] {
                assert(gview(a)[y as int][x as int] != gview(b)[y as int][x as int]);
                return false;
            }
        }
        assert(gview(a)[y as int] =~= gview(b)[y as int]);
    }
    assert(gview(a) =~= gview(b));
    true
}

} // verus!
