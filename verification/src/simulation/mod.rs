pub mod grid;
pub mod cell;
pub mod water;
pub mod room;
mod random;

use vstd::prelude::*;
use vstd::string::*;
use crate::simulation::grid::{
    GridView, glyph, gview, in_grid, at, put, same_shape, covers, look_is, write_cell, glyph_string,
    clone_grid, grids_equal,
};
use crate::simulation::water::{move_water, water_tick, is_dry, lemma_sweep_shape, lemma_dry_grid_stays};
use crate::simulation::room::{
    room, room_placed, every_draw_fits, draws_all_refused, carved, shaft, marked, in_room, lemma_room_shape,
    lemma_new_room_joined,
};

verus! {

broadcast use crate::simulation::grid::lemma_glyph_injective;

/// Width of the grid, in cells.
pub const MAX_GRID_X: usize = 70;
/// Height of the grid, in cells.
pub const MAX_GRID_Y: usize = 45;
/// Water moves once every this many frames (plus one).
pub const FRAMES_IN_TICK: i32 = 5;

// ---------------------------------------------------------------------------
// Rendering the walls

/// Whether the cell at (`y`, `x`) has a room floor `_` among the eight cells
/// around it, within the window `max_x` by `max_y`.
pub open spec fn touches_floor(g: GridView, max_x: int, max_y: int, y: int, x: int) -> bool {
    let f = glyph('_');
    ||| y > 0 && x > 0 && at(g, y - 1, x - 1) == f
    ||| y > 0 && at(g, y - 1, x) == f
    ||| y > 0 && x < max_x - 1 && at(g, y - 1, x + 1) == f
    ||| x > 0 && at(g, y, x - 1) == f
    ||| x < max_x - 1 && at(g, y, x + 1) == f
    ||| y < max_y - 1 && x > 0 && at(g, y + 1, x - 1) == f
    ||| y < max_y - 1 && at(g, y + 1, x) == f
    ||| y < max_y - 1 && x < max_x - 1 && at(g, y + 1, x + 1) == f
}

/// What the wall renderer makes of the cell at (`y`, `x`): floor `_` and the
/// source `^` stay, anything else becomes a wall `#` next to a floor and blank
/// ` ` elsewhere.
pub open spec fn rendered_cell(g: GridView, max_x: int, max_y: int, y: int, x: int) -> Seq<char> {
    if at(g, y, x) == glyph('_') {
        glyph('_')
    } else if at(g, y, x) == glyph('^') {
        glyph('^')
    } else if touches_floor(g, max_x, max_y, y, x) {
        glyph('#')
    } else {
        glyph(' ')
    }
}

/// The grid after wall rendering: every cell of the window `max_x` by `max_y`
/// rendered, every other cell kept.
pub open spec fn walls_rendered(g: GridView, r: GridView, max_x: int, max_y: int) -> bool {
    &&& same_shape(g, r)
    &&& forall|y: int, x: int|
        #![trigger r[y][x]]
        in_grid(g, y, x) ==> r[y][x] == if y < max_y && x < max_x {
            rendered_cell(g, max_x, max_y, y, x)
        } else {
            g[y][x]
        }
}

/// Two grids with floors `_` in the same places.
pub open spec fn same_floor(a: GridView, b: GridView) -> bool {
    forall|y: int, x: int| #[trigger] at(a, y, x) == glyph('_') <==> #[trigger] at(b, y, x) == glyph('_')
}

/// returns a new grid where only the outer walls are rendered
pub fn render_wall(grid: Vec<Vec<String>>, max_grid_x: usize, max_grid_y: usize) -> (r: Vec<Vec<String>>)
    requires
        covers(gview(&grid), max_grid_x as int, max_grid_y as int),
    ensures
        walls_rendered(gview(&grid), gview(&r), max_grid_x as int, max_grid_y as int),
{
    let ghost g0 = gview(&grid);
    let mut grid = grid;
    for y in 0..max_grid_y
        invariant
            covers(g0, max_grid_x as int, max_grid_y as int),
            same_shape(g0, gview(&grid)),
            same_floor(g0, gview(&grid)),
            forall|r: int, c: int|
                #![trigger gview(&grid)[r][c]]
                in_grid(g0, r, c) ==> gview(&grid)[r][c] == if r < y && c < max_grid_x {
                    rendered_cell(g0, max_grid_x as int, max_grid_y as int, r, c)
                } else {
                    g0[r][c]
                },
    {
        for x in 0..max_grid_x
            invariant
                0 <= y < max_grid_y,
                covers(g0, max_grid_x as int, max_grid_y as int),
                same_shape(g0, gview(&grid)),
                same_floor(g0, gview(&grid)),
                forall|r: int, c: int|
                    #![trigger gview(&grid)[r][c]]
                    in_grid(g0, r, c) ==> gview(&grid)[r][c] == if (r < y && c < max_grid_x) || (r
                        == y && c < x) {
                        rendered_cell(g0, max_grid_x as int, max_grid_y as int, r, c)
                    } else {
                        g0[r][c]
                    },
        {
            let ghost cur = gview(&grid);
            assert(in_grid(g0, y as int, x as int));
            assert(cur[y as int][x as int] == g0[y as int][x as int]);
            let c: char = if look_is(&grid, y, x, 0, 0, '_') {
                '_'
            } else if look_is(&grid, y, x, 0, 0, '^') {
                '^'
            } else if y > 0 && x > 0 && look_is(&grid, y, x, -1, -1, '_') {
                '#'
            } else if y > 0 && look_is(&grid, y, x, -1, 0, '_') {
                '#'
            } else if y > 0 && x < max_grid_x - 1 && look_is(&grid, y, x, -1, 1, '_') {
                '#'
            } else if x > 0 && look_is(&grid, y, x, 0, -1, '_') {
                '#'
            } else if x < max_grid_x - 1 && look_is(&grid, y, x, 0, 1, '_') {
                '#'
            } else if y < max_grid_y - 1 && x > 0 && look_is(&grid, y, x, 1, -1, '_') {
                '#'
            } else if y < max_grid_y - 1 && look_is(&grid, y, x, 1, 0, '_') {
                '#'
            } else if y < max_grid_y - 1 && x < max_grid_x - 1 && look_is(&grid, y, x, 1, 1, '_') {
                '#'
            } else {
                ' '
            };
            proof {
                let f = glyph('_');
                assert(at(cur, y - 1, x - 1) == f <==> at(g0, y - 1, x - 1) == f);
                assert(at(cur, y - 1, x as int) == f <==> at(g0, y - 1, x as int) == f);
                assert(at(cur, y - 1, x + 1) == f <==> at(g0, y - 1, x + 1) == f);
                assert(at(cur, y as int, x - 1) == f <==> at(g0, y as int, x - 1) == f);
                assert(at(cur, y as int, x + 1) == f <==> at(g0, y as int, x + 1) == f);
                assert(at(cur, y + 1, x - 1) == f <==> at(g0, y + 1, x - 1) == f);
                assert(at(cur, y + 1, x as int) == f <==> at(g0, y + 1, x as int) == f);
                assert(at(cur, y + 1, x + 1) == f <==> at(g0, y + 1, x + 1) == f);
                assert(glyph(c) == rendered_cell(g0, max_grid_x as int, max_grid_y as int, y as int, x as int));
            }
            write_cell(&mut grid, y, x, c);
            proof {
                let nxt = gview(&grid);
                assert forall|r: int, cc: int| #[trigger] at(g0, r, cc) == glyph('_') <==> at(nxt, r, cc) == glyph('_') by {
                    if r == y && cc == x {
                    } else {
                        assert(at(nxt, r, cc) == at(cur, r, cc));
                    }
                }
            }
        }
    }
    grid
}

// ---------------------------------------------------------------------------
// Text of the grid

/// How a cell shows in the text: its characters, or `U` for an empty cell.
pub open spec fn cell_text(c: Seq<char>) -> Seq<char> {
    if c.len() == 0 {
        glyph('U')
    } else {
        c
    }
}

/// The text of the first `n` cells of row `y`.
pub open spec fn row_text(g: GridView, y: int, n: nat) -> Seq<char>
    decreases n,
{
    if n == 0 {
        Seq::empty()
    } else {
        row_text(g, y, (n - 1) as nat) + cell_text(g[y][n - 1])
    }
}

/// The text of the first `m` rows, each of `MAX_GRID_X` cells and ended by a newline.
pub open spec fn grid_text(g: GridView, m: nat) -> Seq<char>
    decreases m,
{
    if m == 0 {
        Seq::empty()
    } else {
        grid_text(g, (m - 1) as nat) + row_text(g, m - 1, MAX_GRID_X as nat) + glyph('\n')
    }
}

/// turns the grid into string for grid_str
pub fn render_grid(grid: &Vec<Vec<String>>) -> (r: String)
    requires
        covers(gview(grid), MAX_GRID_X as int, MAX_GRID_Y as int),
    ensures
        r@ == grid_text(gview(grid), MAX_GRID_Y as nat),
{
    let ghost g = gview(grid);
    let mut whole_table = String::new();
    for y in 0..MAX_GRID_Y
        invariant
            g == gview(grid),
            covers(g, MAX_GRID_X as int, MAX_GRID_Y as int),
            whole_table@ == grid_text(g, y as nat),
    {
        let ghost before = whole_table@;
        for x in 0..MAX_GRID_X
            invariant
                g == gview(grid),
                0 <= y < MAX_GRID_Y,
                covers(g, MAX_GRID_X as int, MAX_GRID_Y as int),
                whole_table@ == before + row_text(g, y as int, x as nat),
        {
            assert(g[y as int].len() >= MAX_GRID_X);
            let cell: &str = grid[y][x].as_str();
            assert(cell@ == g[y as int][x as int]);
            whole_table.append(cell);
            if cell.is_empty() {
                proof { reveal_strlit("U"); }
                whole_table.append("U");
            }
            assert(whole_table@ =~= before + row_text(g, y as int, (x + 1) as nat));
        }
        proof { reveal_strlit("\n"); }
        whole_table.append("\n");
        assert(whole_table@ =~= grid_text(g, (y + 1) as nat));
    }
    whole_table
}

// ---------------------------------------------------------------------------
// The water source

/// Whether (`y1`, `x1`) comes after (`y0`, `x0`) in reading order.
pub open spec fn reads_after(y1: int, x1: int, y0: int, x0: int) -> bool {
    y1 > y0 || (y1 == y0 && x1 > x0)
}

/// Whether the cell at (`y`, `x`) lies in the visible `MAX_GRID_X` by `MAX_GRID_Y` window.
pub open spec fn in_window(y: int, x: int) -> bool {
    0 <= y < MAX_GRID_Y && 0 <= x < MAX_GRID_X
}

/// What the source search gives back: empty where no cell of the window is the
/// source `^`, else `[x, y]` of the last source in reading order.
pub open spec fn is_source_of(g: GridView, s: Seq<usize>) -> bool {
    ||| s.len() == 0 && forall|y: int, x: int| in_window(y, x) ==> #[trigger] at(g, y, x) != glyph('^')
    ||| s.len() == 2 && {
        let x = s[0] as int;
        let y = s[1] as int;
        &&& in_window(y, x)
        &&& at(g, y, x) == glyph('^')
        &&& forall|y1: int, x1: int|
            in_window(y1, x1) && reads_after(y1, x1, y, x) ==> #[trigger] at(g, y1, x1) != glyph('^')
    }
}

/// just gives coordinates of "^"
pub fn find_source(grid: &Vec<Vec<String>>) -> (r: Vec<usize>)
    requires
        covers(gview(grid), MAX_GRID_X as int, MAX_GRID_Y as int),
    ensures
        is_source_of(gview(grid), r@),
{
    let ghost g = gview(grid);
    let mut water_source: Vec<usize> = Vec::new();
    for y in 0..MAX_GRID_Y
        invariant
            g == gview(grid),
            ({
                let s = water_source@;
                ||| s.len() == 0 && forall|y1: int, x1: int| in_window(y1, x1) && y1 < y ==> #[trigger] at(g, y1, x1) != glyph('^')
                ||| s.len() == 2 && {
                    let sx = s[0] as int;
                    let sy = s[1] as int;
                    &&& in_window(sy, sx) && sy < y
                    &&& at(g, sy, sx) == glyph('^')
                    &&& forall|y1: int, x1: int|
                        in_window(y1, x1) && y1 < y && reads_after(y1, x1, sy, sx) ==> #[trigger] at(g, y1, x1) != glyph('^')
                }
            }),
    {
        for x in 0..MAX_GRID_X
            invariant
                g == gview(grid),
                0 <= y < MAX_GRID_Y,
                ({
                    let s = water_source@;
                    ||| s.len() == 0 && forall|y1: int, x1: int|
                        in_window(y1, x1) && (y1 < y || (y1 == y && x1 < x)) ==> #[trigger] at(g, y1, x1) != glyph('^')
                    ||| s.len() == 2 && {
                        let sx = s[0] as int;
                        let sy = s[1] as int;
                        &&& in_window(sy, sx) && (sy < y || (sy == y && sx < x))
                        &&& at(g, sy, sx) == glyph('^')
                        &&& forall|y1: int, x1: int|
                            in_window(y1, x1) && (y1 < y || (y1 == y && x1 < x)) && reads_after(y1, x1, sy, sx)
                                ==> #[trigger] at(g, y1, x1) != glyph('^')
                    }
                }),
        {
            if look_is(grid, y, x, 0, 0, '^') {
                water_source = vec![x, y];
            }
        }
    }
    water_source
}

// ---------------------------------------------------------------------------
// The state of the simulation

/// A grid of exactly `MAX_GRID_Y` rows of `MAX_GRID_X` cells.
pub open spec fn full_grid(g: GridView) -> bool {
    &&& g.len() == MAX_GRID_Y
    &&& forall|y: int| 0 <= y < g.len() ==> #[trigger] g[y].len() == MAX_GRID_X
}

/// A full grid is one that the window covers.
pub proof fn lemma_full_grid_covers(g: GridView)
    requires
        full_grid(g),
    ensures
        covers(g, MAX_GRID_X as int, MAX_GRID_Y as int),
        forall|y: int, x: int| in_grid(g, y, x) <==> in_window(y, x),
{
}

/// A grid of the same shape as a full grid is full.
pub proof fn lemma_full_grid_shape(a: GridView, b: GridView)
    requires
        full_grid(a),
        same_shape(a, b),
    ensures
        full_grid(b),
{
    assert forall|y: int| 0 <= y < b.len() implies #[trigger] b[y].len() == MAX_GRID_X by {
        assert(a[y].len() == b[y].len());
    }
}

/// The state, as plain values.
pub struct SimModel {
    pub grid: GridView,
    pub grid_str: Seq<char>,
    pub can_generate: bool,
    pub room_count: nat,
    pub is_water_on: bool,
    pub walls_rendered: bool,
    pub water_source: Seq<usize>,
    pub frames_passed: int,
}

/// Everything the app shows and steps: the grid, its text, and the controls.
pub struct SimulationState {
    grid_str: String,  // string containing the entire grid.
    can_generate: bool,  // is "generate layout" button working
    room_count: usize,
    grid: Vec<Vec<String>>,  // grid itself. 2-dimensional vector
    is_water_on: bool,  // should the water flow. triggered with start button
    walls_rendered: bool,  // true after pressing "water ON/OFF" and indicates that walls are now redrawn
    water_source: Vec<usize>,  // coordinates of the point the water flows from. It looks like "^"
    frames_passed: i32,
}

impl View for SimulationState {
    type V = SimModel;

    closed spec fn view(&self) -> SimModel {
        SimModel {
            grid: gview(&self.grid),
            grid_str: self.grid_str@,
            can_generate: self.can_generate,
            room_count: self.room_count as nat,
            is_water_on: self.is_water_on,
            walls_rendered: self.walls_rendered,
            water_source: self.water_source@,
            frames_passed: self.frames_passed as int,
        }
    }
}

impl SimulationState {
    /// The grid is always full, and generation is disabled by the seventh room
    /// at the latest.
    #[verifier::type_invariant]
    spec fn well_formed(self) -> bool {
        &&& full_grid(gview(&self.grid))
        &&& self.can_generate ==> self.room_count <= 6
    }

    /// The text of the grid, as last rendered.
    pub fn grid_str(&self) -> (s: &String)
        ensures
            s@ == self@.grid_str,
    {
        &self.grid_str
    }

    /// Whether "generate layout" still works.
    pub fn can_generate(&self) -> (b: bool)
        ensures
            b == self@.can_generate,
            b ==> self@.room_count <= 6,
    {
        proof {
            use_type_invariant(self);
        }
        self.can_generate
    }

    /// How many times a layout was generated.
    pub fn room_count(&self) -> (n: usize)
        ensures
            n == self@.room_count,
    {
        self.room_count
    }

    /// Whether the water flows.
    pub fn is_water_on(&self) -> (b: bool)
        ensures
            b == self@.is_water_on,
    {
        self.is_water_on
    }

    /// The grid.
    pub fn grid(&self) -> (g: &Vec<Vec<String>>)
        ensures
            gview(g) == self@.grid,
            full_grid(self@.grid),
    {
        proof {
            use_type_invariant(self);
        }
        &self.grid
    }
}

/// A full grid of walls `#`.
fn walled_grid() -> (r: Vec<Vec<String>>)
    ensures
        full_grid(gview(&r)),
        forall|y: int, x: int| in_window(y, x) ==> #[trigger] gview(&r)[y][x] == glyph('#'),
{
    let mut grid: Vec<Vec<String>> = Vec::new();
    for y in 0..MAX_GRID_Y
        invariant
            grid@.len() == y,
            forall|r: int| 0 <= r < y ==> #[trigger] gview(&grid)[r] == Seq::new(MAX_GRID_X as nat, |c: int| glyph('#')),
    {
        let mut row: Vec<String> = Vec::new();
        for x in 0..MAX_GRID_X
            invariant
                row@.len() == x,
                forall|c: int| 0 <= c < x ==> #[trigger] row@[c]@ == glyph('#'),
        {
            row.push(glyph_string('#'));
        }
        let ghost before = grid@;
        let ghost before_g = gview(&grid);
        assert(row.deep_view() =~= Seq::new(MAX_GRID_X as nat, |c: int| glyph('#')));
        grid.push(row);
        proof {
            assert forall|r: int| 0 <= r < y + 1 implies #[trigger] gview(&grid)[r] == Seq::new(MAX_GRID_X as nat, |c: int| glyph('#')) by {
                assert(gview(&grid)[r] == grid@[r].deep_view());
                if r < y {
                    assert(before_g[r] == before[r].deep_view());
                }
            }
        }
    }
    grid
}

/// The state a layout starts from: a full grid of walls `#`, no text yet, no
/// rooms, no source, water off, generation enabled.
pub open spec fn is_fresh(s: SimModel) -> bool {
    &&& full_grid(s.grid)
    &&& forall|y: int, x: int| in_window(y, x) ==> #[trigger] s.grid[y][x] == glyph('#')
    &&& s.grid_str == Seq::<char>::empty()
    &&& s.can_generate
    &&& s.room_count == 0
    &&& !s.is_water_on
    &&& !s.walls_rendered
    &&& s.water_source == Seq::<usize>::empty()
    &&& s.frames_passed == 0
}

impl Default for SimulationState {
    /// A grid of walls `#`, no rooms, water off, generation enabled.
    fn default() -> (s: Self)
        ensures
            is_fresh(s@),
    {
        SimulationState {
            grid_str: String::new(),
            can_generate: true,
            room_count: 0,
            grid: walled_grid(),
            is_water_on: false,
            walls_rendered: false,
            water_source: Vec::new(),
            frames_passed: 0,
        }
    }
}

// ---------------------------------------------------------------------------
// The three events

/// The grid with a droplet `0` right below the source, where the water is on
/// and a source was found (outside the grid nothing is written).
pub open spec fn drip(g: GridView, on: bool, source: Seq<usize>) -> GridView {
    if on && source.len() == 2 {
        put(g, source[1] + 1, source[0] as int, glyph('0'))
    } else {
        g
    }
}

/// `g` is the grid of `o` after the water moved a tick (with some draws) and,
/// when on, the source dripped.
pub open spec fn ticked(o: SimModel, g: GridView) -> bool {
    exists|coins: spec_fn(int, int) -> int|
        g == drip(water_tick(o.grid, MAX_GRID_X as int, MAX_GRID_Y as int, coins), o.is_water_on, o.water_source)
}

/// A frame: the text is rendered; every `FRAMES_IN_TICK + 1`-th frame the
/// water moves a tick (with some draws) and, when on, the source drips.
pub open spec fn simulation_stepped(o: SimModel, f: SimModel) -> bool {
    &&& full_grid(f.grid)
    &&& o.frames_passed >= FRAMES_IN_TICK ==> {
        &&& f.frames_passed == 0
        &&& ticked(o, f.grid)
    }
    &&& o.frames_passed < FRAMES_IN_TICK ==> f.frames_passed == o.frames_passed + 1 && f.grid == o.grid
    &&& f.grid_str == grid_text(f.grid, MAX_GRID_Y as nat)
    &&& f.can_generate == o.can_generate
    &&& f.room_count == o.room_count
    &&& f.is_water_on == o.is_water_on
    &&& f.walls_rendered == o.walls_rendered
    &&& f.water_source == o.water_source
}

pub fn on_simulation_update(state: &mut SimulationState)
    ensures
        simulation_stepped(old(state)@, final(state)@),
{
    proof {
        use_type_invariant(&*state);
        lemma_full_grid_covers(gview(&state.grid));
    }
    if state.grid.len() == 0 {  // fills the empty grid with "#"
        state.grid = walled_grid();
        state.grid_str = render_grid(&state.grid);  // empty grid_str gets its value too
    }
    state.grid_str = render_grid(&state.grid);
    if state.frames_passed >= FRAMES_IN_TICK {
        let ghost g0 = gview(&state.grid);
        let mut grid = move_water(clone_grid(&state.grid), MAX_GRID_X, MAX_GRID_Y);  // water moves each tick
        let ghost moved = gview(&grid);
        let ghost coins = choose|coins: spec_fn(int, int) -> int|
            moved == water_tick(g0, MAX_GRID_X as int, MAX_GRID_Y as int, coins);
        proof {
            lemma_sweep_shape(g0, MAX_GRID_X as int, MAX_GRID_Y as int, MAX_GRID_Y as nat, coins);
            lemma_full_grid_shape(g0, moved);
        }
        if state.is_water_on && state.water_source.len() == 2 {  // makes sure that water flows only when water is ON
            let sx = state.water_source[0];
            let sy = state.water_source[1];
            if sy < MAX_GRID_Y - 1 && sx < MAX_GRID_X {
                write_cell(&mut grid, sy + 1, sx, '0');
                proof {
                    lemma_full_grid_shape(moved, gview(&grid));
                }
            }
        }
        proof {
            lemma_full_grid_covers(moved);
            assert(gview(&grid) == drip(moved, state.is_water_on, state.water_source@));
        }
        state.grid = grid;
        state.grid_str = render_grid(&state.grid);  // grid_str gets a new value each tick too
        state.frames_passed = 0;
        assert(gview(&state.grid) == drip(
            water_tick(g0, MAX_GRID_X as int, MAX_GRID_Y as int, coins),
            old(state)@.is_water_on,
            old(state)@.water_source,
        ));
        assert(g0 == old(state)@.grid);
        assert(exists|c: spec_fn(int, int) -> int| gview(&state.grid) == drip(
            water_tick(old(state)@.grid, MAX_GRID_X as int, MAX_GRID_Y as int, c),
            old(state)@.is_water_on,
            old(state)@.water_source,
        ));
    } else {
        state.frames_passed = state.frames_passed + 1;
    }
}

/// "generate layout": a room is generated and the text rendered. Where the
/// grid comes back unchanged there was no room for one and generation is
/// disabled.
pub open spec fn layout_generated(o: SimModel, f: SimModel) -> bool {
    &&& full_grid(f.grid)
    &&& f.room_count == o.room_count + 1
    &&& f.grid_str == grid_text(f.grid, MAX_GRID_Y as nat)
    &&& {
        ||| f.grid == o.grid && !f.can_generate
        ||| f.grid != o.grid && f.can_generate == o.can_generate && exists|x: int, y: int, ox: int, oy: int, pick: int|
            room_placed(o.grid, f.grid, MAX_GRID_X as int, MAX_GRID_Y as int, o.room_count as int, x, y, ox, oy, pick)
    }
    &&& o.room_count > 5 ==> f.grid == o.grid
    &&& o.room_count == 0 ==> exists|x: int, y: int, ox: int, oy: int, pick: int|
        room_placed(o.grid, f.grid, MAX_GRID_X as int, MAX_GRID_Y as int, 0, x, y, ox, oy, pick)
    &&& 1 <= o.room_count <= 5 && every_draw_fits(o.grid, MAX_GRID_X as int, MAX_GRID_Y as int, o.room_count as int)
        ==> exists|x: int, y: int, ox: int, oy: int, pick: int|
        room_placed(o.grid, f.grid, MAX_GRID_X as int, MAX_GRID_Y as int, o.room_count as int, x, y, ox, oy, pick)
    &&& 1 <= o.room_count <= 5 && f.grid == o.grid ==> exists|draws: Seq<(int, int, int, int)>|
        draws.len() == 5001 && #[trigger] draws_all_refused(
            o.grid,
            MAX_GRID_X as int,
            MAX_GRID_Y as int,
            o.room_count as int,
            draws,
        )
    &&& f.is_water_on == o.is_water_on
    &&& f.walls_rendered == o.walls_rendered
    &&& f.water_source == o.water_source
    &&& f.frames_passed == o.frames_passed
}

/// Builds the next room into the grid and renders the text; where no room
/// could be placed the grid stays as it was and generation is disabled.
pub fn on_generate_layout(state: &mut SimulationState)
    requires
        old(state)@.room_count < usize::MAX,
    ensures
        layout_generated(old(state)@, final(state)@),
{
    proof {
        use_type_invariant(&*state);
        lemma_full_grid_covers(gview(&state.grid));
    }
    let ghost g0 = gview(&state.grid);
    let new_grid: Vec<Vec<String>> = room(clone_grid(&state.grid), MAX_GRID_X, MAX_GRID_Y, state.room_count);
    let ghost ng = gview(&new_grid);
    if grids_equal(&state.grid, &new_grid) {  // if they're the same then there's no space to generate a room
        state.can_generate = false;
        assert(gview(&state.grid) == ng);
        proof {
            let rc = state.room_count as int;
            if 1 <= rc <= 5 && exists|x: int, y: int, ox: int, oy: int, pick: int|
                room_placed(g0, ng, MAX_GRID_X as int, MAX_GRID_Y as int, rc, x, y, ox, oy, pick) {
                let (x, y, ox, oy, pick) = choose|x: int, y: int, ox: int, oy: int, pick: int|
                    room_placed(g0, ng, MAX_GRID_X as int, MAX_GRID_Y as int, rc, x, y, ox, oy, pick);
                lemma_new_room_joined(g0, ng, MAX_GRID_X as int, MAX_GRID_Y as int, rc, x, y, ox, oy, pick);
                assert(at(ng, oy, ox) == glyph('_'));
                assert(at(g0, oy, ox) != glyph('_'));
            }
        }
    } else {  // if the new_grid is different (has a room) then the main grid variable steals the value
        proof {
            let (x, y, ox, oy, pick) = choose|x: int, y: int, ox: int, oy: int, pick: int|
                room_placed(g0, gview(&new_grid), MAX_GRID_X as int, MAX_GRID_Y as int, state.room_count as int, x, y, ox, oy, pick);
            lemma_room_shape(g0, gview(&new_grid), MAX_GRID_X as int, MAX_GRID_Y as int, state.room_count as int, x, y, ox, oy, pick);
            lemma_full_grid_shape(g0, gview(&new_grid));
        }
        state.grid = new_grid;
    }
    assert(gview(&state.grid) == ng);
    proof {
        lemma_full_grid_covers(gview(&state.grid));
    }
    state.grid_str = render_grid(&state.grid);  // updated string
    state.room_count += 1;
    assert(g0 == old(state)@.grid);
    assert({
        ||| gview(&state.grid) == g0 && !state.can_generate
        ||| gview(&state.grid) != g0 && state.can_generate == old(state)@.can_generate && exists|x: int, y: int, ox: int, oy: int, pick: int|
            room_placed(g0, gview(&state.grid), MAX_GRID_X as int, MAX_GRID_Y as int, old(state)@.room_count as int, x, y, ox, oy, pick)
    });
    assert(state@.grid_str == grid_text(state@.grid, MAX_GRID_Y as nat));
    assert(layout_generated(old(state)@, state@));
}

/// "water ON/OFF", once there is a room: the source is found, the walls are
/// rendered the first time, the water is toggled and generation disabled.
pub open spec fn water_toggled(o: SimModel, f: SimModel) -> bool {
    if o.room_count == 0 {
        f == o
    } else {
        &&& full_grid(f.grid)
        &&& is_source_of(o.grid, f.water_source)
        &&& if o.walls_rendered {
            f.grid == o.grid
        } else {
            walls_rendered(o.grid, f.grid, MAX_GRID_X as int, MAX_GRID_Y as int)
        }
        &&& f.walls_rendered
        &&& f.is_water_on == !o.is_water_on
        &&& !f.can_generate
        &&& f.grid_str == o.grid_str
        &&& f.room_count == o.room_count
        &&& f.frames_passed == o.frames_passed
    }
}

pub fn on_water_onoff(state: &mut SimulationState)
    ensures
        water_toggled(old(state)@, final(state)@),
{
    proof {
        use_type_invariant(&*state);
        lemma_full_grid_covers(gview(&state.grid));
    }
    if state.room_count == 0 {
        return;
    }
    state.water_source = find_source(&state.grid);  // now the point of waterflow is saved
    if !state.walls_rendered {  // I want walls to be rerendered into the new version only once
        let ghost g0 = gview(&state.grid);
        let rendered = render_wall(clone_grid(&state.grid), MAX_GRID_X, MAX_GRID_Y);
        proof {
            lemma_full_grid_shape(g0, gview(&rendered));
        }
        state.grid = rendered;
        state.walls_rendered = true;
    }
    state.is_water_on = !state.is_water_on;  // toggling the bool responsible for waterflow
    state.can_generate = false;
}

// ---------------------------------------------------------------------------
// Laws

/// Rendering the walls a second time changes nothing.
pub proof fn lemma_render_wall_idempotent(g: GridView, r: GridView, r2: GridView, max_x: int, max_y: int)
    requires
        walls_rendered(g, r, max_x, max_y),
        walls_rendered(r, r2, max_x, max_y),
    ensures
        r2 == r,
{
    assert forall|y: int, x: int| #[trigger] at(g, y, x) == glyph('_') <==> at(r, y, x) == glyph('_') by {
        if in_grid(g, y, x) {
            assert(r[y][x] == if y < max_y && x < max_x {
                rendered_cell(g, max_x, max_y, y, x)
            } else {
                g[y][x]
            });
        }
    }
    assert(r2.len() == r.len());
    assert forall|y: int| 0 <= y < r2.len() implies #[trigger] r2[y] =~= r[y] by {
        assert(r2[y].len() == r[y].len());
        assert(g[y].len() == r[y].len());
        assert forall|x: int| 0 <= x < r2[y].len() implies r2[y][x] == r[y][x] by {
            assert(in_grid(g, y, x));
            assert(in_grid(r, y, x));
            if y < max_y && x < max_x {
                let f = glyph('_');
                assert(at(r, y - 1, x - 1) == f <==> at(g, y - 1, x - 1) == f);
                assert(at(r, y - 1, x) == f <==> at(g, y - 1, x) == f);
                assert(at(r, y - 1, x + 1) == f <==> at(g, y - 1, x + 1) == f);
                assert(at(r, y, x - 1) == f <==> at(g, y, x - 1) == f);
                assert(at(r, y, x + 1) == f <==> at(g, y, x + 1) == f);
                assert(at(r, y + 1, x - 1) == f <==> at(g, y + 1, x - 1) == f);
                assert(at(r, y + 1, x) == f <==> at(g, y + 1, x) == f);
                assert(at(r, y + 1, x + 1) == f <==> at(g, y + 1, x + 1) == f);
                assert(touches_floor(r, max_x, max_y, y, x) == touches_floor(g, max_x, max_y, y, x));
            }
        }
    }
    assert(r2 =~= r);
}

/// Pressing "water ON/OFF" twice, once there is a room, leaves the water as it
/// was, the grid as the first press left it, and generation disabled.
pub proof fn lemma_water_toggle_twice(a: SimModel, b: SimModel, c: SimModel)
    requires
        a.room_count > 0,
        water_toggled(a, b),
        water_toggled(b, c),
    ensures
        c.is_water_on == a.is_water_on,
        c.grid == b.grid,
        c.walls_rendered,
        !c.can_generate,
{
}

/// Once "generate layout" is disabled, no event enables it again.
pub proof fn lemma_generation_stays_disabled(o: SimModel, f: SimModel)
    requires
        !o.can_generate,
        simulation_stepped(o, f) || layout_generated(o, f) || water_toggled(o, f),
    ensures
        !f.can_generate,
{
}

/// With the water off and no moving water on the grid, frames change nothing
/// on the grid.
pub proof fn lemma_still_without_water(o: SimModel, f: SimModel)
    requires
        simulation_stepped(o, f),
        !o.is_water_on,
        is_dry(o.grid),
    ensures
        f.grid == o.grid,
{
    if o.frames_passed >= FRAMES_IN_TICK {
        let coins = choose|coins: spec_fn(int, int) -> int|
            f.grid == drip(water_tick(o.grid, MAX_GRID_X as int, MAX_GRID_Y as int, coins), o.is_water_on, o.water_source);
        lemma_dry_grid_stays(o.grid, MAX_GRID_X as int, MAX_GRID_Y as int, MAX_GRID_Y as nat, coins);
    }
}

/// Pouring water, once there is a room, disables "generate layout".
pub proof fn lemma_water_disables_generation(o: SimModel, f: SimModel)
    requires
        o.room_count > 0,
        water_toggled(o, f),
    ensures
        !f.can_generate,
        f.is_water_on != o.is_water_on,
{
}

/// The first room, built where there is no source yet, puts the water source
/// `^` at the top of its shaft, and the source search finds it there.
pub proof fn lemma_first_room_source(g: GridView, r: GridView, x: int, y: int, ox: int, oy: int, pick: int)
    requires
        full_grid(g),
        room_placed(g, r, MAX_GRID_X as int, MAX_GRID_Y as int, 0, x, y, ox, oy, pick),
        forall|yy: int, xx: int| in_window(yy, xx) ==> #[trigger] at(g, yy, xx) != glyph('^'),
    ensures
        is_source_of(r, seq![(ox + pick) as usize, 0usize]),
{
    let col = ox + pick;
    let c = carved(g, MAX_GRID_X as int, MAX_GRID_Y as int, x, y, ox, oy);
    assert(r == shaft(c, col, oy));
    assert forall|yy: int, xx: int| in_window(yy, xx) implies #[trigger] at(r, yy, xx) == glyph('^') <==> (yy == 0 && xx == col) by {
        assert(g[yy].len() == MAX_GRID_X);
        assert(at(g, yy, xx) == g[yy][xx]);
        assert(c[yy][xx] == if in_room(yy, xx, x, y, ox, oy) {
            glyph('_')
        } else if yy < MAX_GRID_Y && xx < MAX_GRID_X && (ox <= xx < ox + x || oy <= yy < oy + y) {
            marked(g[yy][xx])
        } else {
            g[yy][xx]
        });
        assert(r[yy][xx] == if xx == col && yy == 0 {
            glyph('^')
        } else if xx == col && 1 <= yy < oy {
            glyph('_')
        } else {
            c[yy][xx]
        });
        assert(at(r, yy, xx) == r[yy][xx]);
    }
    let s = seq![col as usize, 0usize];
    assert(s[0] as int == col);
    assert(in_window(0, col));
}

/// The frame counter after `k` frames from a counter at zero is `k` modulo
/// `FRAMES_IN_TICK + 1`.
proof fn lemma_frame_counter(s: Seq<SimModel>, k: int)
    requires
        0 <= k < s.len(),
        s[0].frames_passed == 0,
        forall|i: int| 0 <= i < s.len() - 1 ==> simulation_stepped(#[trigger] s[i], s[i + 1]),
    ensures
        s[k].frames_passed == k % (FRAMES_IN_TICK + 1),
    decreases k,
{
    if k > 0 {
        lemma_frame_counter(s, k - 1);
        assert(simulation_stepped(s[k - 1], s[k]));
    }
}

/// Over a run of frames that starts with the frame counter at zero, the water
/// moves (and the source drips) on every `FRAMES_IN_TICK + 1`-th frame and the
/// grid stays as it was on every other frame; the counter is always the number
/// of frames so far modulo `FRAMES_IN_TICK + 1`.
pub proof fn lemma_water_moves_every_tick(s: Seq<SimModel>)
    requires
        s.len() >= 1,
        s[0].frames_passed == 0,
        forall|i: int| 0 <= i < s.len() - 1 ==> simulation_stepped(#[trigger] s[i], s[i + 1]),
    ensures
        forall|k: int| 0 <= k < s.len() ==> #[trigger] s[k].frames_passed == k % (FRAMES_IN_TICK + 1),
        forall|k: int|
            #![trigger s[k]]
            1 <= k < s.len() ==> if k % (FRAMES_IN_TICK + 1) == 0 {
                ticked(s[k - 1], s[k].grid)
            } else {
                s[k].grid == s[k - 1].grid
            },
{
    assert forall|k: int| 0 <= k < s.len() implies #[trigger] s[k].frames_passed == k % (FRAMES_IN_TICK + 1) by {
        lemma_frame_counter(s, k);
    }
    assert forall|k: int| #![trigger s[k]] 1 <= k < s.len() implies if k % (FRAMES_IN_TICK + 1) == 0 {
        ticked(s[k - 1], s[k].grid)
    } else {
        s[k].grid == s[k - 1].grid
    } by {
        lemma_frame_counter(s, k - 1);
        assert(simulation_stepped(s[k - 1], s[k]));
    }
}

/// After wall rendering every cell of the window is floor `_`, the source
/// `^`, a wall `#` or blank ` `. Floor and source stay exactly where they
/// were; any other cell becomes a wall exactly where one of its eight
/// neighbours inside the window is floor, and blank elsewhere.
pub proof fn lemma_rendered_cells(g: GridView, r: GridView, max_x: int, max_y: int)
    requires
        walls_rendered(g, r, max_x, max_y),
    ensures
        forall|y: int, x: int|
            #![trigger r[y][x]]
            in_grid(g, y, x) && y < max_y && x < max_x ==> {
                &&& r[y][x] == glyph('_') || r[y][x] == glyph('^') || r[y][x] == glyph('#') || r[y][x] == glyph(' ')
                &&& (r[y][x] == glyph('_')) == (g[y][x] == glyph('_'))
                &&& (r[y][x] == glyph('^')) == (g[y][x] == glyph('^'))
                &&& (r[y][x] == glyph('#')) == (g[y][x] != glyph('_') && g[y][x] != glyph('^') && exists|dy: int, dx: int|
                    -1 <= dy <= 1 && -1 <= dx <= 1 && !(dy == 0 && dx == 0) && 0 <= y + dy < max_y && 0 <= x + dx
                        < max_x && #[trigger] at(g, y + dy, x + dx) == glyph('_'))
            },
{
    assert forall|y: int, x: int|
        #![trigger r[y][x]]
        in_grid(g, y, x) && y < max_y && x < max_x implies {
            &&& r[y][x] == glyph('_') || r[y][x] == glyph('^') || r[y][x] == glyph('#') || r[y][x] == glyph(' ')
            &&& (r[y][x] == glyph('_')) == (g[y][x] == glyph('_'))
            &&& (r[y][x] == glyph('^')) == (g[y][x] == glyph('^'))
            &&& (r[y][x] == glyph('#')) == (g[y][x] != glyph('_') && g[y][x] != glyph('^') && exists|dy: int, dx: int|
                -1 <= dy <= 1 && -1 <= dx <= 1 && !(dy == 0 && dx == 0) && 0 <= y + dy < max_y && 0 <= x + dx
                    < max_x && #[trigger] at(g, y + dy, x + dx) == glyph('_'))
        } by {
        let f = glyph('_');
        let near = exists|dy: int, dx: int|
            -1 <= dy <= 1 && -1 <= dx <= 1 && !(dy == 0 && dx == 0) && 0 <= y + dy < max_y && 0 <= x + dx < max_x
                && #[trigger] at(g, y + dy, x + dx) == f;
        assert(at(g, y, x) == g[y][x]);
        if touches_floor(g, max_x, max_y, y, x) {
            if y > 0 && x > 0 && at(g, y - 1, x - 1) == f {
                assert(at(g, y + -1, x + -1) == f);
            } else if y > 0 && at(g, y - 1, x) == f {
                assert(at(g, y + -1, x + 0) == f);
            } else if y > 0 && x < max_x - 1 && at(g, y - 1, x + 1) == f {
                assert(at(g, y + -1, x + 1) == f);
            } else if x > 0 && at(g, y, x - 1) == f {
                assert(at(g, y + 0, x + -1) == f);
            } else if x < max_x - 1 && at(g, y, x + 1) == f {
                assert(at(g, y + 0, x + 1) == f);
            } else if y < max_y - 1 && x > 0 && at(g, y + 1, x - 1) == f {
                assert(at(g, y + 1, x + -1) == f);
            } else if y < max_y - 1 && at(g, y + 1, x) == f {
                assert(at(g, y + 1, x + 0) == f);
            } else {
                assert(at(g, y + 1, x + 1) == f);
            }
            assert(near);
        }
        if near {
            let (dy, dx) = choose|dy: int, dx: int|
                -1 <= dy <= 1 && -1 <= dx <= 1 && !(dy == 0 && dx == 0) && 0 <= y + dy < max_y && 0 <= x + dx < max_x
                    && #[trigger] at(g, y + dy, x + dx) == f;
            assert(touches_floor(g, max_x, max_y, y, x));
        }
    }
}

} // verus!
