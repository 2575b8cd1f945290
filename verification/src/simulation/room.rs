//! Carving rooms into the grid and joining each new room to one it faces.
//!
//! A cell outside the grid reads as a wall `#`.
use vstd::prelude::*;
use crate::simulation::grid::{
    GridView, glyph, gview, in_grid, at, put, same_shape, covers, look_is, write_cell, clone_grid,
    lemma_glyph_injective, lemma_inside_unless_wall, lemma_put_at, lemma_put_shape,
    lemma_same_shape_in_grid, lemma_same_shape_trans,
};
use crate::simulation::random::random_in;

verus! {

broadcast use lemma_glyph_injective, lemma_inside_unless_wall, lemma_put_at, lemma_put_shape;

// ---------------------------------------------------------------------------
// Which way a floor cell can tunnel

/// Looking up column `x` from row `u`: whether a floor `_` is met before the top.
pub open spec fn up_finds(g: GridView, x: int, u: int) -> bool
    decreases u,
{
    if at(g, u, x) == glyph('_') {
        true
    } else if u < 1 {
        false
    } else {
        up_finds(g, x, u - 1)
    }
}

/// Looking left along row `y` from column `l`: whether a floor `_` is met
/// before the first column.
pub open spec fn left_floor(g: GridView, y: int, l: int) -> bool
    decreases l,
{
    if at(g, y, l) == glyph('_') {
        true
    } else if l < 1 {
        false
    } else {
        left_floor(g, y, l - 1)
    }
}

/// Looking right along row `y` from column `r`: whether a floor `_` is met
/// by column 67.
pub open spec fn right_floor(g: GridView, y: int, r: int) -> bool
    decreases 67 - r,
{
    if at(g, y, r) == glyph('_') {
        true
    } else if r > 66 {
        false
    } else {
        right_floor(g, y, r + 1)
    }
}

/// A floor cell that has a crossing marker `E` right above it and floor
/// further up.
pub open spec fn connects_up(g: GridView, y: int, x: int) -> bool {
    y - 1 > 0 && at(g, y - 1, x) == glyph('E') && up_finds(g, x, y - 1)
}

/// A floor cell with a crossing marker `E` right left of it and floor further left.
pub open spec fn connects_left(g: GridView, y: int, x: int) -> bool {
    x - 1 > 0 && at(g, y, x - 1) == glyph('E') && left_floor(g, y, x - 1)
}

/// A floor cell with a crossing marker `E` right of it, and floor further right.
pub open spec fn connects_right(g: GridView, y: int, x: int) -> bool {
    x + 1 < 65 && at(g, y, x + 1) == glyph('E') && right_floor(g, y, x + 1)
}

/// The direction `(dx, dy)` in which a tunnel from the cell at (`y`, `x`) can
/// reach another room: up first, then left, then right; `(0, 0)` for none, and
/// for a cell that is not floor.
pub open spec fn connect_dir(g: GridView, y: int, x: int) -> (int, int) {
    if at(g, y, x) != glyph('_') {
        (0, 0)
    } else if connects_up(g, y, x) {
        (0, -1)
    } else if connects_left(g, y, x) {
        (-1, 0)
    } else if connects_right(g, y, x) {
        (1, 0)
    } else {
        (0, 0)
    }
}

/// returns a 2d Vector that points in which direction to build the tunnel:
/// `[dx, dy]`.
pub fn can_connect(grid: &Vec<Vec<String>>, x: usize, y: usize) -> (r: Vec<i32>)
    requires
        in_grid(gview(grid), y as int, x as int),
        at(gview(grid), y as int, x as int) == glyph('_') ==> x >= 1 && y >= 1,
    ensures
        r@.len() == 2,
        r@[0] == connect_dir(gview(grid), y as int, x as int).0,
        r@[1] == connect_dir(gview(grid), y as int, x as int).1,
{
    let ghost g = gview(grid);
    let mut path_direction: Vec<i32> = Vec::new();
    path_direction.insert(0, 0);
    path_direction.insert(1, 0);
    assert(path_direction@ =~= seq![0i32, 0i32]);
    if look_is(grid, y, x, 0, 0, '_') {
        if y - 1 > 0 && look_is(grid, y, x, -1, 0, 'E') {
            let mut up = y - 1;
            loop
                invariant_except_break
                    path_direction@ == seq![0i32, 0i32],
                    up_finds(g, x as int, y - 1) == up_finds(g, x as int, up as int),
                invariant
                    g == gview(grid),
                    up <= y - 1,
                ensures
                    path_direction@ == if up_finds(g, x as int, y - 1) {
                        seq![0i32, -1i32]
                    } else {
                        seq![0i32, 0i32]
                    },
                decreases up,
            {
                if look_is(grid, up, x, 0, 0, '_') {
                    path_direction.set(1, -1);
                    assert(path_direction@ =~= seq![0i32, -1i32]);
                    break;
                }
                if up < 1 {
                    break;
                }
                up = up - 1;
            }
        }
        if x - 1 > 0 && look_is(grid, y, x, 0, -1, 'E') {
            let ghost before = path_direction@;
            proof {
                if before[0] == 0 && before[1] == 0 {
                    assert(before =~= seq![0i32, 0i32]);
                }
            }
            let mut left = x - 1;
            loop
                invariant_except_break
                    path_direction@ == before,
                    left_floor(g, y as int, x - 1) == left_floor(g, y as int, left as int),
                invariant
                    g == gview(grid),
                    before.len() == 2,
                    before == seq![0i32, 0i32] <==> (before[0] == 0 && before[1] == 0),
                    left <= x - 1,
                ensures
                    path_direction@ == if left_floor(g, y as int, x - 1) && before == seq![0i32, 0i32] {
                        seq![-1i32, 0i32]
                    } else {
                        before
                    },
                decreases left,
            {
                if look_is(grid, y, left, 0, 0, '_') {
                    if path_direction[0] == 0 && path_direction[1] == 0 {
                        path_direction.set(0, -1);
                        assert(path_direction@ =~= seq![-1i32, 0i32]);
                    }
                    break;
                }
                if left < 1 {
                    break;
                }
                left = left - 1;
            }
        }
        if x < 64 && look_is(grid, y, x, 0, 1, 'E') {
            let ghost before = path_direction@;
            proof {
                if before[0] == 0 && before[1] == 0 {
                    assert(before =~= seq![0i32, 0i32]);
                }
            }
            let mut right = x + 1;
            loop
                invariant_except_break
                    path_direction@ == before,
                    right_floor(g, y as int, x + 1) == right_floor(g, y as int, right as int),
                invariant
                    g == gview(grid),
                    before.len() == 2,
                    before == seq![0i32, 0i32] <==> (before[0] == 0 && before[1] == 0),
                    x + 1 <= right <= 67,
                ensures
                    path_direction@ == if right_floor(g, y as int, x + 1) && before == seq![0i32, 0i32] {
                        seq![1i32, 0i32]
                    } else {
                        before
                    },
                decreases 67 - right,
            {
                if look_is(grid, y, right, 0, 0, '_') {
                    if path_direction[0] == 0 && path_direction[1] == 0 {
                        path_direction.set(0, 1);
                        assert(path_direction@ =~= seq![1i32, 0i32]);
                    }
                    break;
                }
                if right > 66 {
                    break;
                }
                right = right + 1;
            }
        }
    }
    path_direction
}

// ---------------------------------------------------------------------------
// Carving a room

/// Whether the cell at (`r`, `c`) lies in the room `x` wide and `y` high at
/// offset (`oy`, `ox`).
pub open spec fn in_room(r: int, c: int, x: int, y: int, ox: int, oy: int) -> bool {
    ox <= c < ox + x && oy <= r < oy + y
}

/// Whether the cell at (`r`, `c`) shares a column or a row with the room.
pub open spec fn in_cross(r: int, c: int, x: int, y: int, ox: int, oy: int) -> bool {
    (ox <= c < ox + x) || (oy <= r < oy + y)
}

/// A cell in line with a new room: a wall `#` becomes a marker `B` (a room
/// lies across), a marker `B` becomes a crossing `E` (two rooms face each
/// other across it).
pub open spec fn marked(v: Seq<char>) -> Seq<char> {
    if v == glyph('B') {
        glyph('E')
    } else if v == glyph('#') {
        glyph('B')
    } else {
        v
    }
}

/// The grid with the room carved: in the window `max_x` by `max_y`, cells in
/// line with the room marked, the room itself floored with `_`.
pub open spec fn carved(
    g: GridView,
    max_x: int,
    max_y: int,
    x: int,
    y: int,
    ox: int,
    oy: int,
) -> GridView {
    Seq::new(
        g.len(),
        |r: int|
            Seq::new(
                g[r].len(),
                |c: int|
                    if in_room(r, c, x, y, ox, oy) {
                        glyph('_')
                    } else if r < max_y && c < max_x && in_cross(r, c, x, y, ox, oy) {
                        marked(g[r][c])
                    } else {
                        g[r][c]
                    },
            ),
    )
}

/// The first room's shaft in column `col`: floor `_` from row `oy - 1` up to
/// row 1, and the water source `^` in row 0.
pub open spec fn shaft(g: GridView, col: int, oy: int) -> GridView {
    Seq::new(
        g.len(),
        |r: int|
            Seq::new(
                g[r].len(),
                |c: int|
                    if c == col && r == 0 {
                        glyph('^')
                    } else if c == col && 1 <= r < oy {
                        glyph('_')
                    } else {
                        g[r][c]
                    },
            ),
    )
}

// ---------------------------------------------------------------------------
// Tunnels

/// A cell of the new room from which a tunnel can be dug, and its direction.
pub struct DoorCell {
    pub y: usize,
    pub x: usize,
    pub direction_y: i32,
    pub direction_x: i32,
}

/// How far `j` steps in direction `d` (`-1`, `0` or `1`) take one.
pub open spec fn step(d: int, j: int) -> int {
    if d < 0 {
        -j
    } else if d > 0 {
        j
    } else {
        0
    }
}

/// Stepping from (`cy`, `cx`) in direction (`dy`, `dx`), from step `j` on:
/// the first step that lands on floor `_`, or `bound`.
pub open spec fn floor_step(g: GridView, cy: int, cx: int, dy: int, dx: int, j: int, bound: int) -> int
    decreases bound - j,
{
    if j >= bound || at(g, cy + step(dy, j), cx + step(dx, j)) == glyph('_') {
        j
    } else {
        floor_step(g, cy, cx, dy, dx, j + 1, bound)
    }
}

/// The number of steps from (`cy`, `cx`) in direction (`dy`, `dx`) to the
/// first floor `_`.
pub open spec fn tunnel_len(g: GridView, cy: int, cx: int, dy: int, dx: int) -> int {
    floor_step(g, cy, cx, dy, dx, 1, cy + cx + 68)
}

/// The door entries of the cell at (`cy`, `cx`): one for each cell a tunnel
/// from it would cut before it meets floor, none if it cannot tunnel.
pub open spec fn door_entries(g: GridView, cy: int, cx: int) -> Seq<DoorCell> {
    let (dx, dy) = connect_dir(g, cy, cx);
    if dx == 0 && dy == 0 {
        Seq::empty()
    } else {
        let n = tunnel_len(g, cy, cx, dy, dx) - 1;
        Seq::new(
            n as nat,
            |i: int| DoorCell { y: cy as usize, x: cx as usize, direction_y: dy as i32, direction_x: dx as i32 },
        )
    }
}

/// The door entries of the first `n` cells of column `a` of the room.
pub open spec fn doors_in_column(g: GridView, ox: int, oy: int, a: int, n: nat) -> Seq<DoorCell>
    decreases n,
{
    if n == 0 {
        Seq::empty()
    } else {
        doors_in_column(g, ox, oy, a, (n - 1) as nat) + door_entries(g, oy + n - 1, ox + a)
    }
}

/// The door entries of the first `m` columns of the room, `y` cells high.
pub open spec fn doors_upto(g: GridView, ox: int, oy: int, y: int, m: nat) -> Seq<DoorCell>
    decreases m,
{
    if m == 0 {
        Seq::empty()
    } else {
        doors_upto(g, ox, oy, y, (m - 1) as nat) + doors_in_column(g, ox, oy, m - 1, y as nat)
    }
}

/// The grid with the first `n` cells stepped over from the door `d` floored.
pub open spec fn dug(g: GridView, d: DoorCell, n: nat) -> GridView
    decreases n,
{
    if n == 0 {
        g
    } else {
        put(
            dug(g, d, (n - 1) as nat),
            d.y + step(d.direction_y as int, n as int),
            d.x + step(d.direction_x as int, n as int),
            glyph('_'),
        )
    }
}

/// The grid with the tunnel from door `d` dug up to the floor it meets.
pub open spec fn tunnel(g: GridView, d: DoorCell) -> GridView {
    dug(g, d, (tunnel_len(g, d.y as int, d.x as int, d.direction_y as int, d.direction_x as int) - 1) as nat)
}

// ---------------------------------------------------------------------------
// Building a room

/// Marks the cells in line with the room and floors the room.
fn carve(grid: &mut Vec<Vec<String>>, max_grid_x: usize, max_grid_y: usize, x: usize, y: usize, offset_x: usize, offset_y: usize)
    requires
        covers(gview(old(grid)), max_grid_x as int, max_grid_y as int),
        max_grid_x > 0,
        offset_x + x <= max_grid_x,
        offset_y + y <= max_grid_y,
    ensures
        gview(final(grid)) == carved(
            gview(old(grid)),
            max_grid_x as int,
            max_grid_y as int,
            x as int,
            y as int,
            offset_x as int,
            offset_y as int,
        ),
{
    let ghost g0 = gview(grid);
    let ghost (mx, my, xx, yy, ox, oy) = (
        max_grid_x as int,
        max_grid_y as int,
        x as int,
        y as int,
        offset_x as int,
        offset_y as int,
    );
    for room_x in 0..max_grid_x
        invariant
            mx == max_grid_x && my == max_grid_y && xx == x && yy == y && ox == offset_x && oy == offset_y,
            covers(g0, mx, my),
            max_grid_x > 0,
            offset_x + x <= max_grid_x,
            offset_y + y <= max_grid_y,
            same_shape(g0, gview(grid)),
            forall|r: int, c: int|
                #![trigger gview(grid)[r][c]]
                in_grid(g0, r, c) ==> gview(grid)[r][c] == if r < my && c < room_x && in_cross(r, c, xx, yy, ox, oy) {
                    marked(g0[r][c])
                } else {
                    g0[r][c]
                },
    {
        for room_y in 0..max_grid_y
            invariant
                mx == max_grid_x && my == max_grid_y && xx == x && yy == y && ox == offset_x && oy == offset_y,
                covers(g0, mx, my),
                room_x < max_grid_x,
                offset_x + x <= max_grid_x,
                offset_y + y <= max_grid_y,
                same_shape(g0, gview(grid)),
                forall|r: int, c: int|
                    #![trigger gview(grid)[r][c]]
                    in_grid(g0, r, c) ==> gview(grid)[r][c] == if r < my && (c < room_x || (c == room_x && r < room_y)) && in_cross(r, c, xx, yy, ox, oy) {
                        marked(g0[r][c])
                    } else {
                        g0[r][c]
                    },
        {
            let ghost cur = gview(grid);
            proof {
                assert(g0[room_y as int].len() >= mx);
                lemma_same_shape_in_grid(g0, cur, room_y as int, room_x as int);
                assert(cur[room_y as int][room_x as int] == g0[room_y as int][room_x as int]);
            }
            if (room_x >= offset_x && room_x < x + offset_x) || (room_y >= offset_y && room_y < y + offset_y) {
                if look_is(grid, room_y, room_x, 0, 0, 'B') {
                    write_cell(grid, room_y, room_x, 'E');
                } else if look_is(grid, room_y, room_x, 0, 0, '#') {
                    write_cell(grid, room_y, room_x, 'B');
                }
            }
            proof {
                lemma_same_shape_trans(g0, cur, gview(grid));
                assert forall|r: int, c: int| in_grid(g0, r, c) implies #[trigger] gview(grid)[r][c] == if r < my && (c < room_x || (c == room_x && r < room_y + 1)) && in_cross(r, c, xx, yy, ox, oy) {
                        marked(g0[r][c])
                    } else {
                        g0[r][c]
                    } by {
                    lemma_same_shape_in_grid(g0, gview(grid), r, c);
                    assert(at(gview(grid), r, c) == gview(grid)[r][c]);
                    assert(at(cur, r, c) == cur[r][c]);
                }
            }
        }
    }
    let ghost m = gview(grid);
    for room_x in 0..x
        invariant
            mx == max_grid_x && my == max_grid_y && xx == x && yy == y && ox == offset_x && oy == offset_y,
            covers(g0, mx, my),
            max_grid_x > 0,
            offset_x + x <= max_grid_x,
            offset_y + y <= max_grid_y,
            same_shape(g0, gview(grid)),
            forall|r: int, c: int|
                #![trigger gview(grid)[r][c]]
                in_grid(g0, r, c) ==> gview(grid)[r][c] == if in_room(r, c, room_x as int, yy, ox, oy) {
                    glyph('_')
                } else if r < my && c < mx && in_cross(r, c, xx, yy, ox, oy) {
                    marked(g0[r][c])
                } else {
                    g0[r][c]
                },
    {
        for room_y in 0..y
            invariant
                mx == max_grid_x && my == max_grid_y && xx == x && yy == y && ox == offset_x && oy == offset_y,
                covers(g0, mx, my),
                room_x < x,
                offset_x + x <= max_grid_x,
                offset_y + y <= max_grid_y,
                same_shape(g0, gview(grid)),
                forall|r: int, c: int|
                    #![trigger gview(grid)[r][c]]
                    in_grid(g0, r, c) ==> gview(grid)[r][c] == if in_room(r, c, room_x as int, yy, ox, oy) || (c == ox + room_x && oy <= r < oy + room_y) {
                        glyph('_')
                    } else if r < my && c < mx && in_cross(r, c, xx, yy, ox, oy) {
                        marked(g0[r][c])
                    } else {
                        g0[r][c]
                    },
        {
            let ghost cur = gview(grid);
            proof {
                assert(g0[(room_y + offset_y) as int].len() >= mx);
                lemma_same_shape_in_grid(g0, cur, (room_y + offset_y) as int, (room_x + offset_x) as int);
            }
            write_cell(grid, room_y + offset_y, room_x + offset_x, '_');
            proof {
                lemma_same_shape_trans(g0, cur, gview(grid));
                assert forall|r: int, c: int| in_grid(g0, r, c) implies #[trigger] gview(grid)[r][c] == if in_room(r, c, room_x as int, yy, ox, oy) || (c == ox + room_x && oy <= r < oy + room_y + 1) {
                        glyph('_')
                    } else if r < my && c < mx && in_cross(r, c, xx, yy, ox, oy) {
                        marked(g0[r][c])
                    } else {
                        g0[r][c]
                    } by {
                    lemma_same_shape_in_grid(g0, gview(grid), r, c);
                    lemma_same_shape_in_grid(g0, cur, r, c);
                    assert(at(gview(grid), r, c) == gview(grid)[r][c]);
                    assert(at(cur, r, c) == cur[r][c]);
                }
            }
        }
    }
    proof {
        let want = carved(g0, mx, my, xx, yy, ox, oy);
        let got = gview(grid);
        assert(got.len() == want.len());
        assert forall|r: int| 0 <= r < got.len() implies #[trigger] got[r] =~= want[r] by {
            assert(got[r].len() == g0[r].len());
            assert forall|c: int| 0 <= c < got[r].len() implies got[r][c] == want[r][c] by {
                assert(in_grid(g0, r, c));
            }
        }
        assert(got =~= want);
    }
}

/// Digs the first room's shaft in column `col` up from row `offset_y`, with
/// the water source at the top.
fn dig_shaft(grid: &mut Vec<Vec<String>>, col: usize, offset_y: usize)
    requires
        1 <= offset_y,
        forall|r: int| 0 <= r < offset_y ==> in_grid(gview(old(grid)), r, col as int),
    ensures
        gview(final(grid)) == shaft(gview(old(grid)), col as int, offset_y as int),
{
    let ghost g0 = gview(grid);
    let mut i: usize = 1;
    loop
        invariant
            g0 == gview(old(grid)),
            1 <= i <= offset_y,
            forall|r: int| 0 <= r < offset_y ==> in_grid(g0, r, col as int),
            same_shape(g0, gview(grid)),
            forall|r: int, c: int|
                #![trigger gview(grid)[r][c]]
                in_grid(g0, r, c) ==> gview(grid)[r][c] == if c == col && offset_y - i < r < offset_y {
                    glyph('_')
                } else {
                    g0[r][c]
                },
        decreases offset_y - i,
    {
        let ghost cur = gview(grid);
        proof {
            lemma_same_shape_in_grid(g0, cur, offset_y - i, col as int);
        }
        if offset_y - i != 0 {
            write_cell(grid, offset_y - i, col, '_');
        } else {
            write_cell(grid, offset_y - i, col, '^');
            proof {
                let want = shaft(g0, col as int, offset_y as int);
                let got = gview(grid);
                lemma_same_shape_trans(g0, cur, got);
                assert(got.len() == want.len());
                assert forall|r: int| 0 <= r < got.len() implies #[trigger] got[r] =~= want[r] by {
                    assert(got[r].len() == g0[r].len());
                    assert forall|c: int| 0 <= c < got[r].len() implies got[r][c] == want[r][c] by {
                        assert(in_grid(g0, r, c));
                        lemma_same_shape_in_grid(g0, cur, r, c);
                        assert(at(got, r, c) == got[r][c]);
                        assert(at(cur, r, c) == cur[r][c]);
                    }
                }
                assert(got =~= want);
            }
            return;
        }
        proof {
            let got = gview(grid);
            lemma_same_shape_trans(g0, cur, got);
            assert forall|r: int, c: int| in_grid(g0, r, c) implies #[trigger] gview(grid)[r][c] == if c == col && offset_y - (i + 1) < r < offset_y {
                    glyph('_')
                } else {
                    g0[r][c]
                } by {
                lemma_same_shape_in_grid(g0, cur, r, c);
                assert(at(got, r, c) == got[r][c]);
                assert(at(cur, r, c) == cur[r][c]);
            }
        }
        i = i + 1;
    }
}

/// Looking up column `x` from row `u`: a floor cell found there.
proof fn lemma_up_witness(g: GridView, x: int, u: int) -> (r: int)
    requires
        up_finds(g, x, u),
        u >= 0,
    ensures
        0 <= r <= u,
        at(g, r, x) == glyph('_'),
    decreases u,
{
    if at(g, u, x) == glyph('_') {
        u
    } else {
        lemma_up_witness(g, x, u - 1)
    }
}

/// Looking left along row `y` from column `l`: a floor cell found there.
proof fn lemma_left_witness(g: GridView, y: int, l: int) -> (c: int)
    requires
        left_floor(g, y, l),
        l >= 0,
    ensures
        0 <= c <= l,
        at(g, y, c) == glyph('_'),
    decreases l,
{
    if at(g, y, l) == glyph('_') {
        l
    } else {
        lemma_left_witness(g, y, l - 1)
    }
}

/// Looking right along row `y` from column `r`: a floor cell found there.
proof fn lemma_right_witness(g: GridView, y: int, r: int) -> (c: int)
    requires
        right_floor(g, y, r),
        r <= 67,
    ensures
        r <= c <= 67,
        at(g, y, c) == glyph('_'),
    decreases 67 - r,
{
    if at(g, y, r) == glyph('_') {
        r
    } else {
        lemma_right_witness(g, y, r + 1)
    }
}

/// Where floor lies `k` steps away, the first floor is met at most `k` steps away.
proof fn lemma_floor_step(g: GridView, cy: int, cx: int, dy: int, dx: int, j: int, k: int, bound: int)
    requires
        j <= k < bound,
        at(g, cy + step(dy, k), cx + step(dx, k)) == glyph('_'),
    ensures
        j <= floor_step(g, cy, cx, dy, dx, j, bound) <= k,
        at(
            g,
            cy + step(dy, floor_step(g, cy, cx, dy, dx, j, bound)),
            cx + step(dx, floor_step(g, cy, cx, dy, dx, j, bound)),
        ) == glyph('_'),
        forall|i: int|
            j <= i < floor_step(g, cy, cx, dy, dx, j, bound) ==> #[trigger] at(
                g,
                cy + step(dy, i),
                cx + step(dx, i),
            ) != glyph('_'),
    decreases bound - j,
{
    if at(g, cy + step(dy, j), cx + step(dx, j)) != glyph('_') {
        lemma_floor_step(g, cy, cx, dy, dx, j + 1, k, bound);
    }
}

/// A door from which a tunnel can be dug: its direction is up, left or right,
/// the tunnel meets floor, and every cell it cuts before that lies in the grid.
pub open spec fn door_ok(g: GridView, d: DoorCell) -> bool {
    let dy = d.direction_y as int;
    let dx = d.direction_x as int;
    let n = tunnel_len(g, d.y as int, d.x as int, dy, dx);
    &&& (dy == -1 && dx == 0) || (dy == 0 && dx == -1) || (dy == 0 && dx == 1)
    &&& n >= 1
    &&& dx == 1 ==> d.x + n <= 67
    &&& at(g, d.y + step(dy, n), d.x + step(dx, n)) == glyph('_')
    &&& forall|j: int|
        1 <= j < n ==> in_grid(g, d.y + step(dy, j), d.x + step(dx, j)) && #[trigger] at(
            g,
            d.y + step(dy, j),
            d.x + step(dx, j),
        ) != glyph('_')
}

/// A floor cell of the window that can tunnel gives a door as described by `door_ok`.
proof fn lemma_door_ok(g: GridView, max_x: int, max_y: int, cy: int, cx: int)
    requires
        covers(g, max_x, max_y),
        max_x <= usize::MAX,
        max_y <= usize::MAX,
        0 <= cy < max_y,
        0 <= cx < max_x,
        connect_dir(g, cy, cx) != (0int, 0int),
    ensures
        ({
            let (dx, dy) = connect_dir(g, cy, cx);
            door_ok(g, DoorCell { y: cy as usize, x: cx as usize, direction_y: dy as i32, direction_x: dx as i32 })
        }),
{
    let (dx, dy) = connect_dir(g, cy, cx);
    let bound = cy + cx + 68;
    assert(g[cy].len() >= max_x);
    let k: int = if connects_up(g, cy, cx) {
        let r = lemma_up_witness(g, cx, cy - 1);
        cy - r
    } else if connects_left(g, cy, cx) {
        let c = lemma_left_witness(g, cy, cx - 1);
        cx - c
    } else {
        let c = lemma_right_witness(g, cy, cx + 1);
        c - cx
    };
    assert(at(g, cy + step(dy, k), cx + step(dx, k)) == glyph('_'));
    lemma_floor_step(g, cy, cx, dy, dx, 1, k, bound);
    let n = tunnel_len(g, cy, cx, dy, dx);
    assert(in_grid(g, cy + step(dy, n), cx + step(dx, n)));
    assert forall|j: int| 1 <= j < n implies in_grid(g, cy + step(dy, j), cx + step(dx, j)) by {
        if dy == -1 {
            assert(g[cy - j].len() >= max_x);
        } else if dx == -1 {
        } else {
            assert(cx + n < g[cy].len());
        }
    }
}

/// The cells of the room, column by column, that can tunnel to a room they
/// face: each with its direction, once for every cell its tunnel would cut.
fn door_cells_of(
    grid: &Vec<Vec<String>>,
    max_grid_x: usize,
    max_grid_y: usize,
    x: usize,
    y: usize,
    offset_x: usize,
    offset_y: usize,
) -> (doors: Vec<DoorCell>)
    requires
        covers(gview(grid), max_grid_x as int, max_grid_y as int),
        offset_x >= 1,
        offset_y >= 1,
        offset_x + x <= max_grid_x,
        offset_y + y <= max_grid_y,
    ensures
        doors@ == doors_upto(gview(grid), offset_x as int, offset_y as int, y as int, x as nat),
        forall|i: int| 0 <= i < doors@.len() ==> door_ok(gview(grid), #[trigger] doors@[i]),
{
    let ghost g = gview(grid);
    let mut door_cells: Vec<DoorCell> = Vec::new();
    for a in 0..x
        invariant
            g == gview(grid),
            covers(g, max_grid_x as int, max_grid_y as int),
            offset_x >= 1,
            offset_y >= 1,
            offset_x + x <= max_grid_x,
            offset_y + y <= max_grid_y,
            door_cells@ == doors_upto(g, offset_x as int, offset_y as int, y as int, a as nat),
            forall|i: int| 0 <= i < door_cells@.len() ==> door_ok(g, #[trigger] door_cells@[i]),
    {
        for b in 0..y
            invariant
                g == gview(grid),
                covers(g, max_grid_x as int, max_grid_y as int),
                a < x,
                offset_x >= 1,
                offset_y >= 1,
                offset_x + x <= max_grid_x,
                offset_y + y <= max_grid_y,
                door_cells@ == doors_upto(g, offset_x as int, offset_y as int, y as int, a as nat)
                    + doors_in_column(g, offset_x as int, offset_y as int, a as int, b as nat),
                forall|i: int| 0 <= i < door_cells@.len() ==> door_ok(g, #[trigger] door_cells@[i]),
        {
            let cy = b + offset_y;
            let cx = a + offset_x;
            proof {
                assert(g[cy as int].len() >= max_grid_x);
            }
            let ghost before = door_cells@;
            let path_vec = can_connect(grid, cx, cy);
            if path_vec[0] != 0 || path_vec[1] != 0 {
                let dx = path_vec[0];
                let dy = path_vec[1];
                let door = DoorCell { y: cy, x: cx, direction_y: dy, direction_x: dx };
                let ghost n = tunnel_len(g, cy as int, cx as int, dy as int, dx as int);
                proof {
                    lemma_door_ok(g, max_grid_x as int, max_grid_y as int, cy as int, cx as int);
                    assert(door_ok(g, door));
                }
                let mut i: usize = 1;
                loop
                    invariant
                        door_cells@ == before + Seq::new((i - 1) as nat, |k: int| door),
                        g == gview(grid),
                        1 <= i <= n,
                        door_ok(g, door),
                        door == (DoorCell { y: cy, x: cx, direction_y: dy, direction_x: dx }),
                        n == tunnel_len(g, cy as int, cx as int, dy as int, dx as int),
                        forall|k: int| 0 <= k < before.len() ==> door_ok(g, #[trigger] before[k]),
                        forall|k: int| 0 <= k < door_cells@.len() ==> door_ok(g, #[trigger] door_cells@[k]),
                    ensures
                        door_cells@ == before + Seq::new((n - 1) as nat, |k: int| door),
                    decreases n - i,
                {
                    let ty: usize = if dy < 0 {
                        cy - i
                    } else if dy > 0 {
                        cy + i
                    } else {
                        cy
                    };
                    let tx: usize = if dx < 0 {
                        cx - i
                    } else if dx > 0 {
                        cx + i
                    } else {
                        cx
                    };
                    if !look_is(grid, ty, tx, 0, 0, '_') {
                        door_cells.push(DoorCell { y: cy, x: cx, direction_y: dy, direction_x: dx });
                        assert(door_cells@ =~= before + Seq::new(i as nat, |k: int| door));
                    } else {
                        proof {
                            assert(ty as int == door.y + step(door.direction_y as int, i as int));
                            assert(tx as int == door.x + step(door.direction_x as int, i as int));
                            assert(at(g, door.y + step(door.direction_y as int, i as int), door.x + step(door.direction_x as int, i as int)) == glyph('_'));
                        }
                        break;
                    }
                    i = i + 1;
                }
            }
            proof {
                let up = doors_upto(g, offset_x as int, offset_y as int, y as int, a as nat);
                let col = doors_in_column(g, offset_x as int, offset_y as int, a as int, b as nat);
                assert(door_cells@ =~= before + door_entries(g, cy as int, cx as int));
                assert(doors_in_column(g, offset_x as int, offset_y as int, a as int, (b + 1) as nat)
                    == col + door_entries(g, cy as int, cx as int));
                assert(door_cells@ =~= up + (col + door_entries(g, cy as int, cx as int)));
            }
        }
    }
    door_cells
}

/// Flooring cells already stepped over leaves the cells further along as they were.
proof fn lemma_dug_ahead(g: GridView, d: DoorCell, m: nat, k: int)
    requires
        (d.direction_y != 0 || d.direction_x != 0),
        k > m,
    ensures
        at(dug(g, d, m), d.y + step(d.direction_y as int, k), d.x + step(d.direction_x as int, k))
            == at(g, d.y + step(d.direction_y as int, k), d.x + step(d.direction_x as int, k)),
        forall|a: int, b: int| #[trigger] in_grid(dug(g, d, m), a, b) == in_grid(g, a, b),
    decreases m,
{
    if m > 0 {
        lemma_dug_ahead(g, d, (m - 1) as nat, k);
        let prev = dug(g, d, (m - 1) as nat);
        let py = d.y + step(d.direction_y as int, m as int);
        let px = d.x + step(d.direction_x as int, m as int);
        assert forall|a: int, b: int| #[trigger] in_grid(dug(g, d, m), a, b) == in_grid(g, a, b) by {
            lemma_put_at(prev, py, px, glyph('_'), a, b);
        }
    }
}

/// Digs the tunnel from `door` until it meets floor.
fn dig_tunnel(grid: &mut Vec<Vec<String>>, door: &DoorCell)
    requires
        door_ok(gview(old(grid)), *door),
    ensures
        gview(final(grid)) == tunnel(gview(old(grid)), *door),
{
    let ghost g0 = gview(grid);
    let ghost n = tunnel_len(g0, door.y as int, door.x as int, door.direction_y as int, door.direction_x as int);
    let mut j: usize = 1;
    loop
        invariant
            g0 == gview(old(grid)),
            door_ok(g0, *door),
            n == tunnel_len(g0, door.y as int, door.x as int, door.direction_y as int, door.direction_x as int),
            1 <= j <= n,
            gview(grid) == dug(g0, *door, (j - 1) as nat),
        ensures
            gview(grid) == tunnel(g0, *door),
        decreases n - j,
    {
        proof {
            lemma_dug_ahead(g0, *door, (j - 1) as nat, j as int);
        }
        let ghost sy = door.y + step(door.direction_y as int, j as int);
        let ghost sx = door.x + step(door.direction_x as int, j as int);
        assert(in_grid(g0, sy, sx));
        let ty: usize = if door.direction_y < 0 {
            door.y - j
        } else if door.direction_y > 0 {
            door.y + j
        } else {
            door.y
        };
        let tx: usize = if door.direction_x < 0 {
            door.x - j
        } else if door.direction_x > 0 {
            door.x + j
        } else {
            door.x
        };
        assert(ty as int == sy && tx as int == sx);
        if !look_is(grid, ty, tx, 0, 0, '_') {
            write_cell(grid, ty, tx, '_');
        } else {
            assert(at(g0, sy, sx) == glyph('_'));
            break;
        }
        j = j + 1;
    }
}

// ---------------------------------------------------------------------------
// Where a room may go

/// The limits of a new room's size and offset, which depend on how many rooms
/// there are already, so that rooms come out from the top down.
struct ByRoomAdjusting {
    pub min_y_size: usize,
    pub min_x_size: usize,
    pub max_y_size: usize,
    pub max_x_size: usize,
    pub min_y_offset: usize,
    pub min_x_offset: usize,
    pub max_y_offset: usize,
    pub max_x_offset: usize,
}

/// Whether the room `x` wide and `y` high at offset (`oy`, `ox`) has the size
/// and the offset the generator draws for room number `rc` (counted from 0) in
/// the window `max_x` by `max_y`.
pub open spec fn draws_ok(max_x: int, max_y: int, rc: int, x: int, y: int, ox: int, oy: int) -> bool {
    &&& 5 <= y < max_y - 5 - rc * 5 - (20 - rc * 4)
    &&& 5 <= x < max_x - 5 - rc * 2
    &&& 2 + rc * 5 <= oy <= max_y - y - 1 - (20 - rc * 4)
    &&& 1 <= ox <= max_x - x - 1
}

/// Whether the room and the ring of cells around it hold no floor `_`.
pub open spec fn fits(g: GridView, x: int, y: int, ox: int, oy: int) -> bool {
    forall|r: int, c: int| oy - 1 <= r <= oy + y && ox - 1 <= c <= ox + x ==> #[trigger] at(g, r, c) != glyph('_')
}

/// Whether the room covers a marker `B`: another room lies straight across.
pub open spec fn faces_room(g: GridView, x: int, y: int, ox: int, oy: int) -> bool {
    exists|r: int, c: int| in_room(r, c, x, y, ox, oy) && #[trigger] at(g, r, c) == glyph('B')
}

/// Whether a later room drawn `x` wide and `y` high at offset (`oy`, `ox`) is
/// taken: it fits with its ring, faces a room, and, once carved into the
/// window `max_x` by `max_y`, has a door entry to tunnel from.
pub open spec fn draw_taken(g: GridView, max_x: int, max_y: int, x: int, y: int, ox: int, oy: int) -> bool {
    &&& fits(g, x, y, ox, oy)
    &&& faces_room(g, x, y, ox, oy)
    &&& doors_upto(carved(g, max_x, max_y, x, y, ox, oy), ox, oy, y, x as nat).len() > 0
}

/// Whether every room that the generator can draw for room number `rc` is
/// taken: then the first draw is built, whatever it is.
pub open spec fn every_draw_fits(g: GridView, max_x: int, max_y: int, rc: int) -> bool {
    forall|x: int, y: int, ox: int, oy: int|
        #[trigger] draws_ok(max_x, max_y, rc, x, y, ox, oy) ==> draw_taken(g, max_x, max_y, x, y, ox, oy)
}

/// Whether each of `draws`, a room as (`x`, `y`, `ox`, `oy`), is one the
/// generator can draw for room number `rc`, and none is taken.
pub open spec fn draws_all_refused(g: GridView, max_x: int, max_y: int, rc: int, draws: Seq<(int, int, int, int)>) -> bool {
    forall|i: int|
        0 <= i < draws.len() ==> {
            let (x, y, ox, oy) = #[trigger] draws[i];
            draws_ok(max_x, max_y, rc, x, y, ox, oy) && !draw_taken(g, max_x, max_y, x, y, ox, oy)
        }
}

/// The grid with the room built: carved, then for the first room (`rc == 0`)
/// the shaft dug in column `ox + pick`, and for a later room the tunnel from
/// door entry `pick` dug.
pub open spec fn room_built(
    g: GridView,
    max_x: int,
    max_y: int,
    rc: int,
    x: int,
    y: int,
    ox: int,
    oy: int,
    pick: int,
) -> GridView {
    let c = carved(g, max_x, max_y, x, y, ox, oy);
    if rc == 0 {
        shaft(c, ox + pick, oy)
    } else {
        tunnel(c, doors_upto(c, ox, oy, y, x as nat)[pick])
    }
}

/// Whether `r` is `g` with room number `rc` built, `x` wide and `y` high at
/// offset (`oy`, `ox`), with the draw `pick` for the shaft or the tunnel.
pub open spec fn room_placed(
    g: GridView,
    r: GridView,
    max_x: int,
    max_y: int,
    rc: int,
    x: int,
    y: int,
    ox: int,
    oy: int,
    pick: int,
) -> bool {
    &&& draws_ok(max_x, max_y, rc, x, y, ox, oy)
    &&& rc == 0 || draw_taken(g, max_x, max_y, x, y, ox, oy)
    &&& rc == 0 ==> 1 <= pick < x - 1
    &&& rc != 0 ==> 0 <= pick < doors_upto(carved(g, max_x, max_y, x, y, ox, oy), ox, oy, y, x as nat).len()
    &&& r == room_built(g, max_x, max_y, rc, x, y, ox, oy, pick)
}

/// Whether room number `rc` can be drawn in the window `max_x` by `max_y`
/// without running out of room: the size ranges are not empty.
pub open spec fn room_drawable(max_x: int, max_y: int, rc: int) -> bool {
    max_x > 10 + 2 * rc && max_y > 30 + rc
}

/// Whether the room and its ring hold no floor `_`.
fn space_around(grid: &Vec<Vec<String>>, x: usize, y: usize, offset_x: usize, offset_y: usize) -> (b: bool)
    requires
        offset_x >= 1,
        offset_y >= 1,
        offset_x + x + 1 <= usize::MAX,
        offset_y + y + 1 <= usize::MAX,
    ensures
        b == fits(gview(grid), x as int, y as int, offset_x as int, offset_y as int),
{
    let ghost g = gview(grid);
    let mut enough_space = true;
    for a in 0..x + 2
        invariant
            g == gview(grid),
            offset_x >= 1,
            offset_y >= 1,
            offset_x + x + 1 <= usize::MAX,
            offset_y + y + 1 <= usize::MAX,
            enough_space == forall|r: int, c: int|
                offset_y - 1 <= r <= offset_y + y && offset_x - 1 <= c < offset_x - 1 + a ==> #[trigger] at(g, r, c) != glyph('_'),
    {
        for b in 0..y + 2
            invariant
                g == gview(grid),
                offset_x >= 1,
                offset_y >= 1,
                a < x + 2,
                offset_x + x + 1 <= usize::MAX,
                offset_y + y + 1 <= usize::MAX,
                enough_space == forall|r: int, c: int|
                    offset_y - 1 <= r <= offset_y + y && (offset_x - 1 <= c < offset_x - 1 + a || (c == offset_x - 1 + a && r < offset_y - 1 + b)) ==> #[trigger] at(g, r, c) != glyph('_'),
        {
            if look_is(grid, b + offset_y - 1, a + offset_x - 1, 0, 0, '_') {
                enough_space = false;
            }
        }
    }
    enough_space
}

/// Whether the room covers a marker `B`.
fn across_room_of(grid: &Vec<Vec<String>>, x: usize, y: usize, offset_x: usize, offset_y: usize) -> (b: bool)
    requires
        offset_x + x <= usize::MAX,
        offset_y + y <= usize::MAX,
    ensures
        b == faces_room(gview(grid), x as int, y as int, offset_x as int, offset_y as int),
{
    let ghost g = gview(grid);
    let mut across_room = false;
    for a in 0..x
        invariant
            g == gview(grid),
            offset_x + x <= usize::MAX,
            offset_y + y <= usize::MAX,
            across_room == exists|r: int, c: int|
                offset_y <= r < offset_y + y && offset_x <= c < offset_x + a && #[trigger] at(g, r, c) == glyph('B'),
    {
        for b in 0..y
            invariant
                g == gview(grid),
                a < x,
                offset_x + x <= usize::MAX,
                offset_y + y <= usize::MAX,
                across_room == exists|r: int, c: int|
                    offset_y <= r < offset_y + y && (offset_x <= c < offset_x + a || (c == offset_x + a && r < offset_y + b)) && #[trigger] at(g, r, c) == glyph('B'),
        {
            if look_is(grid, b + offset_y, a + offset_x, 0, 0, 'B') {
                across_room = true;
            }
        }
    }
    proof {
        if across_room {
            let (r, c) = choose|r: int, c: int|
                offset_y <= r < offset_y + y && offset_x <= c < offset_x + x && #[trigger] at(g, r, c) == glyph('B');
            assert(in_room(r, c, x as int, y as int, offset_x as int, offset_y as int));
        }
    }
    across_room
}

/// Carving keeps the shape of the grid.
proof fn lemma_carved_shape(g: GridView, max_x: int, max_y: int, x: int, y: int, ox: int, oy: int)
    ensures
        same_shape(g, carved(g, max_x, max_y, x, y, ox, oy)),
{
}

/// Generates room number `room_count` (counted from 0) at random and carves
/// it into `grid`. A later room must fit with a ring of wall around it, face a
/// room across and have a door entry; it is joined to a room it faces by a
/// tunnel. The first room gets a shaft to the top row, where the water source
/// `^` goes. After 5000 draws that are not taken, and for any room past the
/// sixth, the grid comes back as it was; where every draw is taken, the room
/// is built.
pub fn room(grid: Vec<Vec<String>>, max_grid_x: usize, max_grid_y: usize, room_count: usize) -> (r: Vec<Vec<String>>)
    requires
        room_count <= 5 ==> room_drawable(max_grid_x as int, max_grid_y as int, room_count as int)
            && covers(gview(&grid), max_grid_x as int, max_grid_y as int),
    ensures
        room_count > 5 ==> gview(&r) == gview(&grid),
        room_count == 0 ==> exists|x: int, y: int, ox: int, oy: int, pick: int|
            room_placed(gview(&grid), gview(&r), max_grid_x as int, max_grid_y as int, 0, x, y, ox, oy, pick),
        1 <= room_count <= 5 && every_draw_fits(gview(&grid), max_grid_x as int, max_grid_y as int, room_count as int)
            ==> exists|x: int, y: int, ox: int, oy: int, pick: int|
            room_placed(
                gview(&grid),
                gview(&r),
                max_grid_x as int,
                max_grid_y as int,
                room_count as int,
                x,
                y,
                ox,
                oy,
                pick,
            ),
        1 <= room_count <= 5 ==> (exists|x: int, y: int, ox: int, oy: int, pick: int|
            room_placed(
                gview(&grid),
                gview(&r),
                max_grid_x as int,
                max_grid_y as int,
                room_count as int,
                x,
                y,
                ox,
                oy,
                pick,
            )) || (gview(&r) == gview(&grid) && exists|draws: Seq<(int, int, int, int)>|
            draws.len() == 5001 && #[trigger] draws_all_refused(
                gview(&grid),
                max_grid_x as int,
                max_grid_y as int,
                room_count as int,
                draws,
            )),
        gview(&r) == gview(&grid) || exists|x: int, y: int, ox: int, oy: int, pick: int|
            room_placed(
                gview(&grid),
                gview(&r),
                max_grid_x as int,
                max_grid_y as int,
                room_count as int,
                x,
                y,
                ox,
                oy,
                pick,
            ),
{
    let ghost g0 = gview(&grid);
    let ghost (mx, my, rc) = (max_grid_x as int, max_grid_y as int, room_count as int);
    let mut grid = grid;
    let is_first = room_count == 0;
    let ghost always = room_count <= 5 && every_draw_fits(g0, mx, my, rc);
    let ghost mut refused: Seq<(int, int, int, int)> = Seq::empty();
    let mut x: usize = 0;
    let mut y: usize = 0;
    let mut offset_x: usize = 0;
    let mut offset_y: usize = 0;
    let mut attempts: i32 = 0;
    let mut placed = true;
    let mut built: Vec<Vec<String>> = Vec::new();
    let mut door_cells: Vec<DoorCell> = Vec::new();
    loop
        invariant_except_break
            attempts <= 5000,
            placed,
        invariant
            g0 == gview(&grid),
            mx == max_grid_x && my == max_grid_y && rc == room_count,
            is_first == (room_count == 0),
            room_count <= 5 ==> room_drawable(mx, my, rc) && covers(g0, mx, my),
            0 <= attempts,
            is_first ==> attempts == 0,
            always == (room_count <= 5 && every_draw_fits(g0, mx, my, rc)),
            always ==> attempts == 0,
            room_count <= 5 ==> refused.len() == attempts && draws_all_refused(g0, mx, my, rc, refused),
        ensures
            g0 == gview(&grid),
            !placed ==> !is_first,
            !placed ==> !always,
            !placed && room_count <= 5 ==> refused.len() == 5001 && draws_all_refused(g0, mx, my, rc, refused),
            placed ==> room_count <= 5,
            placed ==> draws_ok(mx, my, rc, x as int, y as int, offset_x as int, offset_y as int),
            placed && !is_first ==> {
                &&& draw_taken(g0, mx, my, x as int, y as int, offset_x as int, offset_y as int)
                &&& gview(&built) == carved(g0, mx, my, x as int, y as int, offset_x as int, offset_y as int)
                &&& door_cells@ == doors_upto(gview(&built), offset_x as int, offset_y as int, y as int, x as nat)
                &&& forall|i: int| 0 <= i < door_cells@.len() ==> door_ok(gview(&built), #[trigger] door_cells@[i])
            },
        decreases 5000 - attempts,
    {
        if room_count <= 5 {
            let mut new_room = ByRoomAdjusting {
                min_y_size: 5,
                min_x_size: 5,
                max_x_size: max_grid_x - 5 - room_count * 2,
                max_y_size: max_grid_y - 5 - room_count * 5 - (20 - room_count * 4),
                min_y_offset: 2 + room_count * 5,
                min_x_offset: 1,
                max_y_offset: 0,
                max_x_offset: 0,
            };
            y = random_in(new_room.min_y_size, new_room.max_y_size - 1);
            x = random_in(new_room.min_x_size, new_room.max_x_size - 1);
            new_room.max_y_offset = max_grid_y - y - 1 - (20 - room_count * 4);
            new_room.max_x_offset = max_grid_x - x - 1;
            offset_y = random_in(new_room.min_y_offset, new_room.max_y_offset);
            offset_x = random_in(new_room.min_x_offset, new_room.max_x_offset);
            assert(draws_ok(mx, my, rc, x as int, y as int, offset_x as int, offset_y as int));
            if is_first {
                break;
            }
            let enough_space = space_around(&grid, x, y, offset_x, offset_y);
            let across_room = across_room_of(&grid, x, y, offset_x, offset_y);
            let mut doors_found = false;
            if enough_space && across_room {
                let mut trial = clone_grid(&grid);
                proof {
                    lemma_carved_shape(g0, mx, my, x as int, y as int, offset_x as int, offset_y as int);
                    let c = carved(g0, mx, my, x as int, y as int, offset_x as int, offset_y as int);
                    assert forall|row: int| 0 <= row < my implies #[trigger] c[row].len() >= mx by {
                        assert(g0[row].len() >= mx);
                    }
                }
                carve(&mut trial, max_grid_x, max_grid_y, x, y, offset_x, offset_y);
                let doors = door_cells_of(&trial, max_grid_x, max_grid_y, x, y, offset_x, offset_y);
                if doors.len() > 0 {
                    built = trial;
                    door_cells = doors;
                    break;
                }
            }
            proof {
                assert(!draw_taken(g0, mx, my, x as int, y as int, offset_x as int, offset_y as int));
                let old_refused = refused;
                refused = refused.push((x as int, y as int, offset_x as int, offset_y as int));
                assert forall|i: int| 0 <= i < refused.len() implies {
                    let (dx, dy, dox, doy) = #[trigger] refused[i];
                    draws_ok(mx, my, rc, dx, dy, dox, doy) && !draw_taken(g0, mx, my, dx, dy, dox, doy)
                } by {
                    if i < old_refused.len() {
                        assert(refused[i] == old_refused[i]);
                    }
                }
            }
        }
        attempts += 1;
        if attempts > 5000 {
            placed = false;
            break;
        }
    }
    if !placed {
        proof {
            if room_count <= 5 {
                assert(draws_all_refused(g0, mx, my, rc, refused));
            }
        }
        return grid;
    }
    if is_first {
        proof {
            lemma_carved_shape(g0, mx, my, x as int, y as int, offset_x as int, offset_y as int);
            let c = carved(g0, mx, my, x as int, y as int, offset_x as int, offset_y as int);
            assert forall|row: int| 0 <= row < my implies #[trigger] c[row].len() >= mx by {
                assert(g0[row].len() >= mx);
            }
        }
        carve(&mut grid, max_grid_x, max_grid_y, x, y, offset_x, offset_y);
        let ghost c = gview(&grid);
        let id = random_in(1, x - 2);
        proof {
            assert forall|r: int| 0 <= r < offset_y implies #[trigger] in_grid(c, r, (offset_x + id) as int) by {
                assert(c[r].len() >= mx);
            }
        }
        dig_shaft(&mut grid, offset_x + id, offset_y);
        assert(room_placed(g0, gview(&grid), mx, my, rc, x as int, y as int, offset_x as int, offset_y as int, id as int));
        return grid;
    }
    let mut grid = built;
    let id = random_in(0, door_cells.len() - 1);
    dig_tunnel(&mut grid, &door_cells[id]);
    assert(room_placed(g0, gview(&grid), mx, my, rc, x as int, y as int, offset_x as int, offset_y as int, id as int));
    grid
}

/// Digging keeps the shape of the grid.
proof fn lemma_dug_shape(g: GridView, d: DoorCell, n: nat)
    ensures
        same_shape(g, dug(g, d, n)),
    decreases n,
{
    if n > 0 {
        lemma_dug_shape(g, d, (n - 1) as nat);
        let prev = dug(g, d, (n - 1) as nat);
        lemma_same_shape_trans(
            g,
            prev,
            put(prev, d.y + step(d.direction_y as int, n as int), d.x + step(d.direction_x as int, n as int), glyph('_')),
        );
    }
}

/// Building a room keeps the shape of the grid.
pub proof fn lemma_room_shape(
    g: GridView,
    r: GridView,
    max_x: int,
    max_y: int,
    rc: int,
    x: int,
    y: int,
    ox: int,
    oy: int,
    pick: int,
)
    requires
        room_placed(g, r, max_x, max_y, rc, x, y, ox, oy, pick),
    ensures
        same_shape(g, r),
{
    let c = carved(g, max_x, max_y, x, y, ox, oy);
    lemma_carved_shape(g, max_x, max_y, x, y, ox, oy);
    if rc == 0 {
        lemma_same_shape_trans(g, c, shaft(c, ox + pick, oy));
    } else {
        let d = doors_upto(c, ox, oy, y, x as nat)[pick];
        lemma_dug_shape(c, d, (tunnel_len(c, d.y as int, d.x as int, d.direction_y as int, d.direction_x as int) - 1) as nat);
        lemma_same_shape_trans(g, c, r);
    }
}

/// After digging `n` cells from door `d`, those cells are floor.
proof fn lemma_dug_floor(g: GridView, d: DoorCell, n: nat, j: int)
    requires
        (d.direction_y != 0 || d.direction_x != 0),
        1 <= j <= n,
        forall|i: int| 1 <= i <= n ==> #[trigger] in_grid(g, d.y + step(d.direction_y as int, i), d.x + step(d.direction_x as int, i)),
    ensures
        at(dug(g, d, n), d.y + step(d.direction_y as int, j), d.x + step(d.direction_x as int, j)) == glyph('_'),
    decreases n,
{
    let py = d.y + step(d.direction_y as int, n as int);
    let px = d.x + step(d.direction_x as int, n as int);
    lemma_dug_ahead(g, d, (n - 1) as nat, n as int);
    assert(in_grid(g, py, px));
    if j < n {
        lemma_dug_floor(g, d, (n - 1) as nat, j);
    }
}

/// A tunnel dug from a door leaves a clear passage of floor `_` all the way
/// to the floor it meets.
pub proof fn lemma_tunnel_is_clear(g: GridView, d: DoorCell)
    requires
        door_ok(g, d),
    ensures
        forall|j: int|
            1 <= j <= tunnel_len(g, d.y as int, d.x as int, d.direction_y as int, d.direction_x as int)
                ==> #[trigger] at(tunnel(g, d), d.y + step(d.direction_y as int, j), d.x + step(d.direction_x as int, j))
                == glyph('_'),
{
    let n = tunnel_len(g, d.y as int, d.x as int, d.direction_y as int, d.direction_x as int);
    assert forall|j: int| 1 <= j <= n implies #[trigger] at(tunnel(g, d), d.y + step(d.direction_y as int, j), d.x + step(d.direction_x as int, j)) == glyph('_') by {
        if j < n {
            assert forall|i: int| 1 <= i <= n - 1 implies #[trigger] in_grid(g, d.y + step(d.direction_y as int, i), d.x + step(d.direction_x as int, i)) by {
                assert(at(g, d.y + step(d.direction_y as int, i), d.x + step(d.direction_x as int, i)) != glyph('_'));
            }
            lemma_dug_floor(g, d, (n - 1) as nat, j);
        } else {
            lemma_dug_ahead(g, d, (n - 1) as nat, n);
        }
    }
}

/// A door entry of the room `x` wide and `y` high at offset (`oy`, `ox`): a
/// cell of the room, with the crossing marker `E` one step away, from which a
/// tunnel can be dug.
pub open spec fn room_door(g: GridView, d: DoorCell, x: int, y: int, ox: int, oy: int) -> bool {
    &&& door_ok(g, d)
    &&& in_room(d.y as int, d.x as int, x, y, ox, oy)
    &&& at(g, d.y + step(d.direction_y as int, 1), d.x + step(d.direction_x as int, 1)) == glyph('E')
}

/// Every door entry of the first `n` cells of column `a` of the room is a door of the room.
proof fn lemma_column_doors(g: GridView, max_x: int, max_y: int, x: int, y: int, ox: int, oy: int, a: int, n: nat)
    requires
        covers(g, max_x, max_y),
        max_x <= usize::MAX,
        max_y <= usize::MAX,
        0 <= a < x,
        0 <= ox,
        0 <= oy,
        ox + x <= max_x,
        oy + y <= max_y,
        n <= y,
    ensures
        forall|i: int|
            0 <= i < doors_in_column(g, ox, oy, a, n).len() ==> room_door(
                g,
                #[trigger] doors_in_column(g, ox, oy, a, n)[i],
                x,
                y,
                ox,
                oy,
            ),
    decreases n,
{
    if n > 0 {
        lemma_column_doors(g, max_x, max_y, x, y, ox, oy, a, (n - 1) as nat);
        let prev = doors_in_column(g, ox, oy, a, (n - 1) as nat);
        let cy = oy + n - 1;
        let cx = ox + a;
        let entries = door_entries(g, cy, cx);
        let (dx, dy) = connect_dir(g, cy, cx);
        if dx != 0 || dy != 0 {
            lemma_door_ok(g, max_x, max_y, cy, cx);
        }
        assert forall|i: int| 0 <= i < entries.len() implies room_door(g, #[trigger] entries[i], x, y, ox, oy) by {
        }
        assert forall|i: int|
            0 <= i < doors_in_column(g, ox, oy, a, n).len() implies room_door(
                g,
                #[trigger] doors_in_column(g, ox, oy, a, n)[i],
                x,
                y,
                ox,
                oy,
            ) by {
            if i >= prev.len() {
                assert(doors_in_column(g, ox, oy, a, n)[i] == entries[i - prev.len()]);
            } else {
                assert(doors_in_column(g, ox, oy, a, n)[i] == prev[i]);
            }
        }
    }
}

/// Every door entry of the first `m` columns of the room is a door of the room.
proof fn lemma_room_doors(g: GridView, max_x: int, max_y: int, x: int, y: int, ox: int, oy: int, m: nat)
    requires
        covers(g, max_x, max_y),
        max_x <= usize::MAX,
        max_y <= usize::MAX,
        m <= x,
        0 <= ox,
        0 <= oy,
        0 <= y,
        ox + x <= max_x,
        oy + y <= max_y,
    ensures
        forall|i: int|
            0 <= i < doors_upto(g, ox, oy, y, m).len() ==> room_door(
                g,
                #[trigger] doors_upto(g, ox, oy, y, m)[i],
                x,
                y,
                ox,
                oy,
            ),
    decreases m,
{
    if m > 0 {
        lemma_room_doors(g, max_x, max_y, x, y, ox, oy, (m - 1) as nat);
        lemma_column_doors(g, max_x, max_y, x, y, ox, oy, m - 1, y as nat);
        let prev = doors_upto(g, ox, oy, y, (m - 1) as nat);
        let col = doors_in_column(g, ox, oy, m - 1, y as nat);
        assert forall|i: int|
            0 <= i < doors_upto(g, ox, oy, y, m).len() implies room_door(
                g,
                #[trigger] doors_upto(g, ox, oy, y, m)[i],
                x,
                y,
                ox,
                oy,
            ) by {
            if i >= prev.len() {
                assert(doors_upto(g, ox, oy, y, m)[i] == col[i - prev.len()]);
            } else {
                assert(doors_upto(g, ox, oy, y, m)[i] == prev[i]);
            }
        }
    }
}

/// Digging only ever lays floor: a floor cell stays floor.
proof fn lemma_dug_keeps_floor(g: GridView, d: DoorCell, n: nat, a: int, b: int)
    requires
        at(g, a, b) == glyph('_'),
    ensures
        at(dug(g, d, n), a, b) == glyph('_'),
    decreases n,
{
    if n > 0 {
        lemma_dug_keeps_floor(g, d, (n - 1) as nat, a, b);
    }
}

/// Every new room after the first is joined to the floor that was there before: the room is all floor, and from one of its cells a
/// straight passage of floor `_` leads to a cell that was floor before the
/// room was built.
pub proof fn lemma_new_room_joined(
    g: GridView,
    r: GridView,
    max_x: int,
    max_y: int,
    rc: int,
    x: int,
    y: int,
    ox: int,
    oy: int,
    pick: int,
)
    requires
        room_placed(g, r, max_x, max_y, rc, x, y, ox, oy, pick),
        1 <= rc <= 5,
        covers(g, max_x, max_y),
        max_x <= usize::MAX,
        max_y <= usize::MAX,
    ensures
        forall|a: int, b: int| in_room(a, b, x, y, ox, oy) ==> #[trigger] at(r, a, b) == glyph('_'),
        ({
            let d = doors_upto(carved(g, max_x, max_y, x, y, ox, oy), ox, oy, y, x as nat)[pick];
            let dy = d.direction_y as int;
            let dx = d.direction_x as int;
            let n = tunnel_len(carved(g, max_x, max_y, x, y, ox, oy), d.y as int, d.x as int, dy, dx);
            &&& in_room(d.y as int, d.x as int, x, y, ox, oy)
            &&& n >= 1
            &&& at(g, d.y + step(dy, n), d.x + step(dx, n)) == glyph('_')
            &&& forall|j: int| 0 <= j <= n ==> #[trigger] at(r, d.y + step(dy, j), d.x + step(dx, j)) == glyph('_')
        }),
{
    let c = carved(g, max_x, max_y, x, y, ox, oy);
    let doors = doors_upto(c, ox, oy, y, x as nat);
    lemma_carved_shape(g, max_x, max_y, x, y, ox, oy);
    assert forall|row: int| 0 <= row < max_y implies #[trigger] c[row].len() >= max_x by {
        assert(g[row].len() >= max_x);
    }
    lemma_room_doors(c, max_x, max_y, x, y, ox, oy, x as nat);
    let d = doors[pick];
    assert(room_door(c, d, x, y, ox, oy));
    let dy = d.direction_y as int;
    let dx = d.direction_x as int;
    let n = tunnel_len(c, d.y as int, d.x as int, dy, dx);
    let m = (n - 1) as nat;
    assert(r == tunnel(c, d));
    // the room itself is floor in the carved grid, and digging keeps it so
    assert forall|a: int, b: int| in_room(a, b, x, y, ox, oy) implies #[trigger] at(r, a, b) == glyph('_') by {
        assert(g[a].len() >= max_x);
        assert(at(c, a, b) == glyph('_'));
        lemma_dug_keeps_floor(c, d, m, a, b);
    }
    // the first step lands on the marker, so it leaves the room, and so do all further steps
    assert(!in_room(d.y + step(dy, 1), d.x + step(dx, 1), x, y, ox, oy)) by {
        if in_room(d.y + step(dy, 1), d.x + step(dx, 1), x, y, ox, oy) {
            assert(g[d.y + step(dy, 1)].len() >= max_x);
        }
    }
    let ey = d.y + step(dy, n);
    let ex = d.x + step(dx, n);
    assert(!in_room(ey, ex, x, y, ox, oy));
    assert(in_grid(c, ey, ex));
    assert(at(g, ey, ex) == glyph('_')) by {
        lemma_same_shape_in_grid(g, c, ey, ex);
        assert(c[ey][ex] == glyph('_'));
    }
    lemma_tunnel_is_clear(c, d);
    assert forall|j: int| 0 <= j <= n implies #[trigger] at(r, d.y + step(dy, j), d.x + step(dx, j)) == glyph('_') by {
        if j == 0 {
            assert(at(r, d.y as int, d.x as int) == glyph('_'));
        }
    }
}

/// The first room is joined to the water source: the source `^` sits in row 0
/// of the shaft column `ox + pick`, every cell of that column from row 1 down
/// to the row above the room is floor `_`, the column meets the room's top row,
/// and the whole room is floor.
pub proof fn lemma_first_room_reaches_source(
    g: GridView,
    r: GridView,
    max_x: int,
    max_y: int,
    x: int,
    y: int,
    ox: int,
    oy: int,
    pick: int,
)
    requires
        room_placed(g, r, max_x, max_y, 0, x, y, ox, oy, pick),
        covers(g, max_x, max_y),
    ensures
        at(r, 0, ox + pick) == glyph('^'),
        forall|row: int| 1 <= row < oy ==> #[trigger] at(r, row, ox + pick) == glyph('_'),
        in_room(oy, ox + pick, x, y, ox, oy),
        forall|a: int, b: int| in_room(a, b, x, y, ox, oy) ==> #[trigger] at(r, a, b) == glyph('_'),
{
    let col = ox + pick;
    let c = carved(g, max_x, max_y, x, y, ox, oy);
    lemma_carved_shape(g, max_x, max_y, x, y, ox, oy);
    assert(g[0].len() >= max_x);
    assert forall|row: int| 1 <= row < oy implies #[trigger] at(r, row, col) == glyph('_') by {
        assert(g[row].len() >= max_x);
    }
    assert forall|a: int, b: int| in_room(a, b, x, y, ox, oy) implies #[trigger] at(r, a, b) == glyph('_') by {
        assert(g[a].len() >= max_x);
    }
}

/// A room built after the first never touches floor that was there: no cell
/// of the room, nor of the ring of cells around it, was floor `_` before.
pub proof fn lemma_later_room_has_wall_ring(
    g: GridView,
    r: GridView,
    max_x: int,
    max_y: int,
    rc: int,
    x: int,
    y: int,
    ox: int,
    oy: int,
    pick: int,
)
    requires
        room_placed(g, r, max_x, max_y, rc, x, y, ox, oy, pick),
        rc != 0,
    ensures
        forall|a: int, b: int| oy - 1 <= a <= oy + y && ox - 1 <= b <= ox + x ==> #[trigger] at(g, a, b) != glyph('_'),
{
}

/// A direction found by `can_connect` points through a crossing marker `E`
/// right next to the floor cell, to floor further along the same line: up,
/// left or right, never down; `(0, 0)` where there is none.
pub proof fn lemma_connect_dir_reaches_floor(g: GridView, y: int, x: int)
    ensures
        ({
            let (dx, dy) = connect_dir(g, y, x);
            &&& (dx == 0 && dy == 0) || (dx == 0 && dy == -1) || (dx == -1 && dy == 0) || (dx == 1 && dy == 0)
            &&& !(dx == 0 && dy == 0) ==> {
                &&& at(g, y, x) == glyph('_')
                &&& at(g, y + dy, x + dx) == glyph('E')
                &&& exists|k: int| 2 <= k && #[trigger] at(g, y + step(dy, k), x + step(dx, k)) == glyph('_')
            }
        }),
{
    let (dx, dy) = connect_dir(g, y, x);
    if !(dx == 0 && dy == 0) {
        if connects_up(g, y, x) {
            let r = lemma_up_witness(g, x, y - 1);
            assert(at(g, y + step(dy, y - r), x + step(dx, y - r)) == glyph('_'));
        } else if connects_left(g, y, x) {
            let c = lemma_left_witness(g, y, x - 1);
            assert(at(g, y + step(dy, x - c), x + step(dx, x - c)) == glyph('_'));
        } else {
            let c = lemma_right_witness(g, y, x + 1);
            assert(at(g, y + step(dy, c - x), x + step(dx, c - x)) == glyph('_'));
        }
    }
}

} // verus!
