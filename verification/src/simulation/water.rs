//! How water moves: one tick of the flow over the whole grid.
//!
//! `0` is a droplet, `(` and `)` water flowing left and right, `W` water that
//! has come to rest (it counts as a wall from then on). A cell outside the grid
//! reads as a wall `#`.
use vstd::prelude::*;
use crate::simulation::grid::{
    GridView, glyph, gview, in_grid, at, put, same_shape, covers, row_len, row_width, look, look_is,
    write_cell, lemma_glyph_injective, lemma_inside_unless_wall, lemma_put_at, lemma_put_shape,
    lemma_same_shape_in_grid, lemma_same_shape_trans,
};
use crate::simulation::cell::{is_water_spec, is_wall_spec, str_is_water, str_is_wall};
use crate::simulation::random::random_in;

verus! {

broadcast use lemma_glyph_injective, lemma_inside_unless_wall, lemma_put_at, lemma_put_shape;

// ---------------------------------------------------------------------------
// Looking sideways for somewhere deeper

/// Scanning left from column `x` of row `y`, from `l` cells away on, up to the
/// first wall: whether some cell passed has a floor `_` below it.
pub open spec fn left_finds(g: GridView, y: int, x: int, l: int) -> bool
    decreases x + 1 - l,
{
    if l > x || is_wall_spec(at(g, y, x - l)) {
        false
    } else {
        at(g, y + 1, x - l) == glyph('_') || left_finds(g, y, x, l + 1)
    }
}

/// Scanning right from column `x` of row `y`, from `r` cells away on, up to the
/// first wall, the end of the row or column `max_x`: whether some cell passed
/// has a floor `_` below it.
pub open spec fn right_finds(g: GridView, max_x: int, y: int, x: int, r: int) -> bool
    decreases row_len(g, y) - x - r,
{
    if x + r >= row_len(g, y) || x + r >= max_x || is_wall_spec(at(g, y, x + r)) {
        false
    } else {
        at(g, y + 1, x + r) == glyph('_') || right_finds(g, max_x, y, x, r + 1)
    }
}

/// Where water at (`y`, `x`) could fall deeper: `1` to the right, `-1` to the
/// left, `0` on neither side.
pub open spec fn side_spec(g: GridView, max_x: int, y: int, x: int) -> i32 {
    if right_finds(g, max_x, y, x, 1) {
        1
    } else if left_finds(g, y, x, 1) {
        -1i32
    } else {
        0
    }
}

/// Scanning left from `l` cells away finds floor below exactly where some cell
/// `k >= l` cells to the left has floor `_` right below it and every cell from
/// `l` to `k` cells away is open (no wall).
proof fn lemma_left_finds_exists(g: GridView, y: int, x: int, l: int)
    requires
        1 <= l,
    ensures
        left_finds(g, y, x, l) <==> exists|k: int|
            l <= k <= x && #[trigger] at(g, y + 1, x - k) == glyph('_') && forall|j: int|
                l <= j <= k ==> !is_wall_spec(#[trigger] at(g, y, x - j)),
    decreases x + 1 - l,
{
    if l > x {
    } else if is_wall_spec(at(g, y, x - l)) {
        if exists|k: int|
            l <= k <= x && #[trigger] at(g, y + 1, x - k) == glyph('_') && forall|j: int|
                l <= j <= k ==> !is_wall_spec(#[trigger] at(g, y, x - j)) {
            let k = choose|k: int|
                l <= k <= x && #[trigger] at(g, y + 1, x - k) == glyph('_') && forall|j: int|
                    l <= j <= k ==> !is_wall_spec(#[trigger] at(g, y, x - j));
            assert(!is_wall_spec(at(g, y, x - l)));
        }
    } else {
        lemma_left_finds_exists(g, y, x, l + 1);
        if left_finds(g, y, x, l) {
            if at(g, y + 1, x - l) == glyph('_') {
                assert(forall|j: int| l <= j <= l ==> !is_wall_spec(#[trigger] at(g, y, x - j)));
            } else {
                let k = choose|k: int|
                    l + 1 <= k <= x && #[trigger] at(g, y + 1, x - k) == glyph('_') && forall|j: int|
                        l + 1 <= j <= k ==> !is_wall_spec(#[trigger] at(g, y, x - j));
                assert(forall|j: int| l <= j <= k ==> !is_wall_spec(#[trigger] at(g, y, x - j)));
            }
        }
        if exists|k: int|
            l <= k <= x && #[trigger] at(g, y + 1, x - k) == glyph('_') && forall|j: int|
                l <= j <= k ==> !is_wall_spec(#[trigger] at(g, y, x - j)) {
            let k = choose|k: int|
                l <= k <= x && #[trigger] at(g, y + 1, x - k) == glyph('_') && forall|j: int|
                    l <= j <= k ==> !is_wall_spec(#[trigger] at(g, y, x - j));
            if k > l {
                assert(forall|j: int| l + 1 <= j <= k ==> !is_wall_spec(#[trigger] at(g, y, x - j)));
            }
        }
    }
}

/// Scanning right from `r` cells away finds floor below exactly where some
/// cell `k >= r` cells to the right, inside the row and left of column
/// `max_x`, has floor `_` right below it and every cell from `r` to `k` cells
/// away is open (no wall).
proof fn lemma_right_finds_exists(g: GridView, max_x: int, y: int, x: int, r: int)
    requires
        1 <= r,
    ensures
        right_finds(g, max_x, y, x, r) <==> exists|k: int|
            r <= k && x + k < max_x && x + k < row_len(g, y) && #[trigger] at(g, y + 1, x + k) == glyph('_')
                && forall|j: int| r <= j <= k ==> !is_wall_spec(#[trigger] at(g, y, x + j)),
    decreases row_len(g, y) - x - r,
{
    if x + r >= row_len(g, y) || x + r >= max_x {
    } else if is_wall_spec(at(g, y, x + r)) {
        if exists|k: int|
            r <= k && x + k < max_x && x + k < row_len(g, y) && #[trigger] at(g, y + 1, x + k) == glyph('_')
                && forall|j: int| r <= j <= k ==> !is_wall_spec(#[trigger] at(g, y, x + j)) {
            let k = choose|k: int|
                r <= k && x + k < max_x && x + k < row_len(g, y) && #[trigger] at(g, y + 1, x + k) == glyph('_')
                    && forall|j: int| r <= j <= k ==> !is_wall_spec(#[trigger] at(g, y, x + j));
            assert(!is_wall_spec(at(g, y, x + r)));
        }
    } else {
        lemma_right_finds_exists(g, max_x, y, x, r + 1);
        if right_finds(g, max_x, y, x, r) {
            if at(g, y + 1, x + r) == glyph('_') {
                assert(forall|j: int| r <= j <= r ==> !is_wall_spec(#[trigger] at(g, y, x + j)));
            } else {
                let k = choose|k: int|
                    r + 1 <= k && x + k < max_x && x + k < row_len(g, y) && #[trigger] at(g, y + 1, x + k)
                        == glyph('_') && forall|j: int| r + 1 <= j <= k ==> !is_wall_spec(#[trigger] at(g, y, x + j));
                assert(forall|j: int| r <= j <= k ==> !is_wall_spec(#[trigger] at(g, y, x + j)));
            }
        }
        if exists|k: int|
            r <= k && x + k < max_x && x + k < row_len(g, y) && #[trigger] at(g, y + 1, x + k) == glyph('_')
                && forall|j: int| r <= j <= k ==> !is_wall_spec(#[trigger] at(g, y, x + j)) {
            let k = choose|k: int|
                r <= k && x + k < max_x && x + k < row_len(g, y) && #[trigger] at(g, y + 1, x + k) == glyph('_')
                    && forall|j: int| r <= j <= k ==> !is_wall_spec(#[trigger] at(g, y, x + j));
            if k > r {
                assert(forall|j: int| r + 1 <= j <= k ==> !is_wall_spec(#[trigger] at(g, y, x + j)));
            }
        }
    }
}

/// Which way water at (`y`, `x`) can fall deeper, by where floor lies: `1`
/// exactly where, to its right and left of column `max_x`, some cell with floor
/// `_` right below it is reached before any wall; otherwise `-1` exactly where
/// such a cell lies to its left before any wall; otherwise `0`. A wall ends the
/// search on its side: floor beyond it is never reported.
pub proof fn lemma_side_is_open_deeper_floor(g: GridView, max_x: int, y: int, x: int)
    ensures
        side_spec(g, max_x, y, x) == 1 || side_spec(g, max_x, y, x) == 0 || side_spec(g, max_x, y, x) == -1,
        (side_spec(g, max_x, y, x) == 1) <==> exists|k: int|
            1 <= k && x + k < max_x && x + k < row_len(g, y) && #[trigger] at(g, y + 1, x + k) == glyph('_')
                && forall|j: int| 1 <= j <= k ==> !is_wall_spec(#[trigger] at(g, y, x + j)),
        (side_spec(g, max_x, y, x) == -1) <==> !(exists|k: int|
            1 <= k && x + k < max_x && x + k < row_len(g, y) && #[trigger] at(g, y + 1, x + k) == glyph('_')
                && forall|j: int| 1 <= j <= k ==> !is_wall_spec(#[trigger] at(g, y, x + j))) && exists|k: int|
            1 <= k <= x && #[trigger] at(g, y + 1, x - k) == glyph('_') && forall|j: int|
                1 <= j <= k ==> !is_wall_spec(#[trigger] at(g, y, x - j)),
{
    lemma_left_finds_exists(g, y, x, 1);
    lemma_right_finds_exists(g, max_x, y, x, 1);
}

/// the function checks if there's a way to flow somewhere deeper on either side.
/// returns: -1 = left; 1 = right; 0 = neither, the surface is flat or walls are really close;
/// The left scan goes on to the first wall; the right scan stops at the first
/// wall or at column `max_grid_x`, the edge of the window, whichever comes first.
pub fn check_side(grid: &Vec<Vec<String>>, max_grid_x: usize, target_x: usize, target_y: usize) -> (r: i32)
    requires
        in_grid(gview(grid), target_y as int, target_x as int),
    ensures
        r == side_spec(gview(grid), max_grid_x as int, target_y as int, target_x as int),
        (r == 1) <==> exists|k: int|
            1 <= k && target_x + k < max_grid_x && target_x + k < row_len(gview(grid), target_y as int)
                && #[trigger] at(gview(grid), target_y + 1, target_x + k) == glyph('_') && forall|j: int|
                1 <= j <= k ==> !is_wall_spec(#[trigger] at(gview(grid), target_y as int, target_x + j)),
        r == -1 ==> exists|k: int|
            1 <= k <= target_x && #[trigger] at(gview(grid), target_y + 1, target_x - k) == glyph('_') && forall|j: int|
                1 <= j <= k ==> !is_wall_spec(#[trigger] at(gview(grid), target_y as int, target_x - j)),
{
    proof {
        lemma_side_is_open_deeper_floor(gview(grid), max_grid_x as int, target_y as int, target_x as int);
    }
    let ghost g = gview(grid);
    let ghost y = target_y as int;
    let ghost x = target_x as int;
    let width = row_width(grid, target_y);
    let mut dir: i32 = 0;
    let mut left: usize = 0;
    loop
        invariant_except_break
            left <= target_x,
            dir == 0 || dir == -1,
            left_finds(g, y, x, 1) == (dir == -1 || left_finds(g, y, x, left + 1)),
        invariant
            g == gview(grid),
            x == target_x,
            y == target_y,
            in_grid(g, y, x),
            width == row_len(g, y),
            x < width,
        ensures
            dir == 0 || dir == -1,
            left_finds(g, y, x, 1) == (dir == -1),
        decreases target_x + 1 - left,
    {
        left += 1;
        if left > target_x || str_is_wall(look(grid, target_y, target_x - left, 0, 0)) {
            break;
        }
        if look_is(grid, target_y, target_x - left, 1, 0, '_') {
            dir = -1;
        }
    }
    let ghost found_left = dir == -1;
    let mut right: usize = 0;
    loop
        invariant_except_break
            right < width - x,
            dir != 1 ==> right_finds(g, max_grid_x as int, y, x, 1) == right_finds(
                g,
                max_grid_x as int,
                y,
                x,
                right + 1,
            ),
        invariant
            g == gview(grid),
            x == target_x,
            y == target_y,
            in_grid(g, y, x),
            width == row_len(g, y),
            x < width,
            found_left == left_finds(g, y, x, 1),
            dir == 1 || dir == 0 || dir == -1,
            dir == 1 || (dir == -1) == found_left,
            dir == 1 ==> right_finds(g, max_grid_x as int, y, x, 1),
        ensures
            dir == side_spec(g, max_grid_x as int, y, x),
        decreases width - target_x - right,
    {
        right += 1;
        if right >= width - target_x || target_x + right >= max_grid_x {
            break;
        }
        if str_is_wall(look(grid, target_y, target_x + right, 0, 0)) {
            break;
        }
        if look_is(grid, target_y, target_x + right, 1, 0, '_') {
            dir = 1;
        }
    }
    dir
}

// ---------------------------------------------------------------------------
// Choosing a direction to flow

/// Whether the flow direction at (`y`, `x`) is left to chance: nowhere deeper
/// on either side, and floor on both sides or on neither.
pub open spec fn flow_by_chance(g: GridView, max_x: int, y: int, x: int) -> bool {
    let f = glyph('_');
    &&& side_spec(g, max_x, y, x) == 0
    &&& !(at(g, y, x + 1) == f && at(g, y, x - 1) != f)
    &&& !(at(g, y, x + 1) != f && at(g, y, x - 1) == f)
}

/// The direction water at (`y`, `x`) flows in, right `1` or left `-1`, given
/// the chance draw `coin` (`0` for left) where the direction is left to chance;
/// `0` where it is left to chance and both sides hold droplets.
pub open spec fn flow_dir_spec(g: GridView, max_x: int, y: int, x: int, coin: int) -> i32 {
    let f = glyph('_');
    if side_spec(g, max_x, y, x) != 0 {
        side_spec(g, max_x, y, x)
    } else if at(g, y, x + 1) == f && at(g, y, x - 1) != f {
        1
    } else if at(g, y, x + 1) != f && at(g, y, x - 1) == f {
        -1i32
    } else if at(g, y, x + 1) == glyph('0') && at(g, y, x - 1) == glyph('0') {
        0
    } else if coin == 0 {
        -1i32
    } else {
        1
    }
}

/// The direction chosen by chance at (`target_y`, `target_x`), from a draw of
/// `0` (left) or `1` (right): none where both sides hold droplets.
pub fn coin_flow(grid: &Vec<Vec<String>>, target_x: usize, target_y: usize, draw: usize) -> (r: i32)
    requires
        draw <= 1,
    ensures
        r == if at(gview(grid), target_y as int, target_x + 1) == glyph('0') && at(
            gview(grid),
            target_y as int,
            target_x - 1,
        ) == glyph('0') {
            0i32
        } else if draw == 0 {
            -1i32
        } else {
            1i32
        },
{
    let mut random_flow: i32 = if draw == 0 {
        -1
    } else {
        1
    };
    if look_is(grid, target_y, target_x, 0, 1, '0') && look_is(grid, target_y, target_x, 0, -1, '0') {
        random_flow = 0;
    }
    random_flow
}

/// the function returns a direction for water to flow, right is 1 and left is -1
/// option 1: if empty space to both sides of the flow point and the surface is flat, choose randomly
/// option 2: if empty space to both sides of the flow point and the surface is uneven, choose the direction where the water would be able to fall deeper
/// option 3: if only one side is empty, then flow to that side
fn flow_direction(grid: &Vec<Vec<String>>, max_grid_x: usize, target_x: usize, target_y: usize) -> (r: i32)
    requires
        in_grid(gview(grid), target_y as int, target_x as int),
    ensures
        r == flow_dir_spec(gview(grid), max_grid_x as int, target_y as int, target_x as int, 0)
            || r == flow_dir_spec(gview(grid), max_grid_x as int, target_y as int, target_x as int, 1),
        !flow_by_chance(gview(grid), max_grid_x as int, target_y as int, target_x as int) ==> r
            == flow_dir_spec(gview(grid), max_grid_x as int, target_y as int, target_x as int, 0),
{
    let side = check_side(grid, max_grid_x, target_x, target_y);
    if side != 0 {
        return side;
    }
    if look_is(grid, target_y, target_x, 0, 1, '_') && !look_is(grid, target_y, target_x, 0, -1, '_') {
        return 1;
    }
    if !look_is(grid, target_y, target_x, 0, 1, '_') {
        if look_is(grid, target_y, target_x, 0, -1, '_') {
            return -1;
        }
    }
    let draw = random_in(0, 1);
    coin_flow(grid, target_x, target_y, draw)
}

// ---------------------------------------------------------------------------
// What happens at one cell

/// The left-to-right pass at (`y`, `x`): water flowing left `(` moves onto
/// floor `_` to its left, and comes to rest as `W` against a wall or a droplet.
pub open spec fn left_step(g: GridView, y: int, x: int) -> GridView {
    if at(g, y, x) == glyph('(') {
        let g1 = if at(g, y, x - 1) == glyph('_') {
            put(put(g, y, x, glyph('_')), y, x - 1, glyph('('))
        } else {
            g
        };
        if is_wall_spec(at(g1, y, x - 1)) || at(g1, y, x - 1) == glyph('0') {
            put(g1, y, x, glyph('W'))
        } else {
            g1
        }
    } else {
        g
    }
}

/// Water at (`y`, `x`) falls as a droplet onto floor `_` right below it.
pub open spec fn fall(g: GridView, y: int, x: int) -> GridView {
    if at(g, y + 1, x) == glyph('_') {
        put(put(g, y, x, glyph('_')), y + 1, x, glyph('0'))
    } else {
        g
    }
}

/// Water flowing right `)` at (`y`, `x`) moves onto floor `_` to its right,
/// and comes to rest as `W` against a wall or a droplet.
pub open spec fn slide_right(g: GridView, y: int, x: int) -> GridView {
    if at(g, y, x) == glyph(')') {
        let g1 = if at(g, y, x + 1) == glyph('_') {
            put(put(g, y, x, glyph('_')), y, x + 1, glyph(')'))
        } else {
            g
        };
        if is_wall_spec(at(g1, y, x + 1)) || at(g1, y, x + 1) == glyph('0') {
            put(g1, y, x, glyph('W'))
        } else {
            g1
        }
    } else {
        g
    }
}

/// A droplet at (`y`, `x`) that comes to rest beside one wall: nothing falls
/// onto it, and it is not under a floor cell walled in on both sides.
pub open spec fn rests_by_wall(g: GridView, y: int, x: int) -> bool {
    &&& at(g, y - 1, x) != glyph('0')
    &&& is_wall_spec(at(g, y, x - 1)) || is_wall_spec(at(g, y, x + 1))
    &&& at(g, y, x) == glyph('0')
    &&& !(at(g, y - 1, x) == glyph('_') && at(g, y - 1, x - 1) == glyph('#') && at(g, y - 1, x + 1)
        == glyph('#'))
}

/// Water at (`y`, `x`) standing on a wall: between two walls it comes to rest
/// under a droplet (or as a droplet); otherwise a droplet may come to rest by
/// a wall, and a droplet not held between droplets spreads sideways in the
/// direction `flow_dir_spec` gives for the draw `coin`.
pub open spec fn settle(g: GridView, max_x: int, y: int, x: int, coin: int) -> GridView {
    if is_wall_spec(at(g, y + 1, x)) {
        if is_wall_spec(at(g, y, x - 1)) && is_wall_spec(at(g, y, x + 1)) {
            if at(g, y - 1, x) == glyph('0') || at(g, y, x) == glyph('0') {
                put(g, y, x, glyph('W'))
            } else {
                g
            }
        } else {
            let g3 = if rests_by_wall(g, y, x) {
                put(g, y, x, glyph('W'))
            } else {
                g
            };
            let fd = flow_dir_spec(g3, max_x, y, x, coin);
            if at(g3, y, x) == glyph('0') && (at(g3, y, x - 1) != glyph('0') || at(g3, y, x + 1)
                != glyph('0')) {
                let g4 = put(g3, y, x, glyph('_'));
                let g5 = if fd == 1 {
                    put(g4, y, x + 1, glyph(')'))
                } else {
                    g4
                };
                if fd == -1 {
                    put(g5, y, x - 1, glyph('('))
                } else {
                    g5
                }
            } else {
                g3
            }
        }
    } else {
        g
    }
}

/// The right-to-left pass at (`y`, `x`): moving water falls, flows right, and
/// settles or spreads.
pub open spec fn right_step(g: GridView, max_x: int, y: int, x: int, coin: int) -> GridView {
    if is_water_spec(at(g, y, x)) {
        settle(slide_right(fall(g, y, x), y, x), max_x, y, x, coin)
    } else {
        g
    }
}

// ---------------------------------------------------------------------------
// One tick over the whole grid

/// The left-to-right pass over the first `n` cells of row `y`.
pub open spec fn left_pass(g: GridView, y: int, n: nat) -> GridView
    decreases n,
{
    if n == 0 {
        g
    } else {
        left_step(left_pass(g, y, (n - 1) as nat), y, n - 1)
    }
}

/// The right-to-left pass over the last `n` of the first `max_x` cells of row
/// `y`, with the draw `coins(y, x)` at cell (`y`, `x`).
pub open spec fn right_pass(
    g: GridView,
    max_x: int,
    y: int,
    n: nat,
    coins: spec_fn(int, int) -> int,
) -> GridView
    decreases n,
{
    if n == 0 {
        g
    } else {
        let x = max_x - n;
        right_step(right_pass(g, max_x, y, (n - 1) as nat, coins), max_x, y, x, coins(y, x))
    }
}

/// Both passes over row `y`.
pub open spec fn row_pass(g: GridView, max_x: int, y: int, coins: spec_fn(int, int) -> int) -> GridView {
    right_pass(left_pass(g, y, max_x as nat), max_x, y, max_x as nat, coins)
}

/// The rows `max_y - 1` up to `max_y - n`, bottom first.
pub open spec fn sweep(
    g: GridView,
    max_x: int,
    max_y: int,
    n: nat,
    coins: spec_fn(int, int) -> int,
) -> GridView
    decreases n,
{
    if n == 0 {
        g
    } else {
        row_pass(sweep(g, max_x, max_y, (n - 1) as nat, coins), max_x, max_y - n, coins)
    }
}

/// One tick of water over the window `max_x` by `max_y`, with the draws `coins`.
pub open spec fn water_tick(g: GridView, max_x: int, max_y: int, coins: spec_fn(int, int) -> int) -> GridView {
    sweep(g, max_x, max_y, max_y as nat, coins)
}

// ---------------------------------------------------------------------------
// The passes, cell by cell

fn left_cell(grid: &mut Vec<Vec<String>>, y: usize, x: usize)
    requires
        in_grid(gview(old(grid)), y as int, x as int),
    ensures
        gview(final(grid)) == left_step(gview(old(grid)), y as int, x as int),
{
    if look_is(grid, y, x, 0, 0, '(') {
        if look_is(grid, y, x, 0, -1, '_') {
            write_cell(grid, y, x, '_');
            write_cell(grid, y, x - 1, '(');
        }
        if str_is_wall(look(grid, y, x, 0, -1)) || look_is(grid, y, x, 0, -1, '0') {
            write_cell(grid, y, x, 'W');
        }
    }
}

fn fall_cell(grid: &mut Vec<Vec<String>>, y: usize, x: usize)
    requires
        in_grid(gview(old(grid)), y as int, x as int),
    ensures
        gview(final(grid)) == fall(gview(old(grid)), y as int, x as int),
{
    if look_is(grid, y, x, 1, 0, '_') {
        write_cell(grid, y, x, '_');
        write_cell(grid, y + 1, x, '0');
    }
}

fn slide_right_cell(grid: &mut Vec<Vec<String>>, y: usize, x: usize)
    requires
        in_grid(gview(old(grid)), y as int, x as int),
    ensures
        gview(final(grid)) == slide_right(gview(old(grid)), y as int, x as int),
{
    if look_is(grid, y, x, 0, 0, ')') {
        if look_is(grid, y, x, 0, 1, '_') {
            write_cell(grid, y, x, '_');
            write_cell(grid, y, x + 1, ')');
        }
        if str_is_wall(look(grid, y, x, 0, 1)) || look_is(grid, y, x, 0, 1, '0') {
            write_cell(grid, y, x, 'W');
        }
    }
}

fn settle_cell(grid: &mut Vec<Vec<String>>, max_grid_x: usize, y: usize, x: usize) -> (coin: Ghost<int>)
    requires
        in_grid(gview(old(grid)), y as int, x as int),
    ensures
        gview(final(grid)) == settle(gview(old(grid)), max_grid_x as int, y as int, x as int, coin@),
{
    let ghost g = gview(grid);
    if str_is_wall(look(grid, y, x, 1, 0)) {
        if str_is_wall(look(grid, y, x, 0, -1)) && str_is_wall(look(grid, y, x, 0, 1)) {
            if look_is(grid, y, x, -1, 0, '0') || look_is(grid, y, x, 0, 0, '0') {
                write_cell(grid, y, x, 'W');
            }
            Ghost(0)
        } else {
            if !look_is(grid, y, x, -1, 0, '0') && (str_is_wall(look(grid, y, x, 0, -1)) || str_is_wall(
                look(grid, y, x, 0, 1),
            )) {
                if look_is(grid, y, x, 0, 0, '0') && !(look_is(grid, y, x, -1, 0, '_') && look_is(
                    grid,
                    y,
                    x,
                    -1,
                    -1,
                    '#',
                ) && look_is(grid, y, x, -1, 1, '#')) {
                    write_cell(grid, y, x, 'W');
                }
            }
            let ghost g3 = gview(grid);
            assert(g3 == if rests_by_wall(g, y as int, x as int) {
                put(g, y as int, x as int, glyph('W'))
            } else {
                g
            });
            let flow_dir = flow_direction(grid, max_grid_x, x, y);
            let ghost coin: int = if flow_dir == flow_dir_spec(g3, max_grid_x as int, y as int, x as int, 0) {
                0
            } else {
                1
            };
            if look_is(grid, y, x, 0, 0, '0') && (!look_is(grid, y, x, 0, -1, '0') || !look_is(
                grid,
                y,
                x,
                0,
                1,
                '0',
            )) {
                write_cell(grid, y, x, '_');
                if flow_dir == 1 {
                    let w = row_width(grid, y);
                    if x + 1 < w {
                        write_cell(grid, y, x + 1, ')');
                    }
                }
                if flow_dir == -1 {
                    if x >= 1 {
                        write_cell(grid, y, x - 1, '(');
                    }
                }
            }
            Ghost(coin)
        }
    } else {
        Ghost(0)
    }
}

fn right_cell(grid: &mut Vec<Vec<String>>, max_grid_x: usize, y: usize, x: usize) -> (coin: Ghost<int>)
    requires
        in_grid(gview(old(grid)), y as int, x as int),
    ensures
        gview(final(grid)) == right_step(gview(old(grid)), max_grid_x as int, y as int, x as int, coin@),
{
    if str_is_water(look(grid, y, x, 0, 0)) {
        fall_cell(grid, y, x);
        slide_right_cell(grid, y, x);
        settle_cell(grid, max_grid_x, y, x)
    } else {
        Ghost(0)
    }
}

// ---------------------------------------------------------------------------
// Facts about the passes

/// The right-to-left pass over row `y` reads the draws of that row's last `n` cells only.
proof fn lemma_right_pass_coins(
    g: GridView,
    max_x: int,
    y: int,
    n: nat,
    c1: spec_fn(int, int) -> int,
    c2: spec_fn(int, int) -> int,
)
    requires
        forall|x: int| max_x - n <= x < max_x ==> #[trigger] c1(y, x) == c2(y, x),
    ensures
        right_pass(g, max_x, y, n, c1) == right_pass(g, max_x, y, n, c2),
    decreases n,
{
    if n > 0 {
        lemma_right_pass_coins(g, max_x, y, (n - 1) as nat, c1, c2);
        assert(c1(y, max_x - n) == c2(y, max_x - n));
    }
}

/// The first `n` rows of the sweep read the draws of those rows only.
proof fn lemma_sweep_coins(
    g: GridView,
    max_x: int,
    max_y: int,
    n: nat,
    c1: spec_fn(int, int) -> int,
    c2: spec_fn(int, int) -> int,
)
    requires
        forall|y: int, x: int| max_y - n <= y < max_y ==> #[trigger] c1(y, x) == c2(y, x),
    ensures
        sweep(g, max_x, max_y, n, c1) == sweep(g, max_x, max_y, n, c2),
    decreases n,
{
    if n > 0 {
        lemma_sweep_coins(g, max_x, max_y, (n - 1) as nat, c1, c2);
        let h = sweep(g, max_x, max_y, (n - 1) as nat, c1);
        let y = max_y - n;
        lemma_right_pass_coins(left_pass(h, y, max_x as nat), max_x, y, max_x as nat, c1, c2);
    }
}

/// A step at one cell keeps the shape of the grid.
proof fn lemma_steps_shape(g: GridView, max_x: int, y: int, x: int, coin: int)
    ensures
        same_shape(g, left_step(g, y, x)),
        same_shape(g, right_step(g, max_x, y, x, coin)),
{
    let a = put(g, y, x, glyph('_'));
    lemma_same_shape_trans(g, a, put(a, y, x - 1, glyph('(')));
    lemma_same_shape_trans(g, a, put(a, y, x + 1, glyph(')')));
    lemma_same_shape_trans(g, a, put(a, y + 1, x, glyph('0')));
    let g1 = if at(g, y, x - 1) == glyph('_') {
        put(a, y, x - 1, glyph('('))
    } else {
        g
    };
    lemma_same_shape_trans(g, g1, put(g1, y, x, glyph('W')));
    let f = fall(g, y, x);
    let sa = put(f, y, x, glyph('_'));
    lemma_same_shape_trans(f, sa, put(sa, y, x + 1, glyph(')')));
    let s1 = if at(f, y, x + 1) == glyph('_') {
        put(sa, y, x + 1, glyph(')'))
    } else {
        f
    };
    lemma_same_shape_trans(f, s1, put(s1, y, x, glyph('W')));
    let sr = slide_right(f, y, x);
    lemma_same_shape_trans(g, f, sr);
    let g3 = if rests_by_wall(sr, y, x) {
        put(sr, y, x, glyph('W'))
    } else {
        sr
    };
    let g4 = put(g3, y, x, glyph('_'));
    let g5 = put(g4, y, x + 1, glyph(')'));
    lemma_same_shape_trans(g3, g4, g5);
    lemma_same_shape_trans(g3, g5, put(g5, y, x - 1, glyph('(')));
    lemma_same_shape_trans(g3, g4, put(g4, y, x - 1, glyph('(')));
    lemma_same_shape_trans(sr, g3, settle(sr, max_x, y, x, coin));
    lemma_same_shape_trans(g, sr, settle(sr, max_x, y, x, coin));
}

/// A tick keeps the shape of the grid.
pub proof fn lemma_sweep_shape(g: GridView, max_x: int, max_y: int, n: nat, coins: spec_fn(int, int) -> int)
    ensures
        same_shape(g, sweep(g, max_x, max_y, n, coins)),
    decreases n,
{
    if n > 0 {
        lemma_sweep_shape(g, max_x, max_y, (n - 1) as nat, coins);
        let h = sweep(g, max_x, max_y, (n - 1) as nat, coins);
        let y = max_y - n;
        lemma_left_pass_shape(h, y, max_x as nat);
        let l = left_pass(h, y, max_x as nat);
        lemma_right_pass_shape(l, max_x, y, max_x as nat, coins);
        lemma_same_shape_trans(h, l, row_pass(h, max_x, y, coins));
        lemma_same_shape_trans(g, h, row_pass(h, max_x, y, coins));
    }
}

proof fn lemma_left_pass_shape(g: GridView, y: int, n: nat)
    ensures
        same_shape(g, left_pass(g, y, n)),
    decreases n,
{
    if n > 0 {
        lemma_left_pass_shape(g, y, (n - 1) as nat);
        let h = left_pass(g, y, (n - 1) as nat);
        lemma_steps_shape(h, 0, y, n - 1, 0);
        lemma_same_shape_trans(g, h, left_step(h, y, n - 1));
    }
}

proof fn lemma_right_pass_shape(g: GridView, max_x: int, y: int, n: nat, coins: spec_fn(int, int) -> int)
    ensures
        same_shape(g, right_pass(g, max_x, y, n, coins)),
    decreases n,
{
    if n > 0 {
        lemma_right_pass_shape(g, max_x, y, (n - 1) as nat, coins);
        let h = right_pass(g, max_x, y, (n - 1) as nat, coins);
        let x = max_x - n;
        lemma_steps_shape(h, max_x, y, x, coins(y, x));
        lemma_same_shape_trans(g, h, right_step(h, max_x, y, x, coins(y, x)));
    }
}

// ---------------------------------------------------------------------------
// The tick

/// the most important thing, here all the logic of water flow happens.
/// Rows are taken bottom to top; in each row, water flowing left `(` moves
/// first, left to right, then all other water, right to left (see
/// `water_tick`). Where the flow direction is left to chance it is drawn at
/// random: the result is a tick for some draws.
pub fn move_water(grid: Vec<Vec<String>>, max_grid_x: usize, max_grid_y: usize) -> (r: Vec<Vec<String>>)
    requires
        covers(gview(&grid), max_grid_x as int, max_grid_y as int),
    ensures
        exists|coins: spec_fn(int, int) -> int|
            gview(&r) == water_tick(gview(&grid), max_grid_x as int, max_grid_y as int, coins),
{
    let ghost g0 = gview(&grid);
    let ghost mx = max_grid_x as int;
    let ghost my = max_grid_y as int;
    let ghost mut coins: spec_fn(int, int) -> int = |a: int, b: int| 0int;
    let mut grid = grid;
    for y_normal in 0..max_grid_y
        invariant
            mx == max_grid_x,
            my == max_grid_y,
            covers(g0, mx, my),
            same_shape(g0, gview(&grid)),
            gview(&grid) == sweep(g0, mx, my, y_normal as nat, coins),
    {
        let y = max_grid_y - y_normal - 1;
        let ghost row_start = gview(&grid);
        let ghost row_coins = coins;
        proof {
            lemma_same_shape_in_grid(g0, row_start, y as int, 0);
        }
        for x in 0..max_grid_x
            invariant
                mx == max_grid_x,
                my == max_grid_y,
                y < max_grid_y,
                covers(g0, mx, my),
                same_shape(g0, row_start),
                same_shape(g0, gview(&grid)),
                gview(&grid) == left_pass(row_start, y as int, x as nat),
        {
            proof {
                assert(g0[y as int].len() >= mx);
                lemma_same_shape_in_grid(g0, gview(&grid), y as int, x as int);
            }
            let ghost before = gview(&grid);
            left_cell(&mut grid, y, x);
            proof {
                lemma_steps_shape(before, 0, y as int, x as int, 0);
                lemma_same_shape_trans(g0, before, gview(&grid));
            }
        }
        let ghost mid = gview(&grid);
        for x_normal in 0..max_grid_x
            invariant
                mx == max_grid_x,
                my == max_grid_y,
                y < max_grid_y,
                y == my - y_normal - 1,
                covers(g0, mx, my),
                same_shape(g0, gview(&grid)),
                gview(&grid) == right_pass(mid, mx, y as int, x_normal as nat, coins),
                forall|a: int, b: int| a != y ==> #[trigger] coins(a, b) == row_coins(a, b),
        {
            let x = max_grid_x - x_normal - 1;
            proof {
                assert(g0[y as int].len() >= mx);
                lemma_same_shape_in_grid(g0, gview(&grid), y as int, x as int);
            }
            let ghost before = gview(&grid);
            let c = right_cell(&mut grid, max_grid_x, y, x);
            proof {
                lemma_steps_shape(before, mx, y as int, x as int, c@);
                lemma_same_shape_trans(g0, before, gview(&grid));
                let old_coins = coins;
                let yy = y as int;
                let xx = x as int;
                let cv = c@;
                coins = |a: int, b: int| if a == yy && b == xx { cv } else { old_coins(a, b) };
                lemma_right_pass_coins(mid, mx, yy, x_normal as nat, old_coins, coins);
            }
        }
        proof {
            lemma_sweep_coins(g0, mx, my, y_normal as nat, row_coins, coins);
        }
    }
    assert(gview(&grid) == water_tick(g0, mx, my, coins));
    grid
}

// ---------------------------------------------------------------------------
// Laws

/// A grid without moving water.
pub open spec fn is_dry(g: GridView) -> bool {
    forall|y: int, x: int| !is_water_spec(#[trigger] at(g, y, x))
}

proof fn lemma_dry_left_pass(g: GridView, y: int, n: nat)
    requires
        is_dry(g),
    ensures
        left_pass(g, y, n) == g,
    decreases n,
{
    if n > 0 {
        lemma_dry_left_pass(g, y, (n - 1) as nat);
        assert(!is_water_spec(at(g, y, n - 1)));
    }
}

proof fn lemma_dry_right_pass(g: GridView, max_x: int, y: int, n: nat, coins: spec_fn(int, int) -> int)
    requires
        is_dry(g),
    ensures
        right_pass(g, max_x, y, n, coins) == g,
    decreases n,
{
    if n > 0 {
        lemma_dry_right_pass(g, max_x, y, (n - 1) as nat, coins);
        assert(!is_water_spec(at(g, y, max_x - n)));
    }
}

/// Where there is no moving water, a tick changes nothing, whatever the draws.
pub proof fn lemma_dry_grid_stays(g: GridView, max_x: int, max_y: int, n: nat, coins: spec_fn(int, int) -> int)
    requires
        is_dry(g),
    ensures
        sweep(g, max_x, max_y, n, coins) == g,
    decreases n,
{
    if n > 0 {
        lemma_dry_grid_stays(g, max_x, max_y, (n - 1) as nat, coins);
        lemma_dry_left_pass(g, max_y - n, max_x as nat);
        lemma_dry_right_pass(g, max_x, max_y - n, max_x as nat, coins);
    }
}

/// Whether moving water lies in the cell at (`a`, `b`), next to it in its row,
/// or in one of the three cells of the row above.
pub open spec fn near_water(g: GridView, a: int, b: int) -> bool {
    exists|dy: int, dx: int| -1 <= dy <= 0 && -1 <= dx <= 1 && is_water_spec(#[trigger] at(g, a + dy, b + dx))
}

/// Every cell where `s` differs from `g` is next to water in `g`.
pub open spec fn changes_near(g: GridView, s: GridView) -> bool {
    forall|a: int, b: int| #[trigger] at(s, a, b) != at(g, a, b) ==> near_water(g, a, b)
}

/// Water in row `y` of `s`, in columns up to `last`, was there in `g`, or is
/// water flowing left `(` that came from water in `g` right of it.
pub open spec fn row_water_traced(g: GridView, s: GridView, y: int, last: int) -> bool {
    forall|b: int|
        b <= last && is_water_spec(#[trigger] at(s, y, b)) ==> at(s, y, b) == at(g, y, b) || (at(s, y, b)
            == glyph('(') && is_water_spec(at(g, y, b + 1)))
}

proof fn lemma_left_step_frame(s: GridView, y: int, x: int)
    ensures
        forall|a: int, b: int|
            #[trigger] at(left_step(s, y, x), a, b) != at(s, a, b) ==> a == y && (b == x || b == x - 1)
                && at(s, y, x) == glyph('('),
        at(left_step(s, y, x), y, x - 1) != at(s, y, x - 1) ==> at(left_step(s, y, x), y, x - 1) == glyph('('),
        is_water_spec(at(left_step(s, y, x), y, x)) ==> at(left_step(s, y, x), y, x) == at(s, y, x),
{
}

proof fn lemma_right_step_frame(s: GridView, max_x: int, y: int, x: int, coin: int)
    ensures
        forall|a: int, b: int|
            #[trigger] at(right_step(s, max_x, y, x, coin), a, b) != at(s, a, b) ==> is_water_spec(at(s, y, x)) && (
            (a == y && (b == x || b == x - 1 || b == x + 1)) || (a == y + 1 && b == x)),
        at(s, y, x) == glyph('(') ==> forall|a: int, b: int|
            #[trigger] at(right_step(s, max_x, y, x, coin), a, b) != at(s, a, b) ==> (a == y && b == x) || (a == y
                + 1 && b == x),
        at(right_step(s, max_x, y, x, coin), y, x - 1) != at(s, y, x - 1) ==> at(
            right_step(s, max_x, y, x, coin),
            y,
            x - 1,
        ) == glyph('(') && at(s, y, x) == glyph('0'),
{
    let f = fall(s, y, x);
    let sr = slide_right(f, y, x);
    if is_water_spec(at(s, y, x)) {
        assert(forall|a: int, b: int| #[trigger] at(f, a, b) != at(s, a, b) ==> (a == y && b == x) || (a == y + 1 && b == x));
        assert(forall|a: int, b: int| #[trigger] at(sr, a, b) != at(f, a, b) ==> a == y && (b == x || b == x + 1));
        assert(at(s, y, x) == glyph('(') ==> at(sr, y, x) != glyph('0'));
        assert(at(sr, y, x) == glyph('0') ==> at(s, y, x) == glyph('0'));
        let st = settle(sr, max_x, y, x, coin);
        assert(forall|a: int, b: int| #[trigger] at(st, a, b) != at(sr, a, b) ==> a == y && (b == x || b == x - 1 || b == x + 1));
        assert(at(sr, y, x) != glyph('0') ==> forall|a: int, b: int| #[trigger] at(st, a, b) != at(sr, a, b) ==> a == y && b == x);
        assert(at(st, y, x - 1) != at(sr, y, x - 1) ==> at(st, y, x - 1) == glyph('(') && at(sr, y, x) == glyph('0'));
    }
}

proof fn lemma_left_pass_trace(g: GridView, s: GridView, y: int, n: nat)
    requires
        changes_near(g, s),
        forall|b: int| #[trigger] at(s, y, b) == at(g, y, b),
    ensures
        changes_near(g, left_pass(s, y, n)),
        forall|a: int, b: int| a != y ==> #[trigger] at(left_pass(s, y, n), a, b) == at(s, a, b),
        forall|b: int| b >= n ==> #[trigger] at(left_pass(s, y, n), y, b) == at(g, y, b),
        row_water_traced(g, left_pass(s, y, n), y, n as int),
    decreases n,
{
    if n > 0 {
        let x = n - 1;
        let t1 = left_pass(s, y, (n - 1) as nat);
        lemma_left_pass_trace(g, s, y, (n - 1) as nat);
        let t = left_step(t1, y, x);
        lemma_left_step_frame(t1, y, x);
        assert(at(t1, y, x) == at(g, y, x));
        assert forall|a: int, b: int| #[trigger] at(t, a, b) != at(g, a, b) implies near_water(g, a, b) by {
            if at(t, a, b) != at(t1, a, b) {
                assert(is_water_spec(at(g, a + 0, b + (x - b))));
            }
        }
        assert forall|b: int| b <= n && is_water_spec(#[trigger] at(t, y, b)) implies at(t, y, b) == at(g, y, b)
            || (at(t, y, b) == glyph('(') && is_water_spec(at(g, y, b + 1))) by {
            if b == n {
                assert(at(t, y, b) == at(t1, y, b));
            }
        }
    }
}

proof fn lemma_right_pass_trace(
    g: GridView,
    s: GridView,
    max_x: int,
    y: int,
    n: nat,
    coins: spec_fn(int, int) -> int,
)
    requires
        changes_near(g, s),
        row_water_traced(g, s, y, max_x),
    ensures
        changes_near(g, right_pass(s, max_x, y, n, coins)),
        forall|a: int, b: int| a != y && a != y + 1 ==> #[trigger] at(right_pass(s, max_x, y, n, coins), a, b) == at(s, a, b),
        row_water_traced(g, right_pass(s, max_x, y, n, coins), y, max_x - n),
    decreases n,
{
    if n > 0 {
        let x = max_x - n;
        let t1 = right_pass(s, max_x, y, (n - 1) as nat, coins);
        lemma_right_pass_trace(g, s, max_x, y, (n - 1) as nat, coins);
        let t = right_step(t1, max_x, y, x, coins(y, x));
        lemma_right_step_frame(t1, max_x, y, x, coins(y, x));
        assert forall|a: int, b: int| #[trigger] at(t, a, b) != at(g, a, b) implies near_water(g, a, b) by {
            if at(t, a, b) != at(t1, a, b) {
                assert(is_water_spec(at(t1, y, x)));
                if at(t1, y, x) == at(g, y, x) {
                    assert(is_water_spec(at(g, a + (y - a), b + (x - b))));
                } else {
                    assert(is_water_spec(at(g, a + (y - a), b + (x + 1 - b))));
                }
            }
        }
        assert forall|b: int| b <= x && is_water_spec(#[trigger] at(t, y, b)) implies at(t, y, b) == at(g, y, b)
            || (at(t, y, b) == glyph('(') && is_water_spec(at(g, y, b + 1))) by {
            if at(t, y, b) != at(t1, y, b) {
                assert(b == x - 1 || b == x);
                if b == x - 1 {
                    assert(at(t1, y, x) == glyph('0'));
                    assert(at(t1, y, x) == at(g, y, x));
                } else {
                    assert(false);
                }
            }
        }
    }
}

proof fn lemma_sweep_trace(g: GridView, max_x: int, max_y: int, n: nat, coins: spec_fn(int, int) -> int)
    ensures
        changes_near(g, sweep(g, max_x, max_y, n, coins)),
        forall|a: int, b: int| a <= max_y - 1 - n ==> #[trigger] at(sweep(g, max_x, max_y, n, coins), a, b) == at(g, a, b),
    decreases n,
{
    if n > 0 {
        lemma_sweep_trace(g, max_x, max_y, (n - 1) as nat, coins);
        let h = sweep(g, max_x, max_y, (n - 1) as nat, coins);
        let y = max_y - n;
        assert forall|b: int| #[trigger] at(h, y, b) == at(g, y, b) by {}
        lemma_left_pass_trace(g, h, y, max_x as nat);
        let l = left_pass(h, y, max_x as nat);
        assert(row_water_traced(g, l, y, max_x)) by {
            if max_x >= 0 {
            } else {
                assert forall|b: int| b <= max_x && is_water_spec(#[trigger] at(l, y, b)) implies at(l, y, b) == at(g, y, b)
                    || (at(l, y, b) == glyph('(') && is_water_spec(at(g, y, b + 1))) by {
                    assert(at(l, y, b) == at(g, y, b));
                }
            }
        }
        lemma_right_pass_trace(g, l, max_x, y, max_x as nat, coins);
    }
}

/// Water moves at most one cell a tick, and never up: every cell that a tick
/// changes holds moving water before the tick, or is next to such a cell in
/// its own row or the row above.
pub proof fn lemma_tick_is_local(g: GridView, max_x: int, max_y: int, coins: spec_fn(int, int) -> int)
    ensures
        changes_near(g, water_tick(g, max_x, max_y, coins)),
{
    lemma_sweep_trace(g, max_x, max_y, max_y as nat, coins);
}

/// When the right-to-left pass reaches moving water (`0`, `(` or `)`) with
/// floor `_` right below it, the water drops into that cell as a droplet `0`
/// and leaves floor behind; no other cell changes, whatever the draw.
pub proof fn lemma_water_over_floor_falls(g: GridView, max_x: int, y: int, x: int, coin: int)
    requires
        is_water_spec(at(g, y, x)),
        at(g, y + 1, x) == glyph('_'),
    ensures
        at(right_step(g, max_x, y, x, coin), y, x) == glyph('_'),
        at(right_step(g, max_x, y, x, coin), y + 1, x) == glyph('0'),
        forall|a: int, b: int|
            !(a == y && b == x) && !(a == y + 1 && b == x) ==> #[trigger] at(right_step(g, max_x, y, x, coin), a, b)
                == at(g, a, b),
{
}

/// The left-to-right pass moves only water flowing left `(`: onto floor `_`
/// to its left, leaving floor behind; against a wall or a droplet `0` it comes
/// to rest as `W`; any other cell is left as it is, and nothing else changes.
pub proof fn lemma_left_flow(g: GridView, y: int, x: int)
    ensures
        at(g, y, x) != glyph('(') ==> left_step(g, y, x) == g,
        at(g, y, x) == glyph('(') && at(g, y, x - 1) == glyph('_') ==> {
            &&& at(left_step(g, y, x), y, x - 1) == glyph('(')
            &&& at(left_step(g, y, x), y, x) == glyph('_')
            &&& forall|a: int, b: int|
                !(a == y && (b == x || b == x - 1)) ==> #[trigger] at(left_step(g, y, x), a, b) == at(g, a, b)
        },
        at(g, y, x) == glyph('(') && (is_wall_spec(at(g, y, x - 1)) || at(g, y, x - 1) == glyph('0')) ==> {
            &&& at(left_step(g, y, x), y, x) == glyph('W')
            &&& forall|a: int, b: int| !(a == y && b == x) ==> #[trigger] at(left_step(g, y, x), a, b) == at(g, a, b)
        },
{
}

} // verus!
