//! What a cell holds: moving water, or something water stands on.
use vstd::prelude::*;
use crate::simulation::grid::{glyph, is_glyph};

verus! {

/// Moving water: a droplet `0`, or water flowing left `(` or right `)`.
pub open spec fn is_water_spec(s: Seq<char>) -> bool {
    s == glyph('0') || s == glyph('(') || s == glyph(')')
}

/// What water stands on: a wall `#`, a room marker `B` or `E`, or settled water `W`.
pub open spec fn is_wall_spec(s: Seq<char>) -> bool {
    s == glyph('#') || s == glyph('B') || s == glyph('E') || s == glyph('W')
}

/// checks if the cell is water.
/// The reason why "W" is not water is explained in is_wall
pub fn is_water(value: &String) -> (b: bool)
    ensures
        b == is_water_spec(value@),
{
    let s = value.as_str();
    is_glyph(s, '0') || is_glyph(s, '(') || is_glyph(s, ')')
}

/// checks if the cell is a wall.
/// "W" is here because it doesn't have to move, and is pretty much a wall once placed.
pub fn is_wall(value: &String) -> (b: bool)
    ensures
        b == is_wall_spec(value@),
{
    let s = value.as_str();
    is_glyph(s, '#') || is_glyph(s, 'B') || is_glyph(s, 'E') || is_glyph(s, 'W')
}

/// Whether the text `s` is moving water.
pub fn str_is_water(s: &str) -> (b: bool)
    ensures
        b == is_water_spec(s@),
{
    is_glyph(s, '0') || is_glyph(s, '(') || is_glyph(s, ')')
}

/// Whether the text `s` is something water stands on.
pub fn str_is_wall(s: &str) -> (b: bool)
    ensures
        b == is_wall_spec(s@),
{
    is_glyph(s, '#') || is_glyph(s, 'B') || is_glyph(s, 'E') || is_glyph(s, 'W')
}

} // verus!
