//! The component kinds of the closed component set, the entity handle, and
//! the plain values exchanged with the display and input collaborators.

use vstd::prelude::*;

verus! {

/// Width of the character grid; valid x coordinates are `0 ..= MAX_X`.
pub const GRID_WIDTH: i32 = 80;

/// Height of the character grid; valid y coordinates are `0 ..= MAX_Y`.
pub const GRID_HEIGHT: i32 = 50;

/// Largest valid x coordinate.
pub const MAX_X: i32 = 79;

/// Largest valid y coordinate.
pub const MAX_Y: i32 = 49;

/// An opaque entity identity. It carries no data of its own; components are
/// correlated only by sharing the same `Entity` value.
#[derive(Clone, Copy, PartialEq, Eq, Structural, Debug)]
pub struct Entity {
    pub id: u64,
}

/// A grid coordinate. Systems that mutate it keep it inside the bounded grid
/// `[0, MAX_X] x [0, MAX_Y]`: the drift system wraps, player movement clamps.
#[derive(Clone, Copy, PartialEq, Eq, Structural, Debug)]
pub struct Position {
    pub x: i32,
    pub y: i32,
}

/// An RGB colour handed through to the display surface unchanged.
#[derive(Clone, Copy, PartialEq, Eq, Structural, Debug)]
pub struct Color {
    pub r: u8,
    pub g: u8,
    pub b: u8,
}

/// A visual: glyph code plus foreground and background colours. Purely
/// descriptive and immutable after creation in this core.
#[derive(Clone, Copy, PartialEq, Eq, Structural, Debug)]
pub struct Renderable {
    pub glyph: u16,
    pub fg: Color,
    pub bg: Color,
}

/// Marker component: the entity drifts one cell to the left each tick.
#[derive(Clone, Copy, PartialEq, Eq, Structural, Debug)]
pub struct LeftMover {}

/// Marker component: the entity is the user-controlled one. Singularity is a
/// usage convention, not enforced by the model.
#[derive(Clone, Copy, PartialEq, Eq, Structural, Debug)]
pub struct Player {}

/// The key snapshot sampled once per tick from the input source.
#[derive(Clone, Copy, PartialEq, Eq, Structural, Debug)]
pub enum InputKey {
    Left,
    Right,
    Up,
    Down,
    /// Any key with no movement meaning.
    Other,
}

/// One draw request for the display surface: put `glyph` with the given
/// colours at grid cell `(x, y)`.
#[derive(Clone, Copy, PartialEq, Eq, Structural, Debug)]
pub struct DrawCmd {
    pub x: i32,
    pub y: i32,
    pub glyph: u16,
    pub fg: Color,
    pub bg: Color,
}

/// A position lies on the bounded grid.
pub open spec fn in_grid(p: Position) -> bool {
    0 <= p.x <= MAX_X && 0 <= p.y <= MAX_Y
}

} // verus!
