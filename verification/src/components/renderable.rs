//! How an entity is drawn: a glyph of the sprite sheet in two colours.
use vstd::prelude::*;

verus! {

/// Marks an entity whose sprite has not been created yet.
pub struct NeedsSprite;

/// The glyph an entity is drawn with and its foreground and background colours.
pub struct Renderable {
    pub tilemap_index: i32,
    pub fg: GlyphColor,
    pub bg: GlyphColor,
}

/// The colours of the glyph palette.
#[derive(Clone, Copy, PartialEq, Eq, Structural)]
pub enum GlyphColor {
    BLACK,
    WHITE,
    BLUE,
    GREEN,
    ORANGE,
    PINK,
}

} // verus!
