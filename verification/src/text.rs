use vstd::prelude::*;

use crate::batch::GlyphHandle;

verus! {

/// A laid-out piece of text: the glyph quads it was drawn with and the
/// index of the transform that places them.
#[derive(Debug)]
pub struct Text {
    pub glyphs: Vec<GlyphHandle>,
    pub transform_index: u32,
}

} // verus!
