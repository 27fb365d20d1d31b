//! Profile data: alignments, overlay objects, the caption region, characters.

use vstd::prelude::*;
use crate::color::{ColorInput, Color};

verus! {

/// Horizontal placement of a wrapped line inside the region.
#[derive(Clone, Copy, Debug, PartialEq, Eq, Structural)]
pub enum HorizontalAlign {
    /// Lines start at the region's left edge.
    Left,
    /// Lines are centered in the region.
    Center,
    /// Lines end at the region's right edge.
    Right,
}

impl Default for HorizontalAlign {
    /// Lines align left unless said otherwise.
    fn default() -> (r: HorizontalAlign)
        ensures
            r == HorizontalAlign::Left,
    {
        HorizontalAlign::Left
    }
}

/// Vertical placement of the line block inside the region.
#[derive(Clone, Copy, Debug, PartialEq, Eq, Structural)]
pub enum VerticalAlign {
    /// The block starts at the region's top edge.
    Top,
    /// The block is centered in the region.
    Middle,
    /// The block ends at the region's bottom edge.
    Bottom,
}

impl Default for VerticalAlign {
    /// The block sits at the top unless said otherwise.
    fn default() -> (r: VerticalAlign)
        ensures
            r == VerticalAlign::Top,
    {
        VerticalAlign::Top
    }
}

/// A fixed object painted onto the background before the caption.
pub enum ObjectConfig {
    /// A fixed piece of text.
    Text {
        /// The characters to paint; empty means skip.
        text: String,
        /// Top-left corner of the text.
        position: [i32; 2],
        /// Its color specification.
        font_color: ColorInput,
        /// Its fixed font size.
        font_size: u32,
    },
    /// An image drawn from files matching the given patterns.
    Image {
        /// Top-left corner of the overlay.
        position: [i32; 2],
        /// File patterns; one matching file is picked at random.
        path: Vec<String>,
    },
}

/// The region the caption is fitted into, with its styling.
pub struct TextAreaConfig {
    /// Top-left corner of the region.
    pub position: [i32; 2],
    /// Width and height of the region, in pixels.
    pub size: [u32; 2],
    /// Color of ordinary runs.
    pub font_color: ColorInput,
    /// Color of highlighted runs, if any override is configured.
    pub highlight: Option<ColorInput>,
    /// Cap on the fitted font size, if any.
    pub max_font_size: Option<u32>,
    /// Offset of the black shadow behind every run.
    pub shadow_offset: (i32, i32),
    /// Extra inter-line gap, in hundredths of the line height.
    pub line_spacing: u32,
    /// Horizontal alignment of each line.
    pub align: HorizontalAlign,
    /// Vertical alignment of the line block.
    pub valign: VerticalAlign,
}

impl TextAreaConfig {
    /// Well-formedness: a non-empty region of bounded extent, placed within
    /// bounded coordinates, with bounded spacing and shadow offset.
    pub open spec fn valid(&self) -> bool {
        &&& 1 <= self.size[0] <= 1000000
        &&& 1 <= self.size[1] <= 1000000
        &&& -100000000 <= self.position[0] <= 100000000
        &&& -100000000 <= self.position[1] <= 100000000
        &&& -1000000 <= self.shadow_offset.0 <= 1000000
        &&& -1000000 <= self.shadow_offset.1 <= 1000000
        &&& self.line_spacing <= 1000
    }

    /// Whether this region is well-formed.
    pub fn check_valid(&self) -> (r: bool)
        ensures
            r == self.valid(),
    {
        1 <= self.size[0] && self.size[0] <= 1000000 && 1 <= self.size[1] && self.size[1]
            <= 1000000 && -100000000 <= self.position[0] && self.position[0] <= 100000000
            && -100000000 <= self.position[1] && self.position[1] <= 100000000 && -1000000
            <= self.shadow_offset.0 && self.shadow_offset.0 <= 1000000 && -1000000
            <= self.shadow_offset.1 && self.shadow_offset.1 <= 1000000 && self.line_spacing
            <= 1000
    }
}

/// One character profile, fully resolved against the template.
pub struct CharacterConfig {
    /// The character's identifier.
    pub id: String,
    /// The character's display name.
    pub name: String,
    /// Background file patterns.
    pub backgrounds: Vec<String>,
    /// The font file name.
    pub font: String,
    /// The character's primary color.
    pub primary_color: Color,
    /// Fixed objects painted before the caption.
    pub objects: Vec<ObjectConfig>,
    /// The caption region.
    pub textarea: TextAreaConfig,
}

} // verus!
