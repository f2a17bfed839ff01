//! Viewer configuration: the category-to-color table and the refinement
//! depth bounds of one generation.
//!
//! Coordinates are handled in integer *sample units*: for a maximum depth
//! `d`, the sampled square is `[0, 2^(d+1)]` on each axis, so that the
//! center and the corners of every cell down to depth `d` fall on integer
//! points. The embedding maps sample units affinely onto its own
//! floating-point axis ranges when it evaluates the classifier.

use vstd::prelude::*;

verus! {

/// The fixed set of advisory functions this viewer knows how to visualize.
#[derive(Copy, Clone, Debug, PartialEq, Eq, Hash, Structural)]
pub enum VisualizableKey {
    HCasCartesian,
    VCas,
}

/// An RGBA color entry of the category table.
#[derive(Copy, Clone, Debug, PartialEq, Eq, Structural)]
pub struct Rgba {
    pub r: u8,
    pub g: u8,
    pub b: u8,
    pub a: u8,
}

/// Hard ceiling on the refinement depth: a depth-15 grid already exceeds a
/// gigapixel of potential cells, and keeping the depth small keeps every
/// sample coordinate and progress counter comfortably inside its integer
/// type.
pub const LEVEL_LIMIT: usize = 15;

/// Fully transparent: the color of a category that is absent from the table.
pub open spec fn spec_transparent() -> Rgba {
    Rgba { r: 0, g: 0, b: 0, a: 0 }
}

/// Configuration of one generation, read-only while it runs.
#[derive(Clone)]
pub struct ViewerConfig {
    /// Category index to (label, color); categories beyond the table render
    /// transparent.
    pub output_variants: Vec<(String, Rgba)>,
    /// Depth to which the grid is unconditionally subdivided.
    pub min_levels: usize,
    /// Hard ceiling for adaptive refinement.
    pub max_levels: usize,
}

impl ViewerConfig {
    /// A configuration is well formed once its depths are normalized.
    pub open spec fn wf(self) -> bool {
        self.min_levels <= self.max_levels <= LEVEL_LIMIT
    }

    /// Clamp malformed depth bounds instead of failing: `max_levels` is
    /// capped at the hard limit and `min_levels` is capped at `max_levels`.
    pub fn normalize(&mut self)
        ensures
            final(self).wf(),
            final(self).output_variants == old(self).output_variants,
            final(self).max_levels == if old(self).max_levels <= LEVEL_LIMIT {
                old(self).max_levels
            } else {
                LEVEL_LIMIT
            },
            final(self).min_levels == if old(self).min_levels <= final(self).max_levels {
                old(self).min_levels
            } else {
                final(self).max_levels
            },
    {
        if self.max_levels > LEVEL_LIMIT {
            self.max_levels = LEVEL_LIMIT;
        }
        if self.min_levels > self.max_levels {
            self.min_levels = self.max_levels;
        }
    }

    /// The color a category renders with: its table entry, or transparent
    /// for a category outside the table.
    pub open spec fn spec_color_of(self, category: u8) -> Rgba {
        if (category as int) < self.output_variants@.len() {
            self.output_variants@[category as int].1
        } else {
            spec_transparent()
        }
    }

    /// Look a category up in the color table; absent categories are
    /// transparent rather than an error.
    pub fn color_of(&self, category: u8) -> (c: Rgba)
        ensures
            c == self.spec_color_of(category),
    {
        let idx: usize = category as usize;
        if idx < self.output_variants.len() {
            self.output_variants[idx].1
        } else {
            Rgba { r: 0, g: 0, b: 0, a: 0 }
        }
    }
}

} // verus!
