//! The render sink: paint the current tree into a fixed-resolution pixel
//! buffer.
//!
//! One pixel covers a two-by-two square of sample units, so a generation
//! of maximum depth `d` renders onto a `2^d x 2^d` raster. Painting walks
//! the leaves and fills each leaf's pixel rectangle with the color its
//! category maps to — transparent for a category outside the table. The
//! result is a pure function of the tree and the color table: repainting
//! after every refinement level is safe and idempotent.

use vstd::prelude::*;

use crate::arith::exec_two_pow;
use crate::arith::lemma_two_pow_adds;
use crate::arith::lemma_two_pow_mono;
use crate::arith::two_pow;
use crate::config::Rgba;
use crate::config::ViewerConfig;
use crate::engine::GenerationRun;
use crate::node::VisualizerNode;

verus! {

/// A square RGBA raster, row major, row `0` at the bottom.
pub struct PixelBuffer {
    pub side: usize,
    pub pixels: Vec<Rgba>,
}

impl PixelBuffer {
    /// The storage matches the declared square size.
    pub open spec fn wf(self) -> bool {
        self.pixels@.len() == self.side * self.side
    }

    /// The color stored for the pixel column `px`, row `py`.
    pub open spec fn spec_at(self, px: int, py: int) -> Rgba {
        self.pixels@[py * self.side + px]
    }

    /// A buffer of the given side, uniformly filled.
    pub fn new_filled(side: usize, fill: Rgba) -> (r: Self)
        requires
            side <= 32768,
        ensures
            r.wf(),
            r.side == side,
            forall|px: int, py: int|
                0 <= px < side && 0 <= py < side ==> r.spec_at(px, py) == fill,
    {
        proof {
            assert(side * side <= 32768 * 32768) by (nonlinear_arith)
                requires side <= 32768,
            ;
        }
        let n: usize = side * side;
        let mut pixels: Vec<Rgba> = Vec::new();
        let mut i: usize = 0;
        while i < n
            invariant
                i <= n,
                pixels@.len() == i,
                forall|j: int| 0 <= j < i ==> pixels@[j] == fill,
            decreases n - i,
        {
            pixels.push(fill);
            i = i + 1;
        }
        let r = PixelBuffer { side, pixels };
        proof {
            assert forall|px: int, py: int|
                0 <= px < side && 0 <= py < side implies r.spec_at(px, py) == fill by {
                assert(0 <= py * side + px < side * side) by (nonlinear_arith)
                    requires 0 <= px < side && 0 <= py < side,
                ;
            }
        }
        r
    }

    /// Read one pixel.
    pub fn get_px(&self, px: usize, py: usize) -> (c: Rgba)
        requires
            self.wf(),
            px < self.side,
            py < self.side,
        ensures
            c == self.spec_at(px as int, py as int),
    {
        let n: usize = self.pixels.len();
        proof {
            assert(0 <= py * self.side + px < n as int) by (nonlinear_arith)
                requires
                    0 <= px < self.side && 0 <= py < self.side && n == self.side * self.side,
            ;
        }
        self.pixels[py * self.side + px]
    }

    /// Write one pixel; every other pixel keeps its color.
    fn put_px(&mut self, px: usize, py: usize, c: Rgba)
        requires
            old(self).wf(),
            px < old(self).side,
            py < old(self).side,
        ensures
            final(self).wf(),
            final(self).side == old(self).side,
            final(self).spec_at(px as int, py as int) == c,
            forall|qx: int, qy: int|
                0 <= qx < final(self).side && 0 <= qy < final(self).side && !(qx == px && qy
                    == py) ==> final(self).spec_at(qx, qy) == old(self).spec_at(qx, qy),
    {
        let n: usize = self.pixels.len();
        proof {
            assert(0 <= py * self.side + px < n as int) by (nonlinear_arith)
                requires
                    0 <= px < self.side && 0 <= py < self.side && n == self.side * self.side,
            ;
        }
        let idx: usize = py * self.side + px;
        self.pixels[idx] = c;
        proof {
            let s = self.side as int;
            assert forall|qx: int, qy: int|
                0 <= qx < s && 0 <= qy < s && !(qx == px && qy == py) implies self.spec_at(qx, qy)
                == old(self).spec_at(qx, qy) by {
                assert(qy * s + qx != py * s + px) by (nonlinear_arith)
                    requires
                        0 <= qx < s && 0 <= qy < s && 0 <= px < s && 0 <= py < s && !(qx == px
                            && qy == py),
                ;
                assert(0 <= qy * s + qx < s * s) by (nonlinear_arith)
                    requires 0 <= qx < s && 0 <= qy < s,
                ;
            }
        }
    }
}

impl VisualizerNode {
    /// Paint this subtree's region of the raster: after the call, every
    /// pixel whose sample point lies in this cell shows the color of the
    /// category the tree holds there, and every other pixel is untouched.
    /// Pixel `(px, py)` is sampled at `(2 px, 2 py)`.
    pub fn set_partially(&self, buf: &mut PixelBuffer, config: &ViewerConfig)
        requires
            self.wf(),
            self.pixel_aligned(),
            old(buf).wf(),
            self.x1 / 2 <= old(buf).side,
            self.y1 / 2 <= old(buf).side,
        ensures
            final(buf).wf(),
            final(buf).side == old(buf).side,
            forall|px: int, py: int|
                0 <= px < final(buf).side && 0 <= py < final(buf).side ==> final(buf).spec_at(
                    px,
                    py,
                ) == if self.contains_pt(2 * px, 2 * py) {
                    config.spec_color_of(self.cat_at(2 * px, 2 * py))
                } else {
                    old(buf).spec_at(px, py)
                },
        decreases *self,
    {
        match &self.children {
            None => {
                let color = config.color_of(self.value);
                let x_start: u64 = self.x0 / 2;
                let x_end: u64 = self.x1 / 2;
                let y_start: u64 = self.y0 / 2;
                let y_end: u64 = self.y1 / 2;
                let mut py: u64 = y_start;
                while py < y_end
                    invariant
                        buf.wf(),
                        buf.side == old(buf).side,
                        x_start == self.x0 / 2 && x_end == self.x1 / 2,
                        y_start == self.y0 / 2 && y_end == self.y1 / 2,
                        x_start <= x_end && y_start <= y_end,
                        x_end <= buf.side && y_end <= buf.side,
                        y_start <= py <= y_end,
                        forall|qx: int, qy: int|
                            0 <= qx < buf.side && 0 <= qy < buf.side ==> buf.spec_at(qx, qy)
                                == if x_start <= qx < x_end && y_start <= qy < py {
                                color
                            } else {
                                old(buf).spec_at(qx, qy)
                            },
                    decreases y_end - py,
                {
                    let mut px: u64 = x_start;
                    while px < x_end
                        invariant
                            buf.wf(),
                            buf.side == old(buf).side,
                            x_start == self.x0 / 2 && x_end == self.x1 / 2,
                            y_start == self.y0 / 2 && y_end == self.y1 / 2,
                            x_start <= x_end && y_start <= y_end,
                            x_end <= buf.side && y_end <= buf.side,
                            y_start <= py < y_end,
                            x_start <= px <= x_end,
                            forall|qx: int, qy: int|
                                0 <= qx < buf.side && 0 <= qy < buf.side ==> buf.spec_at(qx, qy)
                                    == if (x_start <= qx < x_end && y_start <= qy < py) || (qy
                                    == py && x_start <= qx < px) {
                                    color
                                } else {
                                    old(buf).spec_at(qx, qy)
                                },
                        decreases x_end - px,
                    {
                        buf.put_px(px as usize, py as usize, color);
                        px = px + 1;
                    }
                    py = py + 1;
                }
                proof {
                    assert forall|px: int, py2: int|
                        0 <= px < buf.side && 0 <= py2 < buf.side implies buf.spec_at(px, py2)
                        == if self.contains_pt(2 * px, 2 * py2) {
                        config.spec_color_of(self.cat_at(2 * px, 2 * py2))
                    } else {
                        old(buf).spec_at(px, py2)
                    } by {
                        assert(self.x0 == 2 * (self.x0 as int / 2));
                        assert(self.x1 == 2 * (self.x1 as int / 2));
                        assert(self.y0 == 2 * (self.y0 as int / 2));
                        assert(self.y1 == 2 * (self.y1 as int / 2));
                    }
                }
            },
            Some(c) => {
                let ghost b0 = *buf;
                c.tl.set_partially(buf, config);
                let ghost b1 = *buf;
                c.tr.set_partially(buf, config);
                let ghost b2 = *buf;
                c.bl.set_partially(buf, config);
                let ghost b3 = *buf;
                c.br.set_partially(buf, config);
                proof {
                    let mx = self.spec_mid_x();
                    let my = self.spec_mid_y();
                    assert forall|px: int, py: int|
                        0 <= px < buf.side && 0 <= py < buf.side implies buf.spec_at(px, py)
                        == if self.contains_pt(2 * px, 2 * py) {
                        config.spec_color_of(self.cat_at(2 * px, 2 * py))
                    } else {
                        old(buf).spec_at(px, py)
                    } by {
                        let sx = 2 * px;
                        let sy = 2 * py;
                        if self.contains_pt(sx, sy) {
                            if sx < mx {
                                if sy < my {
                                    assert(c.bl.contains_pt(sx, sy));
                                    assert(!c.tl.contains_pt(sx, sy) && !c.tr.contains_pt(sx, sy)
                                        && !c.br.contains_pt(sx, sy));
                                } else {
                                    assert(c.tl.contains_pt(sx, sy));
                                    assert(!c.bl.contains_pt(sx, sy) && !c.tr.contains_pt(sx, sy)
                                        && !c.br.contains_pt(sx, sy));
                                }
                            } else {
                                if sy < my {
                                    assert(c.br.contains_pt(sx, sy));
                                    assert(!c.tl.contains_pt(sx, sy) && !c.tr.contains_pt(sx, sy)
                                        && !c.bl.contains_pt(sx, sy));
                                } else {
                                    assert(c.tr.contains_pt(sx, sy));
                                    assert(!c.tl.contains_pt(sx, sy) && !c.bl.contains_pt(sx, sy)
                                        && !c.br.contains_pt(sx, sy));
                                }
                            }
                        } else {
                            assert(!c.tl.contains_pt(sx, sy) && !c.tr.contains_pt(sx, sy)
                                && !c.bl.contains_pt(sx, sy) && !c.br.contains_pt(sx, sy));
                        }
                    }
                }
            },
        }
    }
}

impl GenerationRun {
    /// Rasterize the run's current tree onto a fresh `2^max_levels` square
    /// buffer: every pixel shows the color of the category the tree holds
    /// at that pixel's sample point, with categories outside the color
    /// table transparent. Safe to call after any step of the run.
    pub fn render(&self, config: &ViewerConfig) -> (buf: PixelBuffer)
        requires
            self.inv(),
        ensures
            buf.wf(),
            buf.side == two_pow(self.max_levels as nat),
            forall|px: int, py: int|
                0 <= px < buf.side && 0 <= py < buf.side ==> buf.spec_at(px, py)
                    == config.spec_color_of(self.tree.cat_at(2 * px, 2 * py)),
    {
        let side64 = exec_two_pow(self.max_levels);
        proof {
            lemma_two_pow_mono(self.max_levels as nat, 15);
            crate::arith::lemma_two_pow_15();
            lemma_two_pow_adds(1, self.max_levels as nat);
        }
        let side: usize = side64 as usize;
        let mut buf = PixelBuffer::new_filled(side, Rgba { r: 0, g: 0, b: 0, a: 0 });
        self.tree.set_partially(&mut buf, config);
        buf
    }
}

} // verus!
