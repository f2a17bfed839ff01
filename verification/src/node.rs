//! The quadtree node: an axis-aligned square cell of the sample grid,
//! holding the category sampled at its center and, once subdivided, exactly
//! four children that partition it into quadrants.
//!
//! All coordinates are in integer sample units (see [`crate::config`]): a
//! cell covers the half-open square `[x0, x1) x [y0, y1)`, its corners are
//! the four combinations of the bounds, and its center is the midpoint of
//! each axis. Cells always have even side length while they can still be
//! subdivided, so every midpoint is again an integer.

use vstd::prelude::*;

verus! {

/// Sentinel category of a node whose center has not been sampled yet.
pub const UNSET_CATEGORY: u8 = 255;

/// The four children of a subdivided cell, one per quadrant.
#[verifier::ext_equal]
pub struct Quadrants {
    pub tl: VisualizerNode,
    pub tr: VisualizerNode,
    pub bl: VisualizerNode,
    pub br: VisualizerNode,
}

/// One cell of the visualization quadtree.
#[verifier::ext_equal]
pub struct VisualizerNode {
    /// Category sampled at the cell center (`UNSET_CATEGORY` before the
    /// first evaluation).
    pub value: u8,
    /// Cell bounds in sample units; the cell is `[x0, x1) x [y0, y1)`.
    pub x0: u64,
    pub x1: u64,
    pub y0: u64,
    pub y1: u64,
    /// Either no children (a leaf) or exactly four children partitioning
    /// the cell at the midpoint of each axis.
    pub children: Option<Box<Quadrants>>,
}

impl VisualizerNode {
    /// Midpoint of the x range.
    pub open spec fn spec_mid_x(self) -> int {
        self.x0 + (self.x1 - self.x0) / 2
    }

    /// Midpoint of the y range.
    pub open spec fn spec_mid_y(self) -> int {
        self.y0 + (self.y1 - self.y0) / 2
    }

    /// The point `(x, y)` lies in this cell's half-open square.
    pub open spec fn contains_pt(self, x: int, y: int) -> bool {
        self.x0 <= x < self.x1 && self.y0 <= y < self.y1
    }

    /// Is this node a leaf?
    pub open spec fn is_leaf(self) -> bool {
        self.children is None
    }

    /// Structural well-formedness: the cell is a non-empty square, and
    /// children, when present, are exactly its four quadrants.
    pub open spec fn wf(self) -> bool
        decreases self,
    {
        &&& self.x0 < self.x1
        &&& self.y0 < self.y1
        &&& self.x1 - self.x0 == self.y1 - self.y0
        &&& match self.children {
            None => true,
            Some(c) => {
                &&& (self.x1 - self.x0) % 2 == 0
                &&& c.tl.x0 == self.x0 && c.tl.x1 == self.spec_mid_x()
                &&& c.tl.y0 == self.spec_mid_y() && c.tl.y1 == self.y1
                &&& c.tr.x0 == self.spec_mid_x() && c.tr.x1 == self.x1
                &&& c.tr.y0 == self.spec_mid_y() && c.tr.y1 == self.y1
                &&& c.bl.x0 == self.x0 && c.bl.x1 == self.spec_mid_x()
                &&& c.bl.y0 == self.y0 && c.bl.y1 == self.spec_mid_y()
                &&& c.br.x0 == self.spec_mid_x() && c.br.x1 == self.x1
                &&& c.br.y0 == self.y0 && c.br.y1 == self.spec_mid_y()
                &&& c.tl.wf() && c.tr.wf() && c.bl.wf() && c.br.wf()
            },
        }
    }

    /// Every cell of the subtree spans a whole number of pixels of the
    /// half-resolution output raster: bounds are even, sides are even, and
    /// a subdivided cell's side is a multiple of four so its midpoints are
    /// even as well.
    pub open spec fn pixel_aligned(self) -> bool
        decreases self,
    {
        &&& self.x0 % 2 == 0 && self.y0 % 2 == 0
        &&& (self.x1 - self.x0) % 2 == 0 && (self.y1 - self.y0) % 2 == 0
        &&& match self.children {
            None => true,
            Some(c) => {
                &&& (self.x1 - self.x0) % 4 == 0
                &&& c.tl.pixel_aligned() && c.tr.pixel_aligned() && c.bl.pixel_aligned()
                    && c.br.pixel_aligned()
            },
        }
    }

    /// Every cell of the subtree is a square of side `s` at its root,
    /// halving with each level of children.
    pub open spec fn sided(self, s: int) -> bool
        decreases self,
    {
        &&& self.x1 - self.x0 == s
        &&& self.y1 - self.y0 == s
        &&& match self.children {
            None => true,
            Some(c) => {
                &&& s % 2 == 0
                &&& c.tl.sided(s / 2) && c.tr.sided(s / 2) && c.bl.sided(s / 2) && c.br.sided(
                    s / 2,
                )
            },
        }
    }

    /// The category the tree currently shows at a point: the value of the
    /// leaf reached by descending towards `(x, y)`.
    pub open spec fn cat_at(self, x: int, y: int) -> u8
        decreases self,
    {
        match self.children {
            None => self.value,
            Some(c) => {
                if x < self.spec_mid_x() {
                    if y < self.spec_mid_y() {
                        c.bl.cat_at(x, y)
                    } else {
                        c.tl.cat_at(x, y)
                    }
                } else {
                    if y < self.spec_mid_y() {
                        c.br.cat_at(x, y)
                    } else {
                        c.tr.cat_at(x, y)
                    }
                }
            },
        }
    }

    /// Every cell of the subtree stores exactly `f` evaluated at its own
    /// center: the tree is a faithful record of the answers it was given.
    pub open spec fn value_matched(self, f: spec_fn(int, int) -> u8) -> bool
        decreases self,
    {
        &&& self.value == f(self.spec_mid_x(), self.spec_mid_y())
        &&& match self.children {
            None => true,
            Some(c) => c.tl.value_matched(f) && c.tr.value_matched(f) && c.bl.value_matched(f)
                && c.br.value_matched(f),
        }
    }

    /// The node and every descendant carry category `v`.
    pub open spec fn uniform(self, v: u8) -> bool
        decreases self,
    {
        &&& self.value == v
        &&& match self.children {
            None => true,
            Some(c) => c.tl.uniform(v) && c.tr.uniform(v) && c.bl.uniform(v) && c.br.uniform(v),
        }
    }

    /// All leaves of the subtree, in a fixed traversal order.
    pub open spec fn leaves(self) -> Seq<VisualizerNode>
        decreases self,
    {
        match self.children {
            None => seq![self],
            Some(c) => c.tl.leaves() + c.tr.leaves() + c.bl.leaves() + c.br.leaves(),
        }
    }

    /// No node still carries a subtree that is uniform in its own value:
    /// running `simplify` again would change nothing.
    pub open spec fn fully_simplified(self) -> bool
        decreases self,
    {
        match self.children {
            None => true,
            Some(c) => {
                &&& !self.uniform(self.value)
                &&& c.tl.fully_simplified() && c.tr.fully_simplified()
                &&& c.bl.fully_simplified() && c.br.fully_simplified()
            },
        }
    }

    /// Index, within `leaves()`, of the leaf reached by descending towards
    /// the point `(x, y)`.
    pub open spec fn leaf_idx(self, x: int, y: int) -> int
        decreases self,
    {
        match self.children {
            None => 0,
            Some(c) => {
                if x < self.spec_mid_x() {
                    if y < self.spec_mid_y() {
                        c.tl.leaves().len() + c.tr.leaves().len() + c.bl.leaf_idx(x, y)
                    } else {
                        c.tl.leaf_idx(x, y)
                    }
                } else {
                    if y < self.spec_mid_y() {
                        c.tl.leaves().len() + c.tr.leaves().len() + c.bl.leaves().len()
                            + c.br.leaf_idx(x, y)
                    } else {
                        c.tl.leaves().len() + c.tr.leaf_idx(x, y)
                    }
                }
            },
        }
    }

    /// What every entry of `leaves()` satisfies: it is a childless cell
    /// with a non-empty region inside this node's region.
    pub open spec fn leaf_props(self, l: VisualizerNode) -> bool {
        &&& l.is_leaf()
        &&& self.x0 <= l.x0 && l.x0 < l.x1 && l.x1 <= self.x1
        &&& self.y0 <= l.y0 && l.y0 < l.y1 && l.y1 <= self.y1
    }

    /// Every leaf of a well-formed tree is a non-empty cell lying inside
    /// the root's region.
    pub proof fn lemma_leaves_within(self)
        requires
            self.wf(),
        ensures
            forall|i: int|
                0 <= i < self.leaves().len() ==> self.leaf_props(#[trigger] self.leaves()[i]),
        decreases self,
    {
        match self.children {
            None => {},
            Some(c) => {
                c.tl.lemma_leaves_within();
                c.tr.lemma_leaves_within();
                c.bl.lemma_leaves_within();
                c.br.lemma_leaves_within();
                let n0 = c.tl.leaves().len() as int;
                let n1 = c.tr.leaves().len() as int;
                let n2 = c.bl.leaves().len() as int;
                assert forall|i: int|
                    0 <= i < self.leaves().len() implies self.leaf_props(
                    #[trigger] self.leaves()[i],
                ) by {
                    if i < n0 {
                        assert(self.leaves()[i] == c.tl.leaves()[i]);
                    } else if i < n0 + n1 {
                        assert(self.leaves()[i] == c.tr.leaves()[i - n0]);
                    } else if i < n0 + n1 + n2 {
                        assert(self.leaves()[i] == c.bl.leaves()[i - n0 - n1]);
                    } else {
                        assert(self.leaves()[i] == c.br.leaves()[i - n0 - n1 - n2]);
                    }
                }
            },
        }
    }

    /// A point outside this node's region is outside every leaf.
    pub proof fn lemma_outside(self, x: int, y: int)
        requires
            self.wf(),
            !self.contains_pt(x, y),
        ensures
            forall|i: int|
                0 <= i < self.leaves().len() ==> !(#[trigger] self.leaves()[i]).contains_pt(
                    x,
                    y,
                ),
    {
        self.lemma_leaves_within();
    }

    /// Coverage: at any moment, the leaves of a well-formed tree tile its
    /// region exactly. The point `(x, y)` lies in the leaf at `leaf_idx`,
    /// that leaf shows `cat_at(x, y)`, and no other leaf contains the
    /// point.
    pub proof fn lemma_coverage(self, x: int, y: int)
        requires
            self.wf(),
            self.contains_pt(x, y),
        ensures
            0 <= self.leaf_idx(x, y) < self.leaves().len(),
            self.leaves()[self.leaf_idx(x, y)].contains_pt(x, y),
            self.leaves()[self.leaf_idx(x, y)].value == self.cat_at(x, y),
            forall|i: int|
                0 <= i < self.leaves().len() && i != self.leaf_idx(x, y)
                    ==> !(#[trigger] self.leaves()[i]).contains_pt(x, y),
        decreases self,
    {
        match self.children {
            None => {},
            Some(c) => {
                let mx = self.spec_mid_x();
                let my = self.spec_mid_y();
                let n0 = c.tl.leaves().len() as int;
                let n1 = c.tr.leaves().len() as int;
                let n2 = c.bl.leaves().len() as int;
                let n3 = c.br.leaves().len() as int;
                if x < mx {
                    if y < my {
                        c.bl.lemma_coverage(x, y);
                        c.tl.lemma_outside(x, y);
                        c.tr.lemma_outside(x, y);
                        c.br.lemma_outside(x, y);
                    } else {
                        c.tl.lemma_coverage(x, y);
                        c.tr.lemma_outside(x, y);
                        c.bl.lemma_outside(x, y);
                        c.br.lemma_outside(x, y);
                    }
                } else {
                    if y < my {
                        c.br.lemma_coverage(x, y);
                        c.tl.lemma_outside(x, y);
                        c.tr.lemma_outside(x, y);
                        c.bl.lemma_outside(x, y);
                    } else {
                        c.tr.lemma_coverage(x, y);
                        c.tl.lemma_outside(x, y);
                        c.bl.lemma_outside(x, y);
                        c.br.lemma_outside(x, y);
                    }
                }
                assert forall|i: int|
                    0 <= i < self.leaves().len() && i != self.leaf_idx(x, y)
                        implies !(#[trigger] self.leaves()[i]).contains_pt(x, y) by {
                    if i < n0 {
                        assert(self.leaves()[i] == c.tl.leaves()[i]);
                    } else if i < n0 + n1 {
                        assert(self.leaves()[i] == c.tr.leaves()[i - n0]);
                    } else if i < n0 + n1 + n2 {
                        assert(self.leaves()[i] == c.bl.leaves()[i - n0 - n1]);
                    } else {
                        assert(self.leaves()[i] == c.br.leaves()[i - n0 - n1 - n2]);
                    }
                }
            },
        }
    }

    /// Exclusive midpoint of the x range, computed without overflow.
    pub fn mid_x(&self) -> (m: u64)
        requires
            self.x0 <= self.x1,
        ensures
            m == self.spec_mid_x(),
    {
        self.x0 + (self.x1 - self.x0) / 2
    }

    /// Exclusive midpoint of the y range, computed without overflow.
    pub fn mid_y(&self) -> (m: u64)
        requires
            self.y0 <= self.y1,
        ensures
            m == self.spec_mid_y(),
    {
        self.y0 + (self.y1 - self.y0) / 2
    }

    /// Store the category sampled at the cell's center.
    pub fn gen_value(&mut self, category: u8)
        ensures
            *final(self) == (VisualizerNode { value: category, ..*old(self) }),
    {
        self.value = category;
    }

    /// Would subdividing be pointless here? True iff the categories sampled
    /// at all four geometric corners agree with the cell's own stored
    /// category. Used as the refinement-stopping heuristic.
    pub fn corners_are_identical(&self, bl: u8, tl: u8, tr: u8, br: u8) -> (r: bool)
        ensures
            r == (bl == self.value && tl == self.value && tr == self.value && br == self.value),
    {
        bl == self.value && tl == self.value && tr == self.value && br == self.value
    }

    /// The four fresh children that `gen_children` hangs below this cell,
    /// given the categories sampled at the four quadrant centers.
    pub open spec fn is_fresh_quadrants(
        self,
        c: Quadrants,
        tl_cat: u8,
        tr_cat: u8,
        bl_cat: u8,
        br_cat: u8,
    ) -> bool {
        let mx = self.spec_mid_x() as u64;
        let my = self.spec_mid_y() as u64;
        &&& c.tl == (VisualizerNode {
            value: tl_cat,
            x0: self.x0,
            x1: mx,
            y0: my,
            y1: self.y1,
            children: None,
        })
        &&& c.tr == (VisualizerNode {
            value: tr_cat,
            x0: mx,
            x1: self.x1,
            y0: my,
            y1: self.y1,
            children: None,
        })
        &&& c.bl == (VisualizerNode {
            value: bl_cat,
            x0: self.x0,
            x1: mx,
            y0: self.y0,
            y1: my,
            children: None,
        })
        &&& c.br == (VisualizerNode {
            value: br_cat,
            x0: mx,
            x1: self.x1,
            y0: self.y0,
            y1: my,
            children: None,
        })
    }

    /// Subdivide the cell at the midpoint of each axis into four fresh leaf
    /// children carrying the categories sampled at their centers. Any
    /// previous children are replaced as a whole: a reader of the result
    /// never sees a partially populated quadrant set.
    pub fn gen_children(&mut self, tl_cat: u8, tr_cat: u8, bl_cat: u8, br_cat: u8)
        requires
            old(self).x0 <= old(self).x1,
            old(self).y0 <= old(self).y1,
        ensures
            final(self).value == old(self).value,
            final(self).x0 == old(self).x0 && final(self).x1 == old(self).x1,
            final(self).y0 == old(self).y0 && final(self).y1 == old(self).y1,
            final(self).children matches Some(c)
                && old(self).is_fresh_quadrants(*c, tl_cat, tr_cat, bl_cat, br_cat),
    {
        let mx = self.mid_x();
        let my = self.mid_y();
        let tl = VisualizerNode {
            value: tl_cat,
            x0: self.x0,
            x1: mx,
            y0: my,
            y1: self.y1,
            children: None,
        };
        let tr = VisualizerNode {
            value: tr_cat,
            x0: mx,
            x1: self.x1,
            y0: my,
            y1: self.y1,
            children: None,
        };
        let bl = VisualizerNode {
            value: bl_cat,
            x0: self.x0,
            x1: mx,
            y0: self.y0,
            y1: my,
            children: None,
        };
        let br = VisualizerNode {
            value: br_cat,
            x0: mx,
            x1: self.x1,
            y0: self.y0,
            y1: my,
            children: None,
        };
        self.children = Some(Box::new(Quadrants { tl, tr, bl, br }));
    }

    /// Does the node and its whole subtree carry category `v`?
    pub fn self_and_descendants_are(&self, v: u8) -> (r: bool)
        ensures
            r == self.uniform(v),
        decreases *self,
    {
        if self.value != v {
            return false;
        }
        match &self.children {
            None => true,
            Some(c) => {
                c.tl.self_and_descendants_are(v) && c.tr.self_and_descendants_are(v)
                    && c.bl.self_and_descendants_are(v) && c.br.self_and_descendants_are(v)
            },
        }
    }
}

impl VisualizerNode {
    /// All nodes exactly `level` quadtree edges below this one, in
    /// traversal order; branches not built down to that level contribute
    /// nothing.
    pub open spec fn spec_level_nodes(self, level: nat) -> Seq<VisualizerNode>
        decreases self,
    {
        if level == 0 {
            seq![self]
        } else {
            match self.children {
                None => Seq::empty(),
                Some(c) => c.tl.spec_level_nodes((level - 1) as nat) + c.tr.spec_level_nodes(
                    (level - 1) as nat,
                ) + c.bl.spec_level_nodes((level - 1) as nat) + c.br.spec_level_nodes(
                    (level - 1) as nat,
                ),
            }
        }
    }

    /// A structurally equal copy of the subtree.
    pub fn deep_clone(&self) -> (r: Self)
        ensures
            r == *self,
        decreases *self,
    {
        match &self.children {
            None => {
                let r = VisualizerNode {
                    value: self.value,
                    x0: self.x0,
                    x1: self.x1,
                    y0: self.y0,
                    y1: self.y1,
                    children: None,
                };
                proof {
                    assert(r =~= *self);
                }
                r
            },
            Some(c) => {
                let q = Quadrants {
                    tl: c.tl.deep_clone(),
                    tr: c.tr.deep_clone(),
                    bl: c.bl.deep_clone(),
                    br: c.br.deep_clone(),
                };
                proof {
                    assert(q =~= **c);
                }
                let r = VisualizerNode {
                    value: self.value,
                    x0: self.x0,
                    x1: self.x1,
                    y0: self.y0,
                    y1: self.y1,
                    children: Some(Box::new(q)),
                };
                proof {
                    assert(r =~= *self);
                }
                r
            },
        }
    }

    /// Copies of all nodes exactly `level` edges below this one. Used to
    /// gather the cells of one refinement level; a branch that was never
    /// built (or was simplified away) below the requested level simply
    /// contributes nothing.
    pub fn level_nodes(&self, level: usize) -> (r: Vec<VisualizerNode>)
        ensures
            r@ == self.spec_level_nodes(level as nat),
        decreases *self,
    {
        if level == 0 {
            let mut v: Vec<VisualizerNode> = Vec::new();
            v.push(self.deep_clone());
            proof {
                assert(v@ =~= self.spec_level_nodes(level as nat));
            }
            v
        } else {
            match &self.children {
                None => {
                    let v: Vec<VisualizerNode> = Vec::new();
                    proof {
                        assert(v@ =~= self.spec_level_nodes(level as nat));
                    }
                    v
                },
                Some(c) => {
                    let mut v = c.tl.level_nodes(level - 1);
                    let mut v1 = c.tr.level_nodes(level - 1);
                    let mut v2 = c.bl.level_nodes(level - 1);
                    let mut v3 = c.br.level_nodes(level - 1);
                    v.append(&mut v1);
                    v.append(&mut v2);
                    v.append(&mut v3);
                    proof {
                        assert(v@ =~= self.spec_level_nodes(level as nat));
                    }
                    v
                },
            }
        }
    }

    /// In a tree that faithfully records `f`, every leaf's stored
    /// category is `f` at that leaf's own center.
    pub proof fn lemma_leaves_matched(self, f: spec_fn(int, int) -> u8)
        requires
            self.value_matched(f),
        ensures
            forall|i: int|
                0 <= i < self.leaves().len() ==> (#[trigger] self.leaves()[i]).value == f(
                    self.leaves()[i].spec_mid_x(),
                    self.leaves()[i].spec_mid_y(),
                ),
        decreases self,
    {
        match self.children {
            None => {},
            Some(c) => {
                c.tl.lemma_leaves_matched(f);
                c.tr.lemma_leaves_matched(f);
                c.bl.lemma_leaves_matched(f);
                c.br.lemma_leaves_matched(f);
                let n0 = c.tl.leaves().len() as int;
                let n1 = c.tr.leaves().len() as int;
                let n2 = c.bl.leaves().len() as int;
                assert forall|i: int|
                    0 <= i < self.leaves().len() implies (#[trigger] self.leaves()[i]).value == f(
                    self.leaves()[i].spec_mid_x(),
                    self.leaves()[i].spec_mid_y(),
                ) by {
                    if i < n0 {
                        assert(self.leaves()[i] == c.tl.leaves()[i]);
                    } else if i < n0 + n1 {
                        assert(self.leaves()[i] == c.tr.leaves()[i - n0]);
                    } else if i < n0 + n1 + n2 {
                        assert(self.leaves()[i] == c.bl.leaves()[i - n0 - n1]);
                    } else {
                        assert(self.leaves()[i] == c.br.leaves()[i - n0 - n1 - n2]);
                    }
                }
            },
        }
    }

    /// A subtree that is uniform in `v` shows `v` wherever the descent
    /// ends, so collapsing it cannot change any displayed category.
    pub proof fn lemma_uniform_cat(self, v: u8, x: int, y: int)
        requires
            self.uniform(v),
        ensures
            self.cat_at(x, y) == v,
        decreases self,
    {
        match self.children {
            None => {},
            Some(c) => {
                c.tl.lemma_uniform_cat(v, x, y);
                c.tr.lemma_uniform_cat(v, x, y);
                c.bl.lemma_uniform_cat(v, x, y);
                c.br.lemma_uniform_cat(v, x, y);
            },
        }
    }

    /// Collapse every subtree whose nodes all share one category back into
    /// a single leaf, bottom up. This is purely structural: the cell
    /// bounds, the node's own category, uniformity, and the category shown
    /// at every point are unchanged, and running it a second time changes
    /// nothing at all.
    pub fn simplify(&mut self)
        ensures
            final(self).value == old(self).value,
            final(self).x0 == old(self).x0 && final(self).x1 == old(self).x1,
            final(self).y0 == old(self).y0 && final(self).y1 == old(self).y1,
            final(self).is_leaf() || !old(self).is_leaf(),
            old(self).wf() ==> final(self).wf(),
            old(self).pixel_aligned() ==> final(self).pixel_aligned(),
            forall|v: u8| final(self).uniform(v) == old(self).uniform(v),
            forall|s: int| old(self).sided(s) ==> final(self).sided(s),
            forall|f: spec_fn(int, int) -> u8|
                old(self).value_matched(f) ==> final(self).value_matched(f),
            forall|x: int, y: int| final(self).cat_at(x, y) == old(self).cat_at(x, y),
            final(self).fully_simplified(),
            old(self).fully_simplified() ==> *final(self) == *old(self),
        decreases *old(self),
    {
        let children = self.children.take();
        match children {
            None => {
                proof {
                    assert(*self =~= *old(self));
                }
            },
            Some(b) => {
                let mut q: Quadrants = *b;
                q.tl.simplify();
                q.tr.simplify();
                q.bl.simplify();
                q.br.simplify();
                let v = self.value;
                let all = q.tl.self_and_descendants_are(v) && q.tr.self_and_descendants_are(v)
                    && q.bl.self_and_descendants_are(v) && q.br.self_and_descendants_are(v);
                if all {
                    proof {
                        assert(old(self).uniform(v));
                        assert forall|x: int, y: int|
                            self.cat_at(x, y) == old(self).cat_at(x, y) by {
                            old(self).lemma_uniform_cat(v, x, y);
                        }
                    }
                } else {
                    self.children = Some(Box::new(q));
                    proof {
                        assert(old(self).fully_simplified() ==> *self =~= *old(self));
                        let c0 = old(self).children.unwrap();
                        assert forall|s: int| old(self).sided(s) implies self.sided(s) by {
                            assert(c0.tl.sided(s / 2) && c0.tr.sided(s / 2) && c0.bl.sided(s / 2)
                                && c0.br.sided(s / 2));
                            assert(q.tl.sided(s / 2) && q.tr.sided(s / 2) && q.bl.sided(s / 2)
                                && q.br.sided(s / 2));
                        }
                        assert forall|f: spec_fn(int, int) -> u8|
                            old(self).value_matched(f) implies self.value_matched(f) by {
                            assert(c0.tl.value_matched(f) && c0.tr.value_matched(f)
                                && c0.bl.value_matched(f) && c0.br.value_matched(f));
                            assert(q.tl.value_matched(f) && q.tr.value_matched(f)
                                && q.bl.value_matched(f) && q.br.value_matched(f));
                        }
                        assert forall|x: int, y: int|
                            self.cat_at(x, y) == old(self).cat_at(x, y) by {
                            assert(self.children matches Some(c) && *c == q);
                            assert(q.tl.cat_at(x, y) == c0.tl.cat_at(x, y));
                            assert(q.tr.cat_at(x, y) == c0.tr.cat_at(x, y));
                            assert(q.bl.cat_at(x, y) == c0.bl.cat_at(x, y));
                            assert(q.br.cat_at(x, y) == c0.br.cat_at(x, y));
                        }
                    }
                }
            },
        }
    }
}

impl Default for VisualizerNode {
    /// A placeholder cell: unset category, empty ranges, no children.
    fn default() -> (r: Self)
        ensures
            r == (VisualizerNode {
                value: UNSET_CATEGORY,
                x0: 0u64,
                x1: 0u64,
                y0: 0u64,
                y1: 0u64,
                children: None,
            }),
    {
        VisualizerNode { value: UNSET_CATEGORY, x0: 0, x1: 0, y0: 0, y1: 0, children: None }
    }
}

} // verus!
