//! The refinement engine of one generation.
//!
//! A generation run is a step machine: it publishes the sample points it
//! needs next (`pending_samples`), the embedding evaluates the classifier
//! there — on whatever thread pool it likes — and hands the categories
//! back (`advance`). The run first builds the mandatory base grid down to
//! `min_levels`, collapses uniform regions, then walks the whole tree
//! level by level from the root up to `max_levels`, probing the four
//! corners of every current leaf and subdividing exactly those leaves
//! whose corners disagree with their center — so a region that collapsed
//! as uniform is probed again and can re-split if its corners disagree.
//! Each `advance` is also a cancellation checkpoint: the embedding simply
//! stops advancing a run whose generation token has gone stale.

use vstd::prelude::*;

use crate::Status;
use crate::arith::exec_two_pow;
use crate::arith::four_pow;
use crate::arith::lemma_four_pow_is_square;
use crate::arith::lemma_four_pow_mono;
use crate::arith::lemma_two_pow_adds;
use crate::arith::lemma_two_pow_mono;
use crate::arith::lemma_two_pow_pos;
use crate::arith::two_pow;
use crate::config::LEVEL_LIMIT;
use crate::config::ViewerConfig;
use crate::node::UNSET_CATEGORY;
use crate::node::VisualizerNode;
use crate::paths::expand_at;
use crate::paths::leaf_paths;
use crate::paths::wl_distinct;
use crate::paths::wl_entries_ok;

verus! {

/// A grid point at which the embedding must evaluate the classifier,
/// in sample units of the current generation.
#[derive(Copy, Clone, Debug, PartialEq, Eq, Structural)]
pub struct SamplePoint {
    pub x: u64,
    pub y: u64,
}

/// Where one generation's computation currently stands.
#[derive(Copy, Clone, Debug, PartialEq, Eq, Structural)]
pub enum Phase {
    /// The root's center sample is pending.
    Init,
    /// Unconditional subdivision: the leaf on top of the worklist, at
    /// depth `level` below `min_levels`, is about to receive children.
    Base { level: usize },
    /// Adaptive refinement: the four corners of the leaf on top of the
    /// worklist are pending.
    Corners { level: usize },
    /// The corner probe disagreed with the center: the four child center
    /// samples for the leaf on top of the worklist are pending.
    Expand { level: usize },
    /// Every level up to `max_levels` is complete.
    Done,
}

/// The supplied categories are exactly `f` evaluated at the pending
/// sample points, in order.
pub open spec fn cats_match(
    f: spec_fn(int, int) -> u8,
    pts: Seq<SamplePoint>,
    cats: Seq<u8>,
) -> bool {
    forall|i: int| 0 <= i < pts.len() ==> cats[i] == f(pts[i].x as int, pts[i].y as int)
}

/// Midpoint of a half-open span.
pub open spec fn mid_val(a: int, b: int) -> int {
    a + (b - a) / 2
}

/// The center sample point of a cell.
pub open spec fn spec_center(n: VisualizerNode) -> SamplePoint {
    SamplePoint { x: n.spec_mid_x() as u64, y: n.spec_mid_y() as u64 }
}

/// The four corner sample points of a cell: bottom left, top left,
/// top right, bottom right.
pub open spec fn spec_corners(n: VisualizerNode) -> Seq<SamplePoint> {
    seq![
        SamplePoint { x: n.x0, y: n.y0 },
        SamplePoint { x: n.x0, y: n.y1 },
        SamplePoint { x: n.x1, y: n.y1 },
        SamplePoint { x: n.x1, y: n.y0 },
    ]
}

/// The center sample points of the four children a subdivision of this
/// cell would create: top left, top right, bottom left, bottom right.
pub open spec fn spec_quad_centers(n: VisualizerNode) -> Seq<SamplePoint> {
    let mx = n.spec_mid_x();
    let my = n.spec_mid_y();
    let lx = mid_val(n.x0 as int, mx);
    let rx = mid_val(mx, n.x1 as int);
    let by = mid_val(n.y0 as int, my);
    let ty = mid_val(my, n.y1 as int);
    seq![
        SamplePoint { x: lx as u64, y: ty as u64 },
        SamplePoint { x: rx as u64, y: ty as u64 },
        SamplePoint { x: lx as u64, y: by as u64 },
        SamplePoint { x: rx as u64, y: by as u64 },
    ]
}

/// One generation's computation state.
pub struct GenerationRun {
    /// The tree built so far; always well formed, so its leaves tile the
    /// configured square at every moment.
    pub tree: VisualizerNode,
    /// Depth to which every cell is subdivided unconditionally.
    pub min_levels: usize,
    /// Hard refinement ceiling.
    pub max_levels: usize,
    /// Side of the root cell in sample units: `2^(max_levels + 1)`.
    pub side: u64,
    /// Paths of the leaves of the current level still to be processed.
    pub worklist: Vec<Vec<u8>>,
    pub phase: Phase,
    /// Cells evaluated for the mandatory base grid.
    pub base_done: usize,
    /// Cells evaluated by adaptive refinement beyond the base grid.
    pub extra_done: usize,
    /// Number of fully published levels (1 once the root is drawn).
    pub level_done: usize,
}

impl GenerationRun {
    /// The run has finished every level up to `max_levels`.
    pub open spec fn spec_done(self) -> bool {
        self.phase is Done
    }

    /// What `level_done` reads while level `level` is being processed.
    pub open spec fn level_done_at(level: int) -> int {
        if level == 0 {
            1
        } else {
            level
        }
    }

    /// Internal consistency of the run; established by `new` and kept by
    /// every `advance`.
    pub open spec fn inv(self) -> bool {
        &&& self.min_levels <= self.max_levels <= LEVEL_LIMIT
        &&& self.side == two_pow((self.max_levels + 1) as nat)
        &&& self.tree.x0 == 0 && self.tree.y0 == 0
        &&& self.tree.wf()
        &&& self.tree.sided(self.side as int)
        &&& self.tree.pixel_aligned()
        &&& self.base_done <= four_pow(self.min_levels as nat)
        &&& self.extra_done <= 2 * four_pow(self.max_levels as nat)
        &&& match self.phase {
            Phase::Init => {
                &&& self.tree.is_leaf()
                &&& self.worklist@.len() == 0
                &&& self.base_done == 0 && self.extra_done == 0 && self.level_done == 0
            },
            Phase::Base { level } => {
                &&& (level as int) < self.min_levels
                &&& self.worklist@.len() > 0
                &&& wl_entries_ok(self.tree, self.worklist@, level as nat)
                &&& wl_distinct(self.worklist@)
                &&& self.extra_done == 0
                &&& if level as int + 1 == self.min_levels {
                    self.base_done + 4 * self.worklist@.len() <= four_pow(self.min_levels as nat)
                } else {
                    self.base_done == 0
                }
                &&& self.level_done == 1
            },
            Phase::Corners { level } => self.adaptive_inv(level as int),
            Phase::Expand { level } => self.adaptive_inv(level as int),
            Phase::Done => {
                &&& self.worklist@.len() == 0
                &&& self.level_done == if self.max_levels == 0 {
                    1int
                } else {
                    self.max_levels as int
                }
            },
        }
    }

    /// The part of the invariant shared by the two adaptive sub-phases.
    pub open spec fn adaptive_inv(self, level: int) -> bool {
        &&& 0 <= level < self.max_levels
        &&& self.worklist@.len() > 0
        &&& wl_entries_ok(self.tree, self.worklist@, level as nat)
        &&& wl_distinct(self.worklist@)
        &&& self.extra_done + 4 * self.worklist@.len() <= 2 * four_pow((level + 1) as nat)
        &&& self.level_done == Self::level_done_at(level)
    }

    /// The sample points the embedding must answer before the run can take
    /// its next step. Empty exactly when the run is done.
    pub open spec fn spec_pending(self) -> Seq<SamplePoint> {
        match self.phase {
            Phase::Init => seq![spec_center(self.tree)],
            Phase::Base { .. } => spec_quad_centers(self.tree.node_at(self.worklist@.last()@)),
            Phase::Corners { .. } => spec_corners(self.tree.node_at(self.worklist@.last()@)),
            Phase::Expand { .. } => spec_quad_centers(self.tree.node_at(self.worklist@.last()@)),
            Phase::Done => Seq::empty(),
        }
    }

    /// The run's tree is a faithful record of the answer function `f`:
    /// every cell's stored category is `f` at that cell's center. Before
    /// the root has been evaluated this holds trivially.
    pub open spec fn consistent_with(self, f: spec_fn(int, int) -> u8) -> bool {
        self.phase is Init || self.tree.value_matched(f)
    }

    /// Start a fresh run for a normalized configuration: a single unset
    /// root cell covering the whole sample square, both progress counters
    /// at zero.
    pub fn new(config: &ViewerConfig) -> (r: Self)
        requires
            config.wf(),
        ensures
            r.inv(),
            r.min_levels == config.min_levels,
            r.max_levels == config.max_levels,
            r.base_done == 0 && r.extra_done == 0 && r.level_done == 0,
            r.phase is Init,
            !r.spec_done(),
            forall|f: spec_fn(int, int) -> u8| r.consistent_with(f),
    {
        let side = exec_two_pow(config.max_levels + 1);
        proof {
            lemma_two_pow_pos((config.max_levels + 1) as nat);
            lemma_two_pow_pos(config.max_levels as nat);
            assert(side == 2 * two_pow(config.max_levels as nat));
        }
        let tree = VisualizerNode {
            value: UNSET_CATEGORY,
            x0: 0,
            x1: side,
            y0: 0,
            y1: side,
            children: None,
        };
        GenerationRun {
            tree,
            min_levels: config.min_levels,
            max_levels: config.max_levels,
            side,
            worklist: Vec::new(),
            phase: Phase::Init,
            base_done: 0,
            extra_done: 0,
            level_done: 0,
        }
    }

    /// Is the run complete?
    pub fn is_done(&self) -> (r: bool)
        ensures
            r == self.spec_done(),
    {
        match self.phase {
            Phase::Done => true,
            _ => false,
        }
    }

    /// Number of cells the mandatory base grid will evaluate in total.
    pub fn base_cells_target(&self) -> (t: usize)
        requires
            self.inv(),
        ensures
            t == four_pow(self.min_levels as nat),
    {
        let s = exec_two_pow(self.min_levels);
        proof {
            lemma_two_pow_mono(self.min_levels as nat, 15);
            crate::arith::lemma_two_pow_15();
            lemma_four_pow_is_square(self.min_levels as nat);
            assert(s * s <= 0x4000_0000) by (nonlinear_arith)
                requires 0 <= s <= 32768,
            ;
        }
        (s * s) as usize
    }

    /// Momentary progress snapshot: published levels and total cells
    /// evaluated so far.
    pub fn status(&self) -> (s: Status)
        requires
            self.inv(),
        ensures
            s.current_level == self.level_done,
            s.quads_evaluated == self.base_done + self.extra_done,
    {
        proof {
            self.lemma_counters_small();
        }
        Status {
            current_level: self.level_done,
            quads_evaluated: self.base_done + self.extra_done,
        }
    }

    /// Both counters stay far below `usize::MAX`.
    pub proof fn lemma_counters_small(self)
        requires
            self.inv(),
        ensures
            self.base_done + self.extra_done < 0x1_0000_0000,
    {
        lemma_four_pow_mono(self.min_levels as nat, 15);
        lemma_four_pow_mono(self.max_levels as nat, 15);
        crate::arith::lemma_four_pow_15();
    }

    /// The sample points to answer next, in a fixed order (see
    /// `spec_pending`).
    pub fn pending_samples(&self) -> (r: Vec<SamplePoint>)
        requires
            self.inv(),
        ensures
            r@ == self.spec_pending(),
            r@.len() == 0 <==> self.spec_done(),
    {
        let mut r: Vec<SamplePoint> = Vec::new();
        match self.phase {
            Phase::Init => {
                r.push(SamplePoint { x: self.tree.mid_x(), y: self.tree.mid_y() });
                proof {
                    assert(r@ =~= self.spec_pending());
                }
            },
            Phase::Base { level } => {
                self.push_quad_centers(&mut r, level);
            },
            Phase::Expand { level } => {
                self.push_quad_centers(&mut r, level);
            },
            Phase::Corners { level: _ } => {
                let p = &self.worklist[self.worklist.len() - 1];
                proof {
                    assert(self.worklist@.last() == self.worklist@[self.worklist@.len() - 1]);
                }
                proof {
                    assert(p@.skip(0) =~= p@);
                }
                let n = node_ref_at(&self.tree, p, 0);
                r.push(SamplePoint { x: n.x0, y: n.y0 });
                r.push(SamplePoint { x: n.x0, y: n.y1 });
                r.push(SamplePoint { x: n.x1, y: n.y1 });
                r.push(SamplePoint { x: n.x1, y: n.y0 });
                proof {
                    assert(r@ =~= self.spec_pending());
                }
            },
            Phase::Done => {
                proof {
                    assert(r@ =~= self.spec_pending());
                }
            },
        }
        r
    }

    /// Append the four child center points of the leaf on top of the
    /// worklist.
    fn push_quad_centers(&self, r: &mut Vec<SamplePoint>, level: usize)
        requires
            self.inv(),
            self.phase == (Phase::Base { level }) || self.phase == (Phase::Expand { level }),
            old(r)@.len() == 0,
        ensures
            final(r)@ == self.spec_pending(),
    {
        let p = &self.worklist[self.worklist.len() - 1];
        proof {
            assert(self.worklist@.last() == self.worklist@[self.worklist@.len() - 1]);
        }
        proof {
            assert(p@.skip(0) =~= p@);
            self.tree.lemma_node_at_wf(p@);
        }
        let n = node_ref_at(&self.tree, p, 0);
        let mx = n.mid_x();
        let my = n.mid_y();
        let lx = n.x0 + (mx - n.x0) / 2;
        let rx = mx + (n.x1 - mx) / 2;
        let by = n.y0 + (my - n.y0) / 2;
        let ty = my + (n.y1 - my) / 2;
        r.push(SamplePoint { x: lx, y: ty });
        r.push(SamplePoint { x: rx, y: ty });
        r.push(SamplePoint { x: lx, y: by });
        r.push(SamplePoint { x: rx, y: by });
        proof {
            assert(final(r)@ =~= self.spec_pending());
        }
    }
}

impl GenerationRun {
    /// Hand the run the categories for its pending sample points, in the
    /// published order, and let it take one step: evaluate the root, give
    /// one cell its children, or decide from a corner probe whether a
    /// cell needs refining. Progress counters never decrease; a run whose
    /// configuration needs no work at all (`min_levels == max_levels == 0`)
    /// is done after the single root evaluation.
    pub fn advance(&mut self, cats: &Vec<u8>)
        requires
            old(self).inv(),
            !old(self).spec_done(),
            cats@.len() == old(self).spec_pending().len(),
        ensures
            final(self).inv(),
            final(self).min_levels == old(self).min_levels,
            final(self).max_levels == old(self).max_levels,
            final(self).side == old(self).side,
            final(self).base_done >= old(self).base_done,
            final(self).extra_done >= old(self).extra_done,
            final(self).level_done >= old(self).level_done,
            old(self).phase is Init ==> ({
                &&& final(self).tree == (VisualizerNode { value: cats@[0], ..old(self).tree })
                &&& final(self).level_done == 1
                &&& final(self).base_done == if old(self).min_levels == 0 {
                    1int
                } else {
                    0int
                }
                &&& final(self).extra_done == 0
                &&& (old(self).min_levels == 0 && old(self).max_levels == 0 ==> final(self).spec_done())
            }),
            (old(self).phase matches Phase::Base { level } ==> ({
                &&& final(self).extra_done == 0
                &&& final(self).base_done == old(self).base_done + if level as int + 1 == old(
                    self,
                ).min_levels {
                    4int
                } else {
                    0int
                }
                &&& exists|mid: VisualizerNode|
                    {
                        &&& #[trigger] old(self).tree.expanded_at(
                            mid,
                            old(self).worklist@.last()@,
                            cats@[0],
                            cats@[1],
                            cats@[2],
                            cats@[3],
                        )
                        &&& forall|x: int, y: int| final(self).tree.cat_at(x, y) == mid.cat_at(x, y)
                    }
                &&& (level as int + 1 < old(self).min_levels || old(self).worklist@.len() > 1
                    ==> old(self).tree.expanded_at(
                    final(self).tree,
                    old(self).worklist@.last()@,
                    cats@[0],
                    cats@[1],
                    cats@[2],
                    cats@[3],
                ))
            })),
            (old(self).phase matches Phase::Corners { level } ==> ({
                &&& final(self).tree == old(self).tree
                &&& final(self).base_done == old(self).base_done
                &&& final(self).extra_done == old(self).extra_done
                &&& ({
                    let n = old(self).tree.node_at(old(self).worklist@.last()@);
                    if cats@[0] == n.value && cats@[1] == n.value && cats@[2] == n.value
                        && cats@[3] == n.value {
                        // The converged leaf is retired from the worklist.
                        final(self).worklist@.len() < old(self).worklist@.len()
                            || final(self).phase != old(self).phase
                    } else {
                        final(self).phase == (Phase::Expand { level }) && final(self).worklist
                            == old(self).worklist
                    }
                })
            })),
            (old(self).phase matches Phase::Expand { level } ==> ({
                &&& final(self).base_done == old(self).base_done
                &&& final(self).extra_done == old(self).extra_done + 4
                &&& old(self).tree.expanded_at(
                    final(self).tree,
                    old(self).worklist@.last()@,
                    cats@[0],
                    cats@[1],
                    cats@[2],
                    cats@[3],
                )
            })),
    {
        let ph = self.phase;
        match ph {
            Phase::Done => {
                proof {
                    assert(false);
                }
            },
            Phase::Init => {
                let ghost t_pre = self.tree;
                self.tree.gen_value(cats[0]);
                proof {
                    assert forall|f: spec_fn(int, int) -> u8|
                        cats_match(f, old(self).spec_pending(), cats@) implies self
                        .tree.value_matched(f) by {
                        let c = spec_center(t_pre);
                        assert(cats@[0] == f(c.x as int, c.y as int));
                        assert(t_pre.x0 <= t_pre.spec_mid_x() <= t_pre.x1);
                        assert(t_pre.y0 <= t_pre.spec_mid_y() <= t_pre.y1);
                    }
                }
                self.level_done = 1;
                if self.min_levels == 0 {
                    self.base_done = 1;
                    proof {
                        crate::arith::lemma_four_pow_pos(0);
                        crate::arith::lemma_four_pow_pos(self.max_levels as nat);
                    }
                    self.enter_adaptive(0);
                } else {
                    let mut wl: Vec<Vec<u8>> = Vec::new();
                    let root_path: Vec<u8> = Vec::new();
                    wl.push(root_path);
                    self.worklist = wl;
                    self.phase = Phase::Base { level: 0 };
                    proof {
                        assert(self.worklist@[0]@ =~= Seq::<u8>::empty());
                        assert(self.tree.path_valid(self.worklist@[0]@));
                        assert(self.tree.node_at(self.worklist@[0]@) == self.tree);
                        if self.min_levels == 1 {
                            assert(four_pow(1) == 4 * four_pow(0));
                        }
                    }
                }
            },
            Phase::Base { level } => {
                let ghost t0 = self.tree;
                let ghost wl0 = self.worklist@;
                let p = self.worklist.pop().unwrap();
                proof {
                    assert(wl0[wl0.len() - 1] == p);
                    assert(p@.skip(0) =~= p@);
                }
                expand_at(&mut self.tree, &p, 0, cats[0], cats[1], cats[2], cats[3]);
                let ghost t_mid = self.tree;
                proof {
                    self.lemma_after_expand(t0, wl0, p, level, cats@[0], cats@[1], cats@[2], cats@[3]);
                }
                if level + 1 == self.min_levels {
                    proof {
                        lemma_four_pow_mono(self.min_levels as nat, 15);
                        crate::arith::lemma_four_pow_15();
                    }
                    self.base_done = self.base_done + 4;
                }
                if self.worklist.len() == 0 {
                    if level + 1 < self.min_levels {
                        proof {
                            self.lemma_fresh_child_leaf(t0, p, level, cats@[0], cats@[1], cats@[2], cats@[3]);
                        }
                        let wl = leaf_paths(&self.tree, level + 1);
                        proof {
                            assert(crate::paths::wl_contains(wl@, p@.push(0)));
                            assert(four_pow((level + 2) as nat) == 4 * four_pow((level + 1) as nat));
                        }
                        self.worklist = wl;
                        self.phase = Phase::Base { level: level + 1 };
                    } else {
                        self.tree.simplify();
                        proof {
                            crate::arith::lemma_four_pow_pos(0);
                        }
                        self.enter_adaptive(0);
                        proof {
                            assert(old(self).tree.expanded_at(
                                t_mid,
                                old(self).worklist@.last()@,
                                cats@[0],
                                cats@[1],
                                cats@[2],
                                cats@[3],
                            ));
                        }
                    }
                }
                proof {
                    self.lemma_step_keeps_consistency(t0, t_mid, p@, cats@);
                }
            },
            Phase::Corners { level } => {
                let last: usize = self.worklist.len() - 1;
                let p_ref = &self.worklist[last];
                proof {
                    assert(self.worklist@.last() == self.worklist@[last as int]);
                    assert(p_ref@.skip(0) =~= p_ref@);
                }
                let n_ref = node_ref_at(&self.tree, p_ref, 0);
                let agree = n_ref.corners_are_identical(cats[0], cats[1], cats[2], cats[3]);
                if agree {
                    let ghost wl0 = self.worklist@;
                    let _popped = self.worklist.pop();
                    proof {
                        assert forall|j: int| 0 <= j < self.worklist@.len() implies (
                        #[trigger] self.worklist@[j])@.len() == level as nat
                            && self.tree.path_valid(self.worklist@[j]@) && self.tree.node_at(
                            self.worklist@[j]@,
                        ).is_leaf() by {
                            assert(self.worklist@[j] == wl0[j]);
                        }
                        assert forall|j: int, k: int|
                            0 <= j < k < self.worklist@.len() implies self.worklist@[j]@
                            != self.worklist@[k]@ by {
                            assert(self.worklist@[j] == wl0[j] && self.worklist@[k] == wl0[k]);
                        }
                    }
                    if self.worklist.len() == 0 {
                        self.level_done = level + 1;
                        proof {
                            lemma_four_pow_mono((level + 1) as nat, self.max_levels as nat);
                        }
                        self.enter_adaptive(level + 1);
                    }
                } else {
                    self.phase = Phase::Expand { level };
                }
            },
            Phase::Expand { level } => {
                let ghost t0 = self.tree;
                let ghost wl0 = self.worklist@;
                let p = self.worklist.pop().unwrap();
                proof {
                    assert(wl0[wl0.len() - 1] == p);
                    assert(p@.skip(0) =~= p@);
                }
                expand_at(&mut self.tree, &p, 0, cats[0], cats[1], cats[2], cats[3]);
                let ghost t_mid = self.tree;
                proof {
                    self.lemma_after_expand(t0, wl0, p, level, cats@[0], cats@[1], cats@[2], cats@[3]);
                    lemma_four_pow_mono((level + 1) as nat, self.max_levels as nat);
                    lemma_four_pow_mono((level + 1) as nat, 15);
                    crate::arith::lemma_four_pow_15();
                }
                self.extra_done = self.extra_done + 4;
                if self.worklist.len() == 0 {
                    self.level_done = level + 1;
                    proof {
                        lemma_four_pow_mono((level + 1) as nat, self.max_levels as nat);
                    }
                    self.enter_adaptive(level + 1);
                } else {
                    self.phase = Phase::Corners { level };
                }
                proof {
                    self.lemma_step_keeps_consistency(t0, t_mid, p@, cats@);
                }
            },
        }
    }

    /// After one expansion step (and perhaps a simplification pass), a
    /// tree that faithfully recorded `f` and was fed `f`'s values at the
    /// pending quadrant centers still faithfully records `f`.
    proof fn lemma_step_keeps_consistency(
        &self,
        t0: VisualizerNode,
        t_mid: VisualizerNode,
        p: Seq<u8>,
        cats: Seq<u8>,
    )
        requires
            t0.wf(),
            t0.path_valid(p),
            t0.node_at(p).is_leaf(),
            cats.len() == 4,
            t0.expanded_at(t_mid, p, cats[0], cats[1], cats[2], cats[3]),
            forall|f: spec_fn(int, int) -> u8|
                t_mid.value_matched(f) ==> #[trigger] self.tree.value_matched(f),
        ensures
            forall|f: spec_fn(int, int) -> u8|
                t0.value_matched(f) && cats_match(f, spec_quad_centers(t0.node_at(p)), cats)
                    ==> #[trigger] self.tree.value_matched(f),
    {
        let n = t0.node_at(p);
        t0.lemma_node_at_wf(p);
        assert forall|f: spec_fn(int, int) -> u8|
            t0.value_matched(f) && cats_match(f, spec_quad_centers(n), cats) implies #[trigger] self
            .tree.value_matched(f) by {
            Self::lemma_cats_to_centers(n, f, cats);
            t0.lemma_expand_matched(t_mid, p, cats[0], cats[1], cats[2], cats[3], f);
        }
    }

    /// Categories matching the quadrant-center sample points are the
    /// values of `f` at the centers of the four cells a subdivision
    /// creates.
    proof fn lemma_cats_to_centers(
        n: VisualizerNode,
        f: spec_fn(int, int) -> u8,
        cats: Seq<u8>,
    )
        requires
            n.x0 <= n.x1,
            n.y0 <= n.y1,
            cats.len() == 4,
            cats_match(f, spec_quad_centers(n), cats),
        ensures
            ({
                let mx = (n.spec_mid_x() as u64) as int;
                let my = (n.spec_mid_y() as u64) as int;
                let lx = n.x0 + (mx - n.x0) / 2;
                let rx = mx + (n.x1 - mx) / 2;
                let by = n.y0 + (my - n.y0) / 2;
                let ty = my + (n.y1 - my) / 2;
                &&& cats[0] == f(lx, ty)
                &&& cats[1] == f(rx, ty)
                &&& cats[2] == f(lx, by)
                &&& cats[3] == f(rx, by)
            }),
    {
        let pts = spec_quad_centers(n);
        assert(n.x0 <= n.spec_mid_x() <= n.x1);
        assert(n.y0 <= n.spec_mid_y() <= n.y1);
        assert(cats[0] == f(pts[0].x as int, pts[0].y as int));
        assert(cats[1] == f(pts[1].x as int, pts[1].y as int));
        assert(cats[2] == f(pts[2].x as int, pts[2].y as int));
        assert(cats[3] == f(pts[3].x as int, pts[3].y as int));
    }

    /// What one expansion step means to the embedding: the four fresh
    /// children hang below the cell whose quadrant centers were the
    /// pending sample points, each child is a leaf centered on one of
    /// those points in the published order, and it stores exactly the
    /// category that was answered for that point.
    pub proof fn lemma_answers_reach_their_cells(
        t0: VisualizerNode,
        t1: VisualizerNode,
        p: Seq<u8>,
        c0: u8,
        c1: u8,
        c2: u8,
        c3: u8,
    )
        requires
            t0.wf(),
            t0.path_valid(p),
            t0.expanded_at(t1, p, c0, c1, c2, c3),
            t1.node_at(p).children is Some,
            t0.node_at(p).is_fresh_quadrants(
                *t1.node_at(p).children.unwrap(),
                c0,
                c1,
                c2,
                c3,
            ),
        ensures
            ({
                let pts = spec_quad_centers(t0.node_at(p));
                let q = *t1.node_at(p).children.unwrap();
                &&& q.tl.is_leaf() && q.tl.value == c0 && spec_center(q.tl) == pts[0]
                &&& q.tr.is_leaf() && q.tr.value == c1 && spec_center(q.tr) == pts[1]
                &&& q.bl.is_leaf() && q.bl.value == c2 && spec_center(q.bl) == pts[2]
                &&& q.br.is_leaf() && q.br.value == c3 && spec_center(q.br) == pts[3]
            }),
    {
        let n = t0.node_at(p);
        t0.lemma_node_at_wf(p);
        assert(n.x0 <= n.spec_mid_x() <= n.x1);
        assert(n.y0 <= n.spec_mid_y() <= n.y1);
    }

    /// Coverage invariant at the run level: at any moment, even in the
    /// middle of refinement, every point of the configured sample square
    /// lies in exactly one leaf of the run's tree, and that leaf carries
    /// the category the tree shows there.
    pub proof fn lemma_run_coverage(self, x: int, y: int)
        requires
            self.inv(),
            0 <= x < self.side,
            0 <= y < self.side,
        ensures
            0 <= self.tree.leaf_idx(x, y) < self.tree.leaves().len(),
            self.tree.leaves()[self.tree.leaf_idx(x, y)].contains_pt(x, y),
            self.tree.leaves()[self.tree.leaf_idx(x, y)].value == self.tree.cat_at(x, y),
            forall|i: int|
                0 <= i < self.tree.leaves().len() && i != self.tree.leaf_idx(x, y)
                    ==> !(#[trigger] self.tree.leaves()[i]).contains_pt(x, y),
    {
        self.tree.lemma_coverage(x, y);
    }

    /// After popping the last worklist entry and expanding the leaf it led
    /// to: the tree is still well formed and halving, and the remaining
    /// entries still lead to untouched leaves.
    proof fn lemma_after_expand(
        &self,
        t0: VisualizerNode,
        wl0: Seq<Vec<u8>>,
        p: Vec<u8>,
        level: usize,
        c0: u8,
        c1: u8,
        c2: u8,
        c3: u8,
    )
        requires
            self.min_levels <= self.max_levels <= LEVEL_LIMIT,
            self.side == two_pow((self.max_levels + 1) as nat),
            t0.wf(),
            t0.x0 == 0 && t0.y0 == 0,
            t0.sided(self.side as int),
            t0.pixel_aligned(),
            (level as int) < self.max_levels,
            wl0.len() > 0,
            wl_entries_ok(t0, wl0, level as nat),
            wl_distinct(wl0),
            p == wl0.last(),
            self.worklist@ == wl0.drop_last(),
            t0.expanded_at(self.tree, p@, c0, c1, c2, c3),
        ensures
            self.tree.wf(),
            self.tree.x0 == 0 && self.tree.y0 == 0,
            self.tree.sided(self.side as int),
            self.tree.pixel_aligned(),
            wl_entries_ok(self.tree, self.worklist@, level as nat),
            wl_distinct(self.worklist@),
            self.tree.path_valid(p@),
            !self.tree.node_at(p@).is_leaf(),
            self.tree.node_at(p@).children matches Some(c) && t0.node_at(p@).is_fresh_quadrants(
                *c,
                c0,
                c1,
                c2,
                c3,
            ),
    {
        let lev = level as nat;
        let e = ((self.max_levels + 1) - level) as nat;
        let t = two_pow(e);
        lemma_two_pow_adds(e, lev);
        assert(wl0[wl0.len() - 1] == p);
        assert(t0.path_valid(p@) && t0.node_at(p@).is_leaf() && p@.len() == lev);
        assert(t % 4 == 0 && t >= 2) by {
            assert(e >= 2);
            assert(t == 2 * two_pow((e - 1) as nat));
            assert(two_pow((e - 1) as nat) == 2 * two_pow((e - 2) as nat));
            assert(t == 4 * two_pow((e - 2) as nat));
            lemma_two_pow_pos((e - 2) as nat);
        }
        t0.lemma_expand_preserves(self.tree, p@, c0, c1, c2, c3, self.side as int, t as int);
        assert forall|j: int| 0 <= j < self.worklist@.len() implies (#[trigger] self.worklist@[j])@.len()
            == lev && self.tree.path_valid(self.worklist@[j]@) && self.tree.node_at(
            self.worklist@[j]@,
        ).is_leaf() by {
            assert(self.worklist@[j] == wl0[j]);
            assert(wl0[j]@ != p@);
            t0.lemma_expand_frame(self.tree, p@, wl0[j]@, c0, c1, c2, c3);
        }
        assert forall|j: int, k: int|
            0 <= j < k < self.worklist@.len() implies self.worklist@[j]@ != self.worklist@[k]@ by {
            assert(self.worklist@[j] == wl0[j] && self.worklist@[k] == wl0[k]);
        }
    }

    /// The first child just created below `p` is a leaf one level deeper,
    /// so the next base level's worklist cannot be empty.
    proof fn lemma_fresh_child_leaf(
        &self,
        t0: VisualizerNode,
        p: Vec<u8>,
        level: usize,
        c0: u8,
        c1: u8,
        c2: u8,
        c3: u8,
    )
        requires
            self.tree.path_valid(p@),
            p@.len() == level as int,
            !self.tree.node_at(p@).is_leaf(),
            self.tree.node_at(p@).children matches Some(c) && t0.node_at(p@).is_fresh_quadrants(
                *c,
                c0,
                c1,
                c2,
                c3,
            ),
        ensures
            self.tree.path_valid(p@.push(0)),
            p@.push(0).len() == level + 1,
            self.tree.node_at(p@.push(0)).is_leaf(),
    {
        self.tree.lemma_snoc_path(p@, 0);
    }

    /// Look for the next level, from `start_level` up, that still has
    /// leaves to probe; levels without any are complete immediately, and a
    /// start at `max_levels` finishes the run.
    fn enter_adaptive(&mut self, start_level: usize)
        requires
            old(self).min_levels <= old(self).max_levels <= LEVEL_LIMIT,
            old(self).side == two_pow((old(self).max_levels + 1) as nat),
            old(self).tree.x0 == 0 && old(self).tree.y0 == 0,
            old(self).tree.wf(),
            old(self).tree.sided(old(self).side as int),
            old(self).tree.pixel_aligned(),
            start_level <= old(self).max_levels,
            old(self).base_done <= four_pow(old(self).min_levels as nat),
            old(self).extra_done <= 2 * four_pow(start_level as nat),
            old(self).level_done == GenerationRun::level_done_at(start_level as int),
        ensures
            final(self).inv(),
            final(self).tree == old(self).tree,
            final(self).min_levels == old(self).min_levels,
            final(self).max_levels == old(self).max_levels,
            final(self).side == old(self).side,
            final(self).base_done == old(self).base_done,
            final(self).extra_done == old(self).extra_done,
            final(self).level_done >= old(self).level_done,
            start_level == old(self).max_levels ==> final(self).spec_done(),
            start_level == 0 && old(self).tree.is_leaf() ==> final(self).level_done == 1,
            final(self).spec_done() || (final(self).phase matches Phase::Corners { level }
                && level >= start_level),
    {
        let mut lvl = start_level;
        while lvl < self.max_levels
            invariant
                self.min_levels == old(self).min_levels,
                self.max_levels == old(self).max_levels,
                self.side == old(self).side,
                self.tree == old(self).tree,
                self.base_done == old(self).base_done,
                self.extra_done == old(self).extra_done,
                self.min_levels <= self.max_levels <= LEVEL_LIMIT,
                self.side == two_pow((self.max_levels + 1) as nat),
                self.tree.x0 == 0 && self.tree.y0 == 0,
                self.tree.wf(),
                self.tree.sided(self.side as int),
                self.tree.pixel_aligned(),
                self.base_done <= four_pow(self.min_levels as nat),
                start_level <= lvl <= self.max_levels,
                self.extra_done <= 2 * four_pow(lvl as nat),
                self.level_done == GenerationRun::level_done_at(lvl as int),
                self.level_done >= old(self).level_done,
                start_level == 0 && old(self).tree.is_leaf() ==> lvl == 0,
            decreases self.max_levels - lvl,
        {
            let wl = leaf_paths(&self.tree, lvl);
            proof {
                if lvl == 0 && self.tree.is_leaf() {
                    let q = Seq::<u8>::empty();
                    assert(self.tree.node_at(q) == self.tree);
                    assert(crate::paths::wl_contains(wl@, q));
                }
            }
            if wl.len() > 0 {
                self.worklist = wl;
                self.phase = Phase::Corners { level: lvl };
                proof {
                    assert(four_pow((lvl + 1) as nat) == 4 * four_pow(lvl as nat));
                    lemma_four_pow_mono((lvl + 1) as nat, self.max_levels as nat);
                }
                return;
            }
            self.level_done = lvl + 1;
            proof {
                lemma_four_pow_mono(lvl as nat, (lvl + 1) as nat);
            }
            lvl = lvl + 1;
        }
        self.worklist = Vec::new();
        self.phase = Phase::Done;
        proof {
            lemma_four_pow_mono(lvl as nat, self.max_levels as nat);
        }
    }
}

/// Walk down the tree along a path.
fn node_ref_at<'a>(node: &'a VisualizerNode, path: &Vec<u8>, i: usize) -> (r: &'a VisualizerNode)
    requires
        i <= path@.len(),
        node.path_valid(path@.skip(i as int)),
    ensures
        *r == node.node_at(path@.skip(i as int)),
    decreases path@.len() - i,
{
    if i == path.len() {
        node
    } else {
        proof {
            assert(path@.skip(i as int)[0] == path@[i as int]);
            assert(path@.skip(i as int).skip(1) =~= path@.skip(i as int + 1));
        }
        let b: u8 = path[i];
        match &node.children {
            None => {
                proof {
                    assert(false);
                }
                node
            },
            Some(c) => {
                if b == 0 {
                    node_ref_at(&c.tl, path, i + 1)
                } else if b == 1 {
                    node_ref_at(&c.tr, path, i + 1)
                } else if b == 2 {
                    node_ref_at(&c.bl, path, i + 1)
                } else {
                    node_ref_at(&c.br, path, i + 1)
                }
            },
        }
    }
}

} // verus!
