//! Soundness of the corner-sampling heuristic for stair-step classifiers.
//!
//! The refinement engine leaves a cell alone when the classifier agrees
//! with the cell's center category at all four corners. That is a
//! heuristic, not a guarantee: a classifier with structure finer than the
//! cell (a thin diagonal band, say) can evade four corner probes. For the
//! family of stair-step classifiers — constant on either side of a single
//! vertical threshold — the heuristic is exact, and the lemma below proves
//! it: corner agreement means the whole cell is on one side of the step,
//! so no subcell's center can ever disagree.

use vstd::prelude::*;

use crate::engine::GenerationRun;
use crate::engine::Phase;
use crate::node::VisualizerNode;

verus! {

/// A stair-step classifier: category 0 strictly left of the threshold,
/// category 1 at and right of it.
pub open spec fn step_class(threshold: int, x: int, y: int) -> u8 {
    if x < threshold {
        0
    } else {
        1
    }
}

/// Corner-heuristic soundness for stair-step classifiers: if the step
/// classifier returns the cell's own category at all four corners — the
/// exact condition `corners_are_identical` tests — then it returns that
/// category at every point of the cell, in particular at the center of
/// any cell that subdividing further could create.
pub proof fn lemma_corner_heuristic_step(threshold: int, n: VisualizerNode, x: int, y: int)
    requires
        n.x0 <= x <= n.x1,
        n.y0 <= y <= n.y1,
        step_class(threshold, n.x0 as int, n.y0 as int) == n.value,
        step_class(threshold, n.x0 as int, n.y1 as int) == n.value,
        step_class(threshold, n.x1 as int, n.y1 as int) == n.value,
        step_class(threshold, n.x1 as int, n.y0 as int) == n.value,
    ensures
        step_class(threshold, x, y) == n.value,
{
}

/// The step classifier as an answer function over sample points.
pub open spec fn step_fn(threshold: int) -> spec_fn(int, int) -> u8 {
    |x: int, y: int| step_class(threshold, x, y)
}

/// The layout a run consistent with a stair-step classifier shows, once
/// the root has been evaluated: every leaf lying entirely left of the
/// threshold stores category 0, every leaf lying entirely at or right of
/// it stores category 1 — whatever shape the refinement took.
pub proof fn lemma_step_run_leaf_categories(run: GenerationRun, threshold: int)
    requires
        run.inv(),
        !(run.phase is Init),
        run.consistent_with(step_fn(threshold)),
    ensures
        forall|i: int|
            0 <= i < run.tree.leaves().len() ==> {
                let l = #[trigger] run.tree.leaves()[i];
                &&& (l.x1 <= threshold ==> l.value == 0)
                &&& (l.x0 >= threshold ==> l.value == 1)
            },
{
    let f = step_fn(threshold);
    run.tree.lemma_leaves_matched(f);
    run.tree.lemma_leaves_within();
    assert forall|i: int|
        0 <= i < run.tree.leaves().len() implies {
        let l = #[trigger] run.tree.leaves()[i];
        &&& (l.x1 <= threshold ==> l.value == 0)
        &&& (l.x0 >= threshold ==> l.value == 1)
    } by {
        let l = run.tree.leaves()[i];
        assert(l.value == f(l.spec_mid_x(), l.spec_mid_y()));
        assert(l.x0 <= l.spec_mid_x() < l.x1);
    }
}

} // verus!
