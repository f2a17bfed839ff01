use std::cell::Cell;

use advisory_viewer::config::ViewerConfig;
use advisory_viewer::engine::GenerationRun;
use advisory_viewer::node::VisualizerNode;

fn config(min: usize, max: usize) -> ViewerConfig {
    let mut c = ViewerConfig { output_variants: Vec::new(), min_levels: min, max_levels: max };
    c.normalize();
    c
}

fn run_with<F: Fn(u64, u64) -> u8>(min: usize, max: usize, f: F) -> GenerationRun {
    let c = config(min, max);
    let mut run = GenerationRun::new(&c);
    while !run.is_done() {
        let pts = run.pending_samples();
        let mut answers: Vec<u8> = Vec::new();
        for p in &pts {
            answers.push(f(p.x, p.y));
        }
        run.advance(&answers);
    }
    run
}

fn collect_leaves(n: &VisualizerNode, out: &mut Vec<(u64, u64, u64, u64, u8)>) {
    match &n.children {
        None => out.push((n.x0, n.x1, n.y0, n.y1, n.value)),
        Some(c) => {
            collect_leaves(&c.tl, out);
            collect_leaves(&c.tr, out);
            collect_leaves(&c.bl, out);
            collect_leaves(&c.br, out);
        }
    }
}

/// Degenerate configuration: a single root leaf, the classifier called
/// exactly once, no children ever created.
#[test]
fn degenerate_zero_depth_calls_classifier_once() {
    let calls = Cell::new(0u32);
    let run = run_with(0, 0, |_, _| {
        calls.set(calls.get() + 1);
        42
    });
    assert_eq!(calls.get(), 1);
    assert!(run.tree.children.is_none());
    assert_eq!(run.tree.value, 42);
    let s = run.status();
    assert_eq!(s.current_level, 1);
    assert_eq!(s.quads_evaluated, 1);
    assert_eq!(run.base_cells_target(), 1);
}

/// End-to-end scenario: a stair step at the middle of the x axis with
/// min depth 2 and max depth 4. Cells on one side of the step keep one
/// category, cells touching the step from the left refine down to the
/// maximum depth, and uniform regions collapse to depth 2 or less.
#[test]
fn end_to_end_step_classifier() {
    // side = 2^(4+1) = 32 sample units; x < 0.5 maps to sx < 16.
    let run = run_with(2, 4, |sx, _| if sx < 16 { 0 } else { 1 });
    assert!(run.is_done());
    let mut leaves = Vec::new();
    collect_leaves(&run.tree, &mut leaves);

    let mut area: u64 = 0;
    let mut saw_max_depth_at_step = false;
    for &(x0, x1, y0, y1, v) in &leaves {
        assert_eq!(x1 - x0, y1 - y0);
        area += (x1 - x0) * (y1 - y0);
        // No leaf straddles the step: 16 is always a cell boundary.
        assert!(x1 <= 16 || x0 >= 16);
        if x1 <= 16 {
            assert_eq!(v, 0, "leaf [{x0},{x1})x[{y0},{y1}) left of the step");
        } else {
            assert_eq!(v, 1, "leaf [{x0},{x1})x[{y0},{y1}) right of the step");
        }
        if x1 == 16 {
            // Corner probes at x = 16 disagree with these cells' centers,
            // so they are refined down to max depth (side 2 sample units).
            assert_eq!(x1 - x0, 2);
            saw_max_depth_at_step = true;
        }
        if x0 >= 16 {
            // The uniform right half collapses to depth <= 2.
            assert!(x1 - x0 >= 8);
        }
    }
    assert!(saw_max_depth_at_step);
    // Coverage: the leaves tile the whole 32 x 32 square.
    assert_eq!(area, 32 * 32);
    let s = run.status();
    assert_eq!(s.current_level, 4);
}

/// Coverage invariant, checked pointwise: every sample point of the grid
/// lies in exactly one leaf, at every advance of a refining run.
#[test]
fn coverage_every_point_in_exactly_one_leaf() {
    let c = config(1, 3);
    let mut run = GenerationRun::new(&c);
    let side = 16u64; // 2^(3+1)
    let f = |sx: u64, sy: u64| if sx + sy < 11 { 0 } else { 1 };
    while !run.is_done() {
        let pts = run.pending_samples();
        let answers: Vec<u8> = pts.iter().map(|p| f(p.x, p.y)).collect();
        run.advance(&answers);
        let mut leaves = Vec::new();
        collect_leaves(&run.tree, &mut leaves);
        for x in 0..side {
            for y in 0..side {
                let holders = leaves
                    .iter()
                    .filter(|&&(x0, x1, y0, y1, _)| x0 <= x && x < x1 && y0 <= y && y < y1)
                    .count();
                assert_eq!(holders, 1, "point ({x},{y}) covered {holders} times");
            }
        }
    }
}

/// A uniform classifier collapses the whole base grid back to a single
/// leaf, and the adaptive phase finds its corners in agreement.
#[test]
fn uniform_classifier_collapses_to_root() {
    let run = run_with(3, 5, |_, _| 7);
    let mut leaves = Vec::new();
    collect_leaves(&run.tree, &mut leaves);
    assert_eq!(leaves.len(), 1);
    assert_eq!(leaves[0].4, 7);
    // The base grid was still fully evaluated: 4^3 cells.
    assert_eq!(run.base_cells_target(), 64);
    assert_eq!(run.status().quads_evaluated, 64);
}

/// Both progress counters are non-decreasing for the duration of one
/// generation, and a new run starts from exactly zero.
#[test]
fn progress_counters_monotonic_and_reset() {
    let c = config(2, 4);
    let mut run = GenerationRun::new(&c);
    assert_eq!(run.status().quads_evaluated, 0);
    assert_eq!(run.status().current_level, 0);
    let f = |sx: u64, sy: u64| if (sx / 3 + sy / 5) % 2 == 0 { 0 } else { 1 };
    let mut last_quads = 0usize;
    let mut last_level = 0usize;
    while !run.is_done() {
        let pts = run.pending_samples();
        let answers: Vec<u8> = pts.iter().map(|p| f(p.x, p.y)).collect();
        run.advance(&answers);
        let s = run.status();
        assert!(s.quads_evaluated >= last_quads);
        assert!(s.current_level >= last_level);
        last_quads = s.quads_evaluated;
        last_level = s.current_level;
    }
    // A fresh run resets both counters to exactly zero.
    let run2 = GenerationRun::new(&c);
    assert_eq!(run2.status().quads_evaluated, 0);
    assert_eq!(run2.status().current_level, 0);
}

/// The first pending sample of a run is the center of the whole square.
#[test]
fn first_request_is_root_center() {
    let c = config(1, 2);
    let run = GenerationRun::new(&c);
    let pts = run.pending_samples();
    assert_eq!(pts.len(), 1);
    // side = 2^(2+1) = 8, center at (4, 4).
    assert_eq!(pts[0].x, 4);
    assert_eq!(pts[0].y, 4);
}

/// Corner-heuristic soundness on a stair-step classifier: wherever the
/// engine left a cell unrefined below the maximum depth, its corners
/// agreed with its center — and for this classifier that means every
/// center a further subdivision would sample agrees too.
#[test]
fn corner_heuristic_sound_for_step() {
    let f = |sx: u64| -> u8 {
        if sx < 16 {
            0
        } else {
            1
        }
    };
    let run = run_with(2, 4, |sx, _| f(sx));
    let mut leaves = Vec::new();
    collect_leaves(&run.tree, &mut leaves);
    for &(x0, x1, y0, y1, v) in &leaves {
        if x1 - x0 > 2 {
            // Unrefined cell: the corner probes agree with its value (the
            // step ignores y, so the two x positions decide all four).
            assert_eq!(f(x0), v, "left corners of [{x0},{x1})x[{y0},{y1})");
            assert_eq!(f(x1), v, "right corners of [{x0},{x1})x[{y0},{y1})");
            // And so does the center of every would-be child.
            let mx = x0 + (x1 - x0) / 2;
            for cx in [x0 + (mx - x0) / 2, mx + (x1 - mx) / 2] {
                assert_eq!(f(cx), v);
            }
        }
    }
}

/// The base grid subdivides unconditionally even when every sampled
/// category differs, and the base counter reaches its target.
#[test]
fn base_grid_counts_to_target() {
    let calls = Cell::new(0u8);
    let run = run_with(2, 2, |_, _| {
        calls.set(calls.get().wrapping_add(1));
        calls.get()
    });
    // min == max: only the unconditional phase runs.
    let s = run.status();
    assert_eq!(run.base_cells_target(), 16);
    assert_eq!(s.quads_evaluated, 16);
    let mut leaves = Vec::new();
    collect_leaves(&run.tree, &mut leaves);
    // Nothing was uniform, so nothing collapsed: a full 4x4 grid of leaves.
    assert_eq!(leaves.len(), 16);
}
