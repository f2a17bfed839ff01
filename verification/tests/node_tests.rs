use advisory_viewer::node::VisualizerNode;
use advisory_viewer::node::UNSET_CATEGORY;

fn leaf(x0: u64, x1: u64, y0: u64, y1: u64, value: u8) -> VisualizerNode {
    VisualizerNode { value, x0, x1, y0, y1, children: None }
}

fn flatten(n: &VisualizerNode, out: &mut Vec<(u64, u64, u64, u64, u8, bool)>) {
    let is_leaf = n.children.is_none();
    out.push((n.x0, n.x1, n.y0, n.y1, n.value, is_leaf));
    if let Some(c) = &n.children {
        flatten(&c.tl, out);
        flatten(&c.tr, out);
        flatten(&c.bl, out);
        flatten(&c.br, out);
    }
}

#[test]
fn default_node_is_unset_leaf() {
    let n = VisualizerNode::default();
    assert_eq!(n.value, UNSET_CATEGORY);
    assert_eq!((n.x0, n.x1, n.y0, n.y1), (0, 0, 0, 0));
    assert!(n.children.is_none());
}

#[test]
fn gen_value_stores_category() {
    let mut n = leaf(0, 8, 0, 8, UNSET_CATEGORY);
    n.gen_value(3);
    assert_eq!(n.value, 3);
    assert!(n.children.is_none());
}

#[test]
fn gen_children_partitions_at_midpoints() {
    let mut n = leaf(0, 8, 0, 8, 1);
    n.gen_children(10, 11, 12, 13);
    let c = n.children.as_ref().expect("children");
    assert_eq!((c.tl.x0, c.tl.x1, c.tl.y0, c.tl.y1, c.tl.value), (0, 4, 4, 8, 10));
    assert_eq!((c.tr.x0, c.tr.x1, c.tr.y0, c.tr.y1, c.tr.value), (4, 8, 4, 8, 11));
    assert_eq!((c.bl.x0, c.bl.x1, c.bl.y0, c.bl.y1, c.bl.value), (0, 4, 0, 4, 12));
    assert_eq!((c.br.x0, c.br.x1, c.br.y0, c.br.y1, c.br.value), (4, 8, 0, 4, 13));
    assert_eq!(n.value, 1);
}

#[test]
fn corners_are_identical_requires_all_four() {
    let n = leaf(0, 4, 0, 4, 5);
    assert!(n.corners_are_identical(5, 5, 5, 5));
    assert!(!n.corners_are_identical(5, 5, 5, 4));
    assert!(!n.corners_are_identical(4, 5, 5, 5));
    assert!(!n.corners_are_identical(0, 0, 0, 0));
}

#[test]
fn simplify_collapses_uniform_subtree() {
    let mut n = leaf(0, 8, 0, 8, 5);
    n.gen_children(5, 5, 5, 5);
    if let Some(c) = &mut n.children {
        c.bl.gen_children(5, 5, 5, 5);
    }
    n.simplify();
    assert!(n.children.is_none());
    assert_eq!(n.value, 5);
    assert_eq!((n.x0, n.x1, n.y0, n.y1), (0, 8, 0, 8));
}

#[test]
fn simplify_keeps_mixed_subtree_and_collapses_inner() {
    let mut n = leaf(0, 8, 0, 8, 5);
    n.gen_children(5, 5, 5, 6);
    if let Some(c) = &mut n.children {
        // A uniform inner subtree below the top-left child collapses even
        // though the tree as a whole stays subdivided.
        c.tl.gen_children(5, 5, 5, 5);
    }
    n.simplify();
    let c = n.children.as_ref().expect("mixed tree must keep children");
    assert!(c.tl.children.is_none());
    assert_eq!(c.br.value, 6);
}

/// Simplify is idempotent: a second run changes nothing, structurally or
/// in any stored value.
#[test]
fn simplify_twice_equals_once() {
    let build = || {
        let mut n = leaf(0, 16, 0, 16, 2);
        n.gen_children(2, 2, 3, 2);
        if let Some(c) = &mut n.children {
            c.tr.gen_children(2, 2, 2, 2);
            c.bl.gen_children(3, 3, 3, 4);
        }
        n
    };
    let mut once = build();
    once.simplify();
    let mut twice = build();
    twice.simplify();
    twice.simplify();
    let mut a = Vec::new();
    let mut b = Vec::new();
    flatten(&once, &mut a);
    flatten(&twice, &mut b);
    assert_eq!(a, b);
}

#[test]
fn simplify_preserves_displayed_category() {
    let mut n = leaf(0, 8, 0, 8, 5);
    n.gen_children(5, 5, 5, 6);
    if let Some(c) = &mut n.children {
        c.tl.gen_children(5, 5, 5, 5);
    }
    // Record which category each unit cell shows before simplifying.
    let probe = |n: &VisualizerNode| {
        let mut cats = Vec::new();
        for x in 0..8u64 {
            for y in 0..8u64 {
                let mut cur = n;
                while let Some(c) = &cur.children {
                    let mx = cur.x0 + (cur.x1 - cur.x0) / 2;
                    let my = cur.y0 + (cur.y1 - cur.y0) / 2;
                    cur = match (x < mx, y < my) {
                        (true, true) => &c.bl,
                        (true, false) => &c.tl,
                        (false, true) => &c.br,
                        (false, false) => &c.tr,
                    };
                }
                cats.push(cur.value);
            }
        }
        cats
    };
    let before = probe(&n);
    n.simplify();
    let after = probe(&n);
    assert_eq!(before, after);
}

#[test]
fn deep_clone_is_structurally_equal() {
    let mut n = leaf(0, 8, 0, 8, 1);
    n.gen_children(1, 2, 3, 4);
    if let Some(c) = &mut n.children {
        c.br.gen_children(9, 9, 9, 9);
    }
    let copy = n.deep_clone();
    let mut a = Vec::new();
    let mut b = Vec::new();
    flatten(&n, &mut a);
    flatten(&copy, &mut b);
    assert_eq!(a, b);
}

#[test]
fn level_nodes_returns_each_level() {
    let mut n = leaf(0, 8, 0, 8, 1);
    n.gen_children(1, 2, 3, 4);
    if let Some(c) = &mut n.children {
        c.tl.gen_children(7, 7, 7, 7);
    }
    let l0 = n.level_nodes(0);
    assert_eq!(l0.len(), 1);
    assert_eq!(l0[0].value, 1);
    let l1 = n.level_nodes(1);
    assert_eq!(l1.len(), 4);
    assert_eq!(l1[0].value, 1);
    assert_eq!(l1[3].value, 4);
    let l2 = n.level_nodes(2);
    // Only the expanded top-left branch reaches level 2.
    assert_eq!(l2.len(), 4);
    assert!(l2.iter().all(|m| m.value == 7));
    let l3 = n.level_nodes(3);
    assert_eq!(l3.len(), 0);
}
