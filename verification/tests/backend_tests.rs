use advisory_viewer::backend::VisualizerBackend;
use advisory_viewer::config::Rgba;
use advisory_viewer::config::ViewerConfig;
use advisory_viewer::node::VisualizerNode;

fn config() -> ViewerConfig {
    let mut c = ViewerConfig {
        output_variants: vec![("COC".to_string(), Rgba { r: 13, g: 13, b: 13, a: 13 })],
        min_levels: 1,
        max_levels: 2,
    };
    c.normalize();
    c
}

fn tree_with_value(v: u8) -> VisualizerNode {
    VisualizerNode { value: v, x0: 0, x1: 8, y0: 0, y1: 8, children: None }
}

#[test]
fn start_with_resets_progress_and_stamps_fresh_token() {
    let mut b = VisualizerBackend::default();
    let t1 = b.start_with(config());
    let accepted = b.publish(t1, tree_with_value(1), 2, 4, 8);
    assert!(accepted);
    assert_eq!(b.get_status().quads_evaluated, 12);
    assert_eq!(b.get_status().current_level, 2);

    let t2 = b.start_with(config());
    assert_ne!(t1, t2);
    // Both counters read exactly zero again.
    assert_eq!(b.get_status().quads_evaluated, 0);
    assert_eq!(b.get_status().current_level, 0);
}

/// Cancellation race, sequentially interleaved: a generation that was
/// superseded mid-computation cannot publish anything; the final state
/// reflects only the newest generation.
#[test]
fn stale_generation_cannot_publish() {
    let mut b = VisualizerBackend::default();
    let t1 = b.start_with(config());
    // Generation 1 publishes a first snapshot, then is superseded.
    assert!(b.publish(t1, tree_with_value(1), 1, 4, 0));
    let t2 = b.start_with(config());
    assert!(!b.is_current(t1));
    assert!(b.is_current(t2));

    // Generation 2 publishes; generation 1, still running, tries after.
    assert!(b.publish(t2, tree_with_value(2), 1, 4, 0));
    let rejected = b.publish(t1, tree_with_value(1), 2, 16, 64);
    assert!(!rejected);
    // Nothing of the stale offer is visible.
    assert_eq!(b.tree.value, 2);
    assert_eq!(b.get_status().quads_evaluated, 4);
    assert_eq!(b.get_status().current_level, 1);

    // The live generation can still make progress afterwards.
    assert!(b.publish(t2, tree_with_value(2), 2, 16, 8));
    assert_eq!(b.get_status().quads_evaluated, 24);
}

#[test]
fn rapid_restarts_latest_wins() {
    let mut b = VisualizerBackend::default();
    let mut tokens = Vec::new();
    for _ in 0..10 {
        tokens.push(b.start_with(config()));
    }
    let newest = *tokens.last().unwrap();
    for &t in &tokens[..9] {
        assert!(!b.publish(t, tree_with_value(9), 1, 1, 1));
        assert_eq!(b.get_status().quads_evaluated, 0);
    }
    assert!(b.publish(newest, tree_with_value(5), 2, 4, 4));
    assert_eq!(b.tree.value, 5);
    assert_eq!(b.get_status().quads_evaluated, 8);
}

#[test]
fn default_backend_is_empty() {
    let b = VisualizerBackend::default();
    assert!(b.conf.is_none());
    assert!(b.tree.children.is_none());
    assert_eq!(b.get_status().quads_evaluated, 0);
    assert_eq!(b.get_status().current_level, 0);
}
