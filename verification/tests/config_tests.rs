use advisory_viewer::config::Rgba;
use advisory_viewer::config::ViewerConfig;
use advisory_viewer::config::VisualizableKey;
use advisory_viewer::config::LEVEL_LIMIT;

fn table() -> Vec<(String, Rgba)> {
    vec![
        ("COC".to_string(), Rgba { r: 13, g: 13, b: 13, a: 13 }),
        ("WL".to_string(), Rgba { r: 255, g: 128, b: 128, a: 255 }),
    ]
}

#[test]
fn normalize_clamps_min_to_max() {
    let mut c = ViewerConfig { output_variants: table(), min_levels: 7, max_levels: 3 };
    c.normalize();
    assert_eq!(c.max_levels, 3);
    assert_eq!(c.min_levels, 3);
}

#[test]
fn normalize_clamps_max_to_limit() {
    let mut c = ViewerConfig { output_variants: table(), min_levels: 2, max_levels: 99 };
    c.normalize();
    assert_eq!(c.max_levels, LEVEL_LIMIT);
    assert_eq!(c.min_levels, 2);
}

#[test]
fn normalize_keeps_valid_config() {
    let mut c = ViewerConfig { output_variants: table(), min_levels: 5, max_levels: 10 };
    c.normalize();
    assert_eq!((c.min_levels, c.max_levels), (5, 10));
    assert_eq!(c.output_variants.len(), 2);
}

#[test]
fn color_of_known_and_unknown_categories() {
    let c = ViewerConfig { output_variants: table(), min_levels: 1, max_levels: 2 };
    assert_eq!(c.color_of(0), Rgba { r: 13, g: 13, b: 13, a: 13 });
    assert_eq!(c.color_of(1), Rgba { r: 255, g: 128, b: 128, a: 255 });
    // Absent categories are transparent, not an error.
    assert_eq!(c.color_of(2), Rgba { r: 0, g: 0, b: 0, a: 0 });
    assert_eq!(c.color_of(255), Rgba { r: 0, g: 0, b: 0, a: 0 });
}

#[test]
fn visualizable_keys_are_distinct() {
    assert_ne!(VisualizableKey::HCasCartesian, VisualizableKey::VCas);
    let k = VisualizableKey::HCasCartesian;
    assert_eq!(k, k);
}
