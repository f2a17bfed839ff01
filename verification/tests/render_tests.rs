use advisory_viewer::config::Rgba;
use advisory_viewer::config::ViewerConfig;
use advisory_viewer::engine::GenerationRun;
use advisory_viewer::render::PixelBuffer;

const RED: Rgba = Rgba { r: 255, g: 0, b: 0, a: 255 };
const BLUE: Rgba = Rgba { r: 0, g: 0, b: 255, a: 255 };
const CLEAR: Rgba = Rgba { r: 0, g: 0, b: 0, a: 0 };

fn two_color_config(min: usize, max: usize) -> ViewerConfig {
    let mut c = ViewerConfig {
        output_variants: vec![("left".to_string(), RED), ("right".to_string(), BLUE)],
        min_levels: min,
        max_levels: max,
    };
    c.normalize();
    c
}

fn run_step(c: &ViewerConfig, threshold: u64, cat_left: u8, cat_right: u8) -> GenerationRun {
    let mut run = GenerationRun::new(c);
    while !run.is_done() {
        let pts = run.pending_samples();
        let answers: Vec<u8> =
            pts.iter().map(|p| if p.x < threshold { cat_left } else { cat_right }).collect();
        run.advance(&answers);
    }
    run
}

#[test]
fn raster_shows_step_colors() {
    let c = two_color_config(1, 2);
    // side = 2^3 = 8 sample units, 4 x 4 pixels; step at sample x = 4.
    let run = run_step(&c, 4, 0, 1);
    let mut buf = PixelBuffer::new_filled(4, CLEAR);
    run.tree.set_partially(&mut buf, &c);
    for px in 0..4usize {
        for py in 0..4usize {
            let expect = if (2 * px as u64) < 4 { RED } else { BLUE };
            assert_eq!(buf.get_px(px, py), expect, "pixel ({px},{py})");
        }
    }
}

#[test]
fn categories_outside_the_table_render_transparent() {
    let c = two_color_config(1, 1);
    // Category 9 has no table entry: its cells stay fully transparent.
    let run = run_step(&c, 2, 9, 1);
    let mut buf = PixelBuffer::new_filled(2, CLEAR);
    run.tree.set_partially(&mut buf, &c);
    assert_eq!(buf.get_px(0, 0), CLEAR);
    assert_eq!(buf.get_px(0, 1), CLEAR);
    assert_eq!(buf.get_px(1, 0), BLUE);
    assert_eq!(buf.get_px(1, 1), BLUE);
}

#[test]
fn run_render_produces_full_raster() {
    let c = two_color_config(1, 3);
    // side = 2^4 = 16 sample units, 8 x 8 pixels; step at sample x = 8.
    let run = run_step(&c, 8, 0, 1);
    let buf = run.render(&c);
    for px in 0..8usize {
        for py in 0..8usize {
            let expect = if (2 * px as u64) < 8 { RED } else { BLUE };
            assert_eq!(buf.get_px(px, py), expect, "pixel ({px},{py})");
        }
    }
}

/// Repainting derives the same pixels from the same tree: the sink keeps
/// no private state that could drift.
#[test]
fn repainting_is_idempotent() {
    let c = two_color_config(2, 3);
    let run = run_step(&c, 8, 0, 1);
    let mut first = PixelBuffer::new_filled(8, CLEAR);
    run.tree.set_partially(&mut first, &c);
    let mut second = PixelBuffer::new_filled(8, CLEAR);
    run.tree.set_partially(&mut second, &c);
    run.tree.set_partially(&mut second, &c);
    for px in 0..8usize {
        for py in 0..8usize {
            assert_eq!(first.get_px(px, py), second.get_px(px, py));
        }
    }
}

#[test]
fn painting_outside_region_is_untouched() {
    let c = two_color_config(0, 1);
    let run = run_step(&c, 1, 0, 1);
    // A buffer larger than the tree's region: pixels beyond it keep the
    // fill they were created with.
    let mut buf = PixelBuffer::new_filled(8, CLEAR);
    // Tree side is 2^2 = 4 sample units: 2 x 2 pixels.
    run.tree.set_partially(&mut buf, &c);
    assert_ne!(buf.get_px(0, 0), CLEAR);
    for px in 0..8usize {
        for py in 0..8usize {
            if px >= 2 || py >= 2 {
                assert_eq!(buf.get_px(px, py), CLEAR);
            }
        }
    }
}
