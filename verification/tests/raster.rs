use hb_raster::{Cubic, Extents, Quad, Raster};

/// A coordinate in pixels, in sub-pixel units.
fn fix(v: f32) -> i32 {
    (v * 256.0).round() as i32
}

/// A rasterizer fed with pixel coordinates.
struct Pen {
    raster: Raster,
    current: (f32, f32),
}

impl Pen {
    fn new() -> Pen {
        Pen { raster: Raster::new(), current: (0.0, 0.0) }
    }

    fn move_to(&mut self, x: f32, y: f32) {
        self.raster.move_to(fix(x), fix(y));
        self.current = (x, y);
    }

    fn line_to(&mut self, x: f32, y: f32) {
        self.raster.line_to(fix(x), fix(y));
        self.current = (x, y);
    }

    fn quad_to(&mut self, cx: f32, cy: f32, x: f32, y: f32) {
        let (x0, y0) = self.current;
        self.raster.quad_to(
            Quad { x0, y0, x1: cx, y1: cy, x2: x, y2: y },
            |a: f32, b: f32| (a + b) * 0.5,
            |a: f32, b: f32, c: f32| (a + c - 2.0 * b).abs() <= 0.25,
            fix,
        );
        self.current = (x, y);
    }

    fn curve_to(&mut self, cx0: f32, cy0: f32, cx1: f32, cy1: f32, x: f32, y: f32) {
        let (x0, y0) = self.current;
        self.raster.curve_to(
            Cubic { x0, y0, x1: cx0, y1: cy0, x2: cx1, y2: cy1, x3: x, y3: y },
            |a: f32, b: f32| (a + b) * 0.5,
            |a: f32, b: f32, c: f32, d: f32| {
                (2.0 * a - 3.0 * b + d).abs() <= 0.5 && (a - 3.0 * c + 2.0 * d).abs() <= 0.5
            },
            fix,
        );
        self.current = (x, y);
    }

    fn close_path(&mut self) {
        self.raster.close_path();
    }

    fn extents(&self) -> Extents {
        self.raster.extents()
    }

    fn render(&mut self, extents: Extents, stride: usize, out: &mut [u8]) {
        assert!(self.raster.can_render(extents));
        self.raster.render(extents, stride, out);
        self.current = (0.0, 0.0);
    }
}

fn render_rect(x0: f32, y0: f32, x1: f32, y1: f32, extents: Extents) -> Vec<u8> {
    let mut r = Pen::new();
    r.move_to(x0, y0);
    r.line_to(x1, y0);
    r.line_to(x1, y1);
    r.line_to(x0, y1);
    r.close_path();
    let stride = extents.width as usize;
    let mut out = vec![0u8; stride * extents.height as usize];
    r.render(extents, stride, &mut out);
    out
}

#[test]
fn pixel_aligned_rect_is_solid() {
    let ext = Extents { x0: 0, y0: 0, width: 4, height: 4 };
    let out = render_rect(1.0, 1.0, 3.0, 3.0, ext);
    let expected: Vec<u8> = vec![
        0, 0, 0, 0, //
        0, 255, 255, 0, //
        0, 255, 255, 0, //
        0, 0, 0, 0,
    ];
    assert_eq!(out, expected);
}

#[test]
fn fractional_rect_has_proportional_edges() {
    // A rect from (0.5, 0.5) to (2.5, 2.5): corners get 25% coverage,
    // edges 50%, the single interior pixel full coverage.
    let ext = Extents { x0: 0, y0: 0, width: 3, height: 3 };
    let out = render_rect(0.5, 0.5, 2.5, 2.5, ext);
    let q = 64; // 0.25 * 255 rounded
    let h = 128; // 0.5 * 255 rounded
    let expected: Vec<u8> = vec![q, h, q, h, 255, h, q, h, q];
    assert_eq!(out, expected);
}

#[test]
fn empty_path_is_all_zero() {
    let mut r = Pen::new();
    let ext = Extents { x0: 0, y0: 0, width: 4, height: 4 };
    let mut out = vec![0xAAu8; 16];
    r.render(ext, 4, &mut out);
    assert!(out.iter().all(|&b| b == 0));
}

#[test]
fn horizontal_and_degenerate_paths_do_not_panic() {
    let mut r = Pen::new();
    r.move_to(0.0, 0.0);
    r.line_to(4.0, 0.0);
    r.line_to(0.0, 0.0);
    r.close_path();
    // A single point.
    r.move_to(2.0, 2.0);
    r.close_path();
    let ext = Extents { x0: 0, y0: 0, width: 4, height: 4 };
    let mut out = vec![0u8; 16];
    r.render(ext, 4, &mut out);
    assert!(out.iter().all(|&b| b == 0));
}

#[test]
fn geometry_outside_extents_is_clipped() {
    // Rect extends left of and above the surface; the left-of-surface
    // winding must still fill the visible part.
    let ext = Extents { x0: 0, y0: 0, width: 4, height: 4 };
    let out = render_rect(-10.0, -10.0, 2.0, 2.0, ext);
    let expected: Vec<u8> = vec![
        255, 255, 0, 0, //
        255, 255, 0, 0, //
        0, 0, 0, 0, //
        0, 0, 0, 0,
    ];
    assert_eq!(out, expected);
}

#[test]
fn nonzero_winding_overlap_stays_opaque() {
    // Two overlapping same-direction squares: the overlap must not
    // become double-covered (clamped) nor cancel out.
    let mut r = Pen::new();
    for off in [0.0f32, 1.0] {
        r.move_to(off, off);
        r.line_to(off + 3.0, off);
        r.line_to(off + 3.0, off + 3.0);
        r.line_to(off, off + 3.0);
        r.close_path();
    }
    let ext = Extents { x0: 0, y0: 0, width: 4, height: 4 };
    let mut out = vec![0u8; 16];
    r.render(ext, 4, &mut out);
    let expected: Vec<u8> = vec![
        255, 255, 255, 0, //
        255, 255, 255, 255, //
        255, 255, 255, 255, //
        0, 255, 255, 255,
    ];
    assert_eq!(out, expected);
}

#[test]
fn opposite_winding_hole() {
    // Outer square clockwise, inner square counter-clockwise: a hole.
    let mut r = Pen::new();
    r.move_to(0.0, 0.0);
    r.line_to(4.0, 0.0);
    r.line_to(4.0, 4.0);
    r.line_to(0.0, 4.0);
    r.close_path();
    r.move_to(1.0, 1.0);
    r.line_to(1.0, 3.0);
    r.line_to(3.0, 3.0);
    r.line_to(3.0, 1.0);
    r.close_path();
    let ext = Extents { x0: 0, y0: 0, width: 4, height: 4 };
    let mut out = vec![0u8; 16];
    r.render(ext, 4, &mut out);
    let expected: Vec<u8> = vec![
        255, 255, 255, 255, //
        255, 0, 0, 255, //
        255, 0, 0, 255, //
        255, 255, 255, 255,
    ];
    assert_eq!(out, expected);
}

#[test]
fn triangle_matches_analytic_coverage() {
    // Right triangle with vertices (0,0), (8,0), (0,8): the diagonal
    // cells have ~50% coverage and total coverage is half the square.
    let mut r = Pen::new();
    r.move_to(0.0, 0.0);
    r.line_to(8.0, 0.0);
    r.line_to(0.0, 8.0);
    r.close_path();
    let ext = Extents { x0: 0, y0: 0, width: 8, height: 8 };
    let mut out = vec![0u8; 64];
    r.render(ext, 8, &mut out);

    let total: u32 = out.iter().map(|&b| b as u32).sum();
    let expected = 0.5 * 8.0 * 8.0 * 255.0;
    assert!(
        (total as f32 - expected).abs() < 255.0 * 1.0,
        "total coverage {} vs expected {}",
        total,
        expected
    );
    // Diagonal cells are half covered.
    for i in 0..8usize {
        let v = out[i * 8 + (7 - i)] as i32;
        assert!((v - 128).abs() <= 2, "diagonal pixel {} = {}", i, v);
    }
}

#[test]
fn circle_matches_analytic_area() {
    // Approximate a circle of radius 8 centred at (10, 10) with four
    // cubic segments and compare total coverage against pi*r^2.
    const K: f32 = 0.552_284_75;
    let (cx, cy, r0) = (10.0f32, 10.0f32, 8.0f32);
    let k = K * r0;
    let mut r = Pen::new();
    r.move_to(cx, cy - r0);
    r.curve_to(cx + k, cy - r0, cx + r0, cy - k, cx + r0, cy);
    r.curve_to(cx + r0, cy + k, cx + k, cy + r0, cx, cy + r0);
    r.curve_to(cx - k, cy + r0, cx - r0, cy + k, cx - r0, cy);
    r.curve_to(cx - r0, cy - k, cx - k, cy - r0, cx, cy - r0);
    r.close_path();

    let ext = Extents { x0: 0, y0: 0, width: 20, height: 20 };
    let mut out = vec![0u8; 400];
    r.render(ext, 20, &mut out);

    let total: f32 = out.iter().map(|&b| b as f32).sum::<f32>() / 255.0;
    let expected = std::f32::consts::PI * r0 * r0;
    assert!(
        // The tolerance accommodates the flattening error of the
        // FreeType-style 0.5px chord test.
        (total - expected).abs() / expected < 0.02,
        "circle area {} vs expected {}",
        total,
        expected
    );
    // Centre is fully covered, corners are empty.
    assert_eq!(out[10 * 20 + 10], 255);
    assert_eq!(out[0], 0);
}

#[test]
fn auto_extents_bound_the_geometry() {
    let mut r = Pen::new();
    r.move_to(1.25, 2.5);
    r.line_to(5.5, 2.5);
    r.line_to(5.5, 7.75);
    r.close_path();
    assert_eq!(r.extents(), Extents { x0: 1, y0: 2, width: 5, height: 6 });
}

#[test]
fn offset_extents_translate_the_output() {
    // Rendering with a non-zero extents origin shifts the geometry.
    let ext = Extents { x0: 2, y0: 3, width: 4, height: 4 };
    let out = render_rect(3.0, 4.0, 5.0, 6.0, ext);
    let expected: Vec<u8> = vec![
        0, 0, 0, 0, //
        0, 255, 255, 0, //
        0, 255, 255, 0, //
        0, 0, 0, 0,
    ];
    assert_eq!(out, expected);
}

#[test]
fn stride_larger_than_width_is_respected() {
    let ext = Extents { x0: 0, y0: 0, width: 2, height: 2 };
    let mut r = Pen::new();
    r.move_to(0.0, 0.0);
    r.line_to(2.0, 0.0);
    r.line_to(2.0, 2.0);
    r.line_to(0.0, 2.0);
    r.close_path();
    let mut out = vec![0xAAu8; 8];
    r.render(ext, 4, &mut out);
    assert_eq!(out, vec![255, 255, 0, 0, 255, 255, 0, 0]);
}

#[test]
fn raster_is_reusable() {
    let ext = Extents { x0: 0, y0: 0, width: 4, height: 4 };
    let mut r = Pen::new();
    let mut out = vec![0u8; 16];
    for _ in 0..3 {
        r.move_to(1.0, 1.0);
        r.line_to(3.0, 1.0);
        r.line_to(3.0, 3.0);
        r.line_to(1.0, 3.0);
        r.close_path();
        r.render(ext, 4, &mut out);
        assert_eq!(out[1 * 4 + 1], 255);
        assert_eq!(out[0], 0);
    }
}

#[test]
fn parabola_matches_analytic_area() {
    // The arch from (0, 16) over (16, -16) to (32, 16) lies above its chord;
    // the area between them is two thirds of the control triangle's.
    let mut r = Pen::new();
    r.move_to(0.0, 16.0);
    r.quad_to(16.0, -16.0, 32.0, 16.0);
    r.close_path();
    let ext = Extents { x0: 0, y0: 0, width: 32, height: 16 };
    let mut out = vec![0u8; 512];
    r.render(ext, 32, &mut out);
    let total: f32 = out.iter().map(|&b| b as f32).sum::<f32>() / 255.0;
    let expected = 2.0 / 3.0 * 0.5 * 32.0 * 32.0;
    assert!((total - expected).abs() / expected < 0.02);
    // The middle of the base is covered, the top corners are not.
    assert_eq!(out[15 * 32 + 16], 255);
    assert_eq!(out[0], 0);
    assert_eq!(out[31], 0);
}

#[test]
fn flat_curves_are_lines() {
    let ext = Extents { x0: 0, y0: 0, width: 8, height: 8 };
    let mut by_lines = Pen::new();
    by_lines.move_to(1.0, 1.0);
    by_lines.line_to(7.0, 4.0);
    by_lines.line_to(2.0, 7.0);
    let mut by_curves = Pen::new();
    by_curves.move_to(1.0, 1.0);
    by_curves.quad_to(4.0, 2.5, 7.0, 4.0);
    by_curves.curve_to(7.0 - 5.0 / 3.0, 5.0, 2.0 + 5.0 / 3.0, 6.0, 2.0, 7.0);
    let mut out1 = vec![0u8; 64];
    let mut out2 = vec![0u8; 64];
    by_lines.render(ext, 8, &mut out1);
    by_curves.render(ext, 8, &mut out2);
    assert_eq!(out1, out2);
}

#[test]
fn curves_drawn_back_cancel() {
    let mut r = Pen::new();
    r.move_to(0.3, 0.7);
    r.quad_to(15.1, 3.9, 1.2, 12.6);
    r.quad_to(15.1, 3.9, 0.3, 0.7);
    r.move_to(1.0, 2.0);
    r.curve_to(16.0, -3.0, -5.0, 16.0, 14.0, 13.0);
    r.curve_to(-5.0, 16.0, 16.0, -3.0, 1.0, 2.0);
    assert!(r.extents().width > 8);
    let ext = Extents { x0: -2, y0: -2, width: 20, height: 20 };
    let mut out = vec![0xAAu8; 400];
    r.render(ext, 20, &mut out);
    assert!(out.iter().all(|&b| b == 0));
}

#[test]
fn curves_never_flat_stop_at_the_depth_cap() {
    // A flatness test that always fails leaves 2^16 chords.
    let mut r = Raster::new();
    r.move_to(0, 0);
    let count = std::cell::Cell::new(0u32);
    r.quad_to(
        Quad { x0: 0.0f64, y0: 0.0, x1: 512.0, y1: 512.0, x2: 0.0, y2: 1024.0 },
        |a: f64, b: f64| (a + b) * 0.5,
        |_: f64, _: f64, _: f64| {
            count.set(count.get() + 1);
            false
        },
        |a: f64| a.round() as i32,
    );
    // One test per inner piece: flatness along x fails first.
    assert_eq!(count.get(), 65535);
    assert_eq!(r.extents(), Extents { x0: 0, y0: 0, width: 1, height: 4 });
}

#[test]
fn not_a_number_is_drawn_without_panic() {
    let mut r = Pen::new();
    r.move_to(0.0, 0.0);
    r.quad_to(f32::NAN, 1.0, 4.0, 4.0);
    r.curve_to(0.0, f32::NAN, 1.0, 1.0, 0.0, 0.0);
    let ext = Extents { x0: 0, y0: 0, width: 4, height: 4 };
    let mut out = vec![0u8; 16];
    if r.raster.can_render(ext) {
        r.raster.render(ext, 4, &mut out);
        assert_eq!(r.extents(), Extents::default());
    }
}
