use hb_raster::{
    alpha_to_byte, cell_add, clamp_i64_to_i32, edge_sweep_row, sweep_row_to_alpha, Cubic, Edge,
    Extents, Quad, Raster,
};

type Contour = Vec<(i32, i32)>;

fn draw(r: &mut Raster, contours: &[Contour]) {
    for contour in contours {
        r.move_to(contour[0].0, contour[0].1);
        for &(x, y) in &contour[1..] {
            r.line_to(x, y);
        }
        r.close_path();
    }
}

fn image(contours: &[Contour], ext: Extents) -> Vec<u8> {
    let mut r = Raster::new();
    draw(&mut r, contours);
    assert!(r.can_render(ext));
    let stride = ext.width as usize;
    let mut out = vec![0xAAu8; stride * ext.height as usize];
    r.render(ext, stride, &mut out);
    out
}

fn rect(xa: i32, ya: i32, xb: i32, yb: i32) -> Contour {
    vec![(xa, ya), (xb, ya), (xb, yb), (xa, yb)]
}

/// A star-shaped contour with edges of all slopes.
fn star() -> Contour {
    vec![(1000, 37), (1291, 700), (2011, 811), (1400, 1207), (1600, 1999), (903, 1500), (61, 1777)]
}

fn blob() -> Contour {
    vec![(300, 300), (1900, 410), (1555, 1603), (411, 1203)]
}

const FRAME: Extents = Extents { x0: 0, y0: 0, width: 8, height: 8 };

#[test]
fn alpha_scale_ends_and_rounding() {
    assert_eq!(alpha_to_byte(0), 0);
    assert_eq!(alpha_to_byte(257), 0);
    assert_eq!(alpha_to_byte(258), 1);
    assert_eq!(alpha_to_byte(32768), 64);
    assert_eq!(alpha_to_byte(65536), 128);
    assert_eq!(alpha_to_byte(131072), 255);
    // Beyond full coverage only the low byte of the scaled value is kept.
    assert_eq!(alpha_to_byte(262144), 254);
    for a in 0..131072 {
        assert!(alpha_to_byte(a) <= alpha_to_byte(a + 1));
    }
}

#[test]
fn clamping_saturates() {
    assert_eq!(clamp_i64_to_i32(i64::MAX), i32::MAX);
    assert_eq!(clamp_i64_to_i32(i64::MIN), i32::MIN);
    assert_eq!(clamp_i64_to_i32(1 << 31), i32::MAX);
    assert_eq!(clamp_i64_to_i32(-(1 << 31)), i32::MIN);
    assert_eq!(clamp_i64_to_i32(-5), -5);
}

#[test]
fn edges_are_normalized() {
    let down = Edge::between(10, 0, 3, 512);
    assert_eq!((down.xl, down.yl, down.xh, down.yh), (10, 0, 3, 512));
    assert_eq!((down.slope, down.wind), (-896, 1));
    // The same segment from its other end differs in direction alone.
    let up = Edge::between(3, 512, 10, 0);
    assert_eq!((up.xl, up.yl, up.xh, up.yh), (10, 0, 3, 512));
    assert_eq!((up.slope, up.wind), (-896, -1));
    // Slopes are truncated toward zero.
    assert_eq!(Edge::between(0, 0, -1, 3).slope, -21845);
    assert_eq!(Edge::between(0, 0, 1, 3).slope, 21845);
    // The steepest slopes do not overflow.
    let flat = Edge::between(i32::MIN, 0, i32::MAX, 1);
    assert_eq!(flat.slope, u32::MAX as i64 * 65536);
}

#[test]
fn pieces_add_to_their_cell() {
    let mut area = vec![0i32, 5, 0];
    let mut cover = vec![0i32, 7, 0];
    let (mut x_min, mut x_max) = (3usize, 0usize);
    cell_add(&mut area, &mut cover, 1, 64, 0, 128, 100, -1, &mut x_min, &mut x_max);
    assert_eq!(area, vec![0, 5 - 19200, 0]);
    assert_eq!(cover, vec![0, 7 - 100, 0]);
    assert_eq!((x_min, x_max), (1, 1));
}

#[test]
fn pieces_outside_of_the_row() {
    let mut area = vec![0i32; 2];
    let mut cover = vec![0i32; 2];
    let (mut x_min, mut x_max) = (2usize, 0usize);
    // Right of the row: no effect.
    cell_add(&mut area, &mut cover, 2, 0, 0, 256, 256, 1, &mut x_min, &mut x_max);
    assert_eq!((area.clone(), cover.clone()), (vec![0, 0], vec![0, 0]));
    assert_eq!((x_min, x_max), (2, 0));
    // Left of the row: cover alone, in the first column.
    cell_add(&mut area, &mut cover, -3, 0, 0, 256, 256, 1, &mut x_min, &mut x_max);
    assert_eq!((area.clone(), cover.clone()), (vec![0, 0], vec![256, 0]));
    assert_eq!((x_min, x_max), (0, 0));
}

#[test]
fn covers_do_not_wrap_around() {
    let mut area = vec![0i32];
    let mut cover = vec![32767i32];
    let (mut x_min, mut x_max) = (1usize, 0usize);
    cell_add(&mut area, &mut cover, 0, 0, 0, 0, 1, 1, &mut x_min, &mut x_max);
    assert_eq!(cover[0], 32768);
    cell_add(&mut area, &mut cover, -1, 0, 0, 0, 256, 1, &mut x_min, &mut x_max);
    assert_eq!(cover[0], 33024);
}

#[test]
fn untouched_columns_need_no_cover() {
    // The row has four columns; the edge touches only the first two of them.
    let edge = Edge::between(128, 0, 384, 256);
    let mut area = vec![0i32; 4];
    let mut cover = vec![0i32; 2];
    let (mut x_min, mut x_max) = (4usize, 0usize);
    edge_sweep_row(&mut area, &mut cover, 0, 0, &edge, &mut x_min, &mut x_max);
    assert_eq!(area, vec![49152, 16384, 0, 0]);
    assert_eq!(cover, vec![128, 128]);
    assert_eq!((x_min, x_max), (0, 1));
}

#[test]
fn edges_sweep_in_both_directions() {
    for edge in [Edge::between(128, 0, 640, 256), Edge::between(640, 0, 128, 256)] {
        let mut area = vec![0i32; 4];
        let mut cover = vec![0i32; 4];
        let (mut x_min, mut x_max) = (4usize, 0usize);
        edge_sweep_row(&mut area, &mut cover, 0, 0, &edge, &mut x_min, &mut x_max);
        assert_eq!(area, vec![24576, 32768, 8192, 0]);
        assert_eq!(cover, vec![64, 128, 64, 0]);
        assert_eq!((x_min, x_max), (0, 2));
        // The heights in the columns add up to the height in the row.
        assert_eq!(cover.iter().sum::<i32>(), 256);
    }
}

#[test]
fn clipped_sweep_keeps_the_cover() {
    let edge = Edge::between(128, 0, 640, 256);
    let mut area = vec![0i32; 2];
    let mut cover = vec![0i32; 2];
    let (mut x_min, mut x_max) = (2usize, 0usize);
    edge_sweep_row(&mut area, &mut cover, 1, 0, &edge, &mut x_min, &mut x_max);
    assert_eq!(area, vec![32768, 8192]);
    assert_eq!(cover, vec![64 + 128, 64]);
    assert_eq!((x_min, x_max), (0, 1));
}

#[test]
fn rows_that_an_edge_misses_are_untouched() {
    let edge = Edge::between(128, 0, 640, 256);
    let mut area = vec![0i32; 4];
    let mut cover = vec![0i32; 4];
    let (mut x_min, mut x_max) = (4usize, 0usize);
    edge_sweep_row(&mut area, &mut cover, 0, 256, &edge, &mut x_min, &mut x_max);
    edge_sweep_row(&mut area, &mut cover, 0, -256, &edge, &mut x_min, &mut x_max);
    assert_eq!((area, cover), (vec![0; 4], vec![0; 4]));
    assert_eq!((x_min, x_max), (4, 0));
}

#[test]
fn crossings_are_rounded_down() {
    // The exact crossings are at 25.6, 51.2 and 76.8.
    let edge = Edge::between(0, 0, 1000, 100);
    let mut area = vec![0i32; 4];
    let mut cover = vec![0i32; 4];
    let (mut x_min, mut x_max) = (4usize, 0usize);
    edge_sweep_row(&mut area, &mut cover, 0, 0, &edge, &mut x_min, &mut x_max);
    assert_eq!(cover, vec![25, 25, 25, 25]);
    assert_eq!(area, vec![6400, 6400, 6400, 5800]);
}

#[test]
fn slanted_coverage_is_close_to_exact() {
    // Twice the exact area of a column right of the segment, times its width.
    fn exact(xl: i64, xr: i64, rise: i64, col: i64) -> i64 {
        let beyond = |x: i64| {
            let right = (col + 1) * 256;
            let t = (right - x).max(0);
            if t <= 256 { t * t } else { 65536 + 512 * (t - 256) }
        };
        rise * (beyond(xl) - beyond(xr))
    }
    for (xa, ya, xb, yb) in [
        (0, 0, 1000, 100),
        (1000, 0, 0, 100),
        (37, 3, 1279, 250),
        (1033, 11, 70, 12),
        (300, 0, 400, 256),
    ] {
        let edge = Edge::between(xa, ya, xb, yb);
        let mut area = vec![0i32; 6];
        let mut cover = vec![0i32; 6];
        let (mut x_min, mut x_max) = (6usize, 0usize);
        edge_sweep_row(&mut area, &mut cover, 0, 0, &edge, &mut x_min, &mut x_max);
        // The exit as the edge's slope gives it.
        let xb = xa as i64 + (((yb - ya) as i64 * edge.slope) >> 16);
        let (xa, rise) = (xa as i64, (yb - ya) as i64);
        let run = (xb - xa).abs();
        let mut accum: i64 = 0;
        for c in 0..6usize {
            accum += cover[c] as i64;
            let got = (512 * accum - area[c] as i64) * run;
            let want = exact(xa.min(xb), xa.max(xb), rise, c as i64);
            let steps = (c as i64 - xa / 256).abs() + 1;
            assert!((got - want).abs() <= 512 * steps * run);
            if xa / 256 == xb / 256 || c < x_min || c > x_max {
                assert_eq!(got, want);
            }
        }
    }
    // One exact value: the second column right of the line from (0, 0) to
    // (1000, 100) has the doubled area 19660.8 and gets 19200.
    assert_eq!(exact(0, 1000, 100, 1), 19_660_800);
}

#[test]
fn edges_leave_to_the_left() {
    // The exit is at x = -1: rounded down from an exact crossing near -1.
    let edge = Edge::between(0, 0, -1, 3);
    let mut area = vec![0i32; 1];
    let mut cover = vec![0i32; 1];
    let (mut x_min, mut x_max) = (1usize, 0usize);
    edge_sweep_row(&mut area, &mut cover, 0, 0, &edge, &mut x_min, &mut x_max);
    assert_eq!((area, cover), (vec![0], vec![3]));
    assert_eq!((x_min, x_max), (0, 0));
}

#[test]
fn accumulators_become_alpha() {
    let mut buf = vec![9u8; 5];
    let mut area = vec![1i32, 0, 32768, 0, 2];
    let mut cover = vec![3i32, 128, 0, -128, 4];
    let accum = sweep_row_to_alpha(&mut buf, &mut area, &mut cover, 1, 3);
    assert_eq!(accum, 0);
    assert_eq!(buf, vec![9, 128, 64, 0, 9]);
    assert_eq!(area, vec![1, 0, 0, 0, 2]);
    assert_eq!(cover, vec![3, 0, 0, 0, 4]);

    let mut cover = vec![-300i32, 44];
    let mut area = vec![0i32, 0];
    let accum = sweep_row_to_alpha(&mut buf, &mut area, &mut cover, 0, 1);
    assert_eq!(accum, -256);
    assert_eq!(buf, vec![255, 255, 64, 0, 9]);
}

#[test]
fn empty_ranges_become_nothing() {
    let mut buf = vec![9u8; 2];
    let mut area = vec![1i32, 2];
    let mut cover = vec![3i32, 4];
    assert_eq!(sweep_row_to_alpha(&mut buf, &mut area, &mut cover, 2, 0), 0);
    assert_eq!((buf, area, cover), (vec![9, 9], vec![1, 2], vec![3, 4]));
}

#[test]
fn extents_round_outward() {
    let mut r = Raster::default();
    assert_eq!(r.extents(), Extents::default());
    // A horizontal line has no edge.
    r.move_to(5, 5);
    r.line_to(5000, 5);
    assert_eq!(r.extents(), Extents { x0: 0, y0: 0, width: 0, height: 0 });
    r.clear();
    r.move_to(-1, -1);
    r.line_to(1, 257);
    assert_eq!(r.extents(), Extents { x0: -1, y0: -1, width: 2, height: 3 });
    r.clear();
    assert_eq!(r.extents(), Extents::default());
    r.move_to(i32::MIN, i32::MIN);
    r.line_to(i32::MAX, i32::MAX);
    let all = Extents { x0: -8388608, y0: -8388608, width: 16777216, height: 16777216 };
    assert_eq!(r.extents(), all);
}

#[test]
fn windows_agree() {
    let path = [star(), blob()];
    let whole = image(&path, FRAME);
    for x0 in 0..7 {
        for y0 in 0..7 {
            let ext = Extents { x0, y0, width: 2, height: 2 };
            let part = image(&path, ext);
            for row in 0..2usize {
                for c in 0..2usize {
                    let at = (y0 as usize + row) * 8 + x0 as usize + c;
                    if at % 8 >= x0 as usize && at < 64 && x0 as usize + c < 8 {
                        assert_eq!(part[row * 2 + c], whole[at]);
                    }
                }
            }
        }
    }
}

#[test]
fn whole_pixel_moves_translate() {
    let moved: Contour = star().iter().map(|&(x, y)| (x - 256 * 5, y + 256 * 9)).collect();
    let ext = Extents { x0: -5, y0: 9, width: 8, height: 8 };
    assert_eq!(image(&[moved], ext), image(&[star()], FRAME));
}

#[test]
fn direction_of_all_contours_does_not_matter() {
    let mut a = star();
    let mut b = blob();
    let forward = image(&[a.clone(), b.clone()], FRAME);
    a.reverse();
    b.reverse();
    assert_eq!(image(&[a, b], FRAME), forward);
}

#[test]
fn order_of_contours_does_not_matter() {
    assert_eq!(image(&[star(), blob()], FRAME), image(&[blob(), star()], FRAME));
}

#[test]
fn unclosed_contours_are_closed() {
    let mut r = Raster::new();
    for contour in [star(), blob()] {
        r.move_to(contour[0].0, contour[0].1);
        for &(x, y) in &contour[1..] {
            r.line_to(x, y);
        }
    }
    assert!(r.can_render(FRAME));
    let mut out = vec![0u8; 64];
    r.render(FRAME, 8, &mut out);
    assert_eq!(out, image(&[star(), blob()], FRAME));
}

#[test]
fn closing_twice_changes_nothing() {
    let mut r = Raster::new();
    draw(&mut r, &[star()]);
    r.close_path();
    r.close_path();
    let mut out = vec![0u8; 64];
    r.render(FRAME, 8, &mut out);
    assert_eq!(out, image(&[star()], FRAME));
}

#[test]
fn winding_numbers_decide() {
    let ext = Extents { x0: 0, y0: 0, width: 4, height: 1 };
    // Wound twice, once, and not at all.
    let twice = [rect(0, 0, 768, 256), rect(256, 0, 512, 256)];
    assert_eq!(image(&twice, ext), vec![255, 255, 255, 0]);
    // Wound in opposite directions.
    let mut hole = rect(256, 0, 512, 256);
    hole.reverse();
    assert_eq!(image(&[rect(0, 0, 768, 256), hole], ext), vec![255, 0, 255, 0]);
}

#[test]
fn rectangle_coverage_is_exact() {
    let ext = Extents { x0: 0, y0: 0, width: 1, height: 1 };
    // 128 by 192 units of 256 by 256.
    assert_eq!(image(&[rect(64, 32, 192, 224)], ext), vec![96]);
    for (xa, ya, xb, yb) in [(0, 0, 256, 256), (3, 5, 250, 17), (-100, -100, 1, 300), (7, 7, 7, 7)] {
        let clip = |v: i32| v.max(0).min(256);
        let overlap = (clip(xb) - clip(xa)) * (clip(yb) - clip(ya));
        assert_eq!(image(&[rect(xa, ya, xb, yb)], ext), vec![alpha_to_byte(2 * overlap)]);
    }
}

#[test]
fn geometry_out_of_sight_has_no_effect() {
    let seen = image(&[star()], FRAME);
    let right = rect(8 * 256, 0, 99 * 256, 9 * 256);
    let above = rect(-512, -900, 3000, 0);
    let below = rect(-512, 8 * 256, 3000, 9 * 256);
    assert_eq!(image(&[star(), right, above, below], FRAME), seen);
}

#[test]
fn geometry_left_of_sight_still_winds() {
    let ext = Extents { x0: 0, y0: 0, width: 3, height: 1 };
    assert_eq!(image(&[rect(-700, 64, 600, 192)], ext), vec![128, 128, 44]);
}

#[test]
fn nothing_shows_outside_of_the_extents() {
    let mut r = Raster::new();
    draw(&mut r, &[star()]);
    r.move_to(512, 512);
    r.quad_to(
        Quad { x0: 512i64, y0: 512, x1: 3000, y1: 900, x2: 700, y2: 1500 },
        |a: i64, b: i64| (a + b) / 2,
        |a: i64, b: i64, c: i64| (a + c - 2 * b).abs() <= 64,
        |a: i64| a as i32,
    );
    r.curve_to(
        Cubic { x0: 700i64, y0: 1500, x1: -900, y1: 1300, x2: 100, y2: 4000, x3: 90, y3: 300 },
        |a: i64, b: i64| (a + b) / 2,
        |a: i64, b: i64, c: i64, d: i64| {
            (2 * a - 3 * b + d).abs() <= 128 && (a - 3 * c + 2 * d).abs() <= 128
        },
        |a: i64| a as i32,
    );
    r.close_path();
    let bounds = r.extents();
    let ext = Extents { x0: -20, y0: -20, width: 60, height: 60 };
    assert!(r.can_render(ext));
    let mut out = vec![0xAAu8; 3600];
    r.render(ext, 60, &mut out);
    let inside = |v: i32, from: i32, len: u32| from <= v && v < from + len as i32;
    let mut covered = 0;
    for row in 0..60 {
        for c in 0..60 {
            let byte = out[(row * 60 + c) as usize];
            if !inside(c - 20, bounds.x0, bounds.width) || !inside(row - 20, bounds.y0, bounds.height) {
                assert_eq!(byte, 0);
            } else if byte == 255 {
                covered += 1;
            }
        }
    }
    assert!(covered > 0);
}

#[test]
fn coincident_edges_do_not_cancel() {
    let ext = Extents { x0: 0, y0: 0, width: 4, height: 1 };
    for n in [1, 2, 127, 128, 255, 256, 1000, 20000] {
        assert_eq!(image(&vec![rect(256, 0, 512, 256); n], ext), vec![0, 255, 0, 0]);
    }
    // The same, where the squares fill the whole output.
    let ext = Extents { x0: 0, y0: 0, width: 1, height: 1 };
    assert_eq!(image(&vec![rect(0, 0, 256, 256); 256], ext), vec![255]);
}

#[test]
fn overlap_accumulates() {
    let ext = Extents { x0: 0, y0: 0, width: 1, height: 1 };
    // A sixteenth of the pixel, once, twice, and more often than fills it.
    let corner = rect(0, 0, 64, 64);
    assert_eq!(image(&vec![corner.clone(); 1], ext), vec![alpha_to_byte(8192)]);
    assert_eq!(image(&vec![corner.clone(); 2], ext), vec![alpha_to_byte(16384)]);
    assert_eq!(image(&vec![corner; 300], ext), vec![255]);
}

#[test]
fn curves_cancel_from_their_other_end() {
    let mid = |a: i64, b: i64| (a + b) / 2;
    let fix = |a: i64| a as i32;
    let flat3 = |a: i64, b: i64, c: i64| (a + c - 2 * b).abs() <= 64;
    let flat4 = |a: i64, b: i64, c: i64, d: i64| {
        (2 * a - 3 * b + d).abs() <= 128 && (a - 3 * c + 2 * d).abs() <= 128
    };
    let mut r = Raster::new();
    r.move_to(100, 200);
    r.quad_to(Quad { x0: 100, y0: 200, x1: 2000, y1: 900, x2: 300, y2: 1700 }, mid, flat3, fix);
    r.quad_to(Quad { x0: 300, y0: 1700, x1: 2000, y1: 900, x2: 100, y2: 200 }, mid, flat3, fix);
    r.curve_to(
        Cubic { x0: 100, y0: 200, x1: 1900, y1: -700, x2: 40, y2: 2500, x3: 1800, y3: 1600 },
        mid,
        flat4,
        fix,
    );
    r.curve_to(
        Cubic { x0: 1800, y0: 1600, x1: 40, y1: 2500, x2: 1900, y2: -700, x3: 100, y3: 200 },
        mid,
        flat4,
        fix,
    );
    assert_eq!(r.extents().x0, 0);
    assert!(r.extents().width > 4);
    assert!(r.can_render(FRAME));
    let mut out = vec![0xAAu8; 64];
    r.render(FRAME, 8, &mut out);
    assert_eq!(out, vec![0u8; 64]);
}

#[test]
fn ordinary_scenes_can_be_rendered() {
    let mut r = Raster::new();
    assert!(r.can_render(FRAME));
    draw(&mut r, &[star(), blob()]);
    assert!(r.can_render(FRAME));
    assert!(r.can_render(r.extents()));
    // An output far away from the geometry.
    assert!(r.can_render(Extents { x0: 0, y0: 8388607, width: 1, height: 1 }));
}

#[test]
fn coordinates_at_the_ends_of_their_range() {
    let mut r = Raster::new();
    r.move_to(0, 0);
    r.line_to(100, i32::MAX);
    assert!(r.can_render(Extents { x0: 0, y0: 8388606, width: 1, height: 1 }));
    assert!(!r.can_render(Extents { x0: 0, y0: 8388607, width: 1, height: 1 }));
    // Without pixels there is nothing to compute.
    assert!(r.can_render(Extents { x0: 0, y0: 8388607, width: 0, height: 1 }));
    // A distance between columns that leaves the 32-bit range.
    r.clear();
    r.move_to(i32::MAX, 0);
    r.line_to(i32::MAX, 256);
    assert!(!r.can_render(Extents { x0: i32::MIN, y0: 0, width: 1, height: 1 }));
    // A distance between rows that leaves the 32-bit range.
    r.clear();
    r.move_to(0, 0);
    r.line_to(0, 256);
    assert!(r.can_render(Extents { x0: 0, y0: -i32::MAX, width: 1, height: 1 }));
    assert!(!r.can_render(Extents { x0: 0, y0: i32::MIN, width: 1, height: 1 }));
}

#[test]
fn crowded_cells_are_refused_only_when_they_overflow() {
    let ext = Extents { x0: 0, y0: 0, width: 2, height: 1 };
    let mut r = Raster::new();
    draw(&mut r, &vec![rect(128, 0, 256, 256); 10000]);
    assert!(r.can_render(ext));
    draw(&mut r, &vec![rect(128, 0, 256, 256); 30000]);
    assert!(!r.can_render(ext));
    r.clear();
    assert!(r.can_render(ext));
}

#[test]
fn bytes_beyond_the_output_are_kept() {
    let ext = Extents { x0: 0, y0: 0, width: 1, height: 2 };
    let mut r = Raster::new();
    draw(&mut r, &[rect(0, 0, 256, 512)]);
    let mut out = vec![0xAAu8; 8];
    r.render(ext, 3, &mut out);
    assert_eq!(out, vec![255, 0, 0, 255, 0, 0, 0xAA, 0xAA]);
    // Rendering has cleared the geometry.
    r.render(ext, 3, &mut out);
    assert_eq!(out, vec![0, 0, 0, 0, 0, 0, 0xAA, 0xAA]);
}

#[test]
fn empty_outputs_are_left_alone() {
    let mut r = Raster::new();
    draw(&mut r, &[star()]);
    let mut out = vec![0xAAu8; 4];
    r.render(Extents { x0: 0, y0: 0, width: 4, height: 0 }, 4, &mut out);
    assert_eq!(out, vec![0xAA; 4]);
    draw(&mut r, &[star()]);
    r.render(Extents { x0: 0, y0: 0, width: 0, height: 2 }, 2, &mut out);
    assert_eq!(out, vec![0; 4]);
}
