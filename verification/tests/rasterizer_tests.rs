use square_wheel::color::Color32;
use square_wheel::frame_upscaler::SurfaceInfo;
use square_wheel::perspective_span::{span_parameters, TextureInfo, TexturingEquations};
use square_wheel::rasterizer::{PolygonPointProjected, PolygonSide, Rasterizer};

const ONE: i32 = 65536;

fn p(x: i32, y: i32) -> PolygonPointProjected {
    PolygonPointProjected { x: x * ONE, y: y * ONE }
}

fn texture_4x4() -> Vec<Color32> {
    (0..16u32).map(|i| Color32(100 + i)).collect()
}

/// Constant depth (the nearest kept), texture coordinates growing by `tc_dx` and `tc_dy`
/// (in units of 2^-24 texel) per pixel.
fn flat_equations(tc_dx: i64, tc_dy: i64) -> TexturingEquations {
    TexturingEquations {
        d_inv_z_dx: 0,
        d_inv_z_dy: 0,
        inv_z_k: 1 << 29,
        d_tc_dx: [tc_dx, 0],
        d_tc_dy: [0, tc_dy],
        tc_k: [0, 0],
    }
}

fn frame(width: usize, height: usize, pitch: usize, fill: u32) -> Rasterizer {
    let pixels = vec![Color32(fill); pitch * height];
    Rasterizer::new(pixels, &SurfaceInfo { width, height, pitch })
}

#[test]
fn rasterizer_reports_frame_size() {
    let r = frame(5, 3, 8, 0);
    assert_eq!(r.get_width(), 5);
    assert_eq!(r.get_height(), 3);
    assert_eq!(r.get_color_buffer().len(), 24);
}

#[test]
fn square_covering_frame_copies_texture() {
    let mut r = frame(4, 4, 4, 0);
    let texture = texture_4x4();
    let info = TextureInfo { size: [4, 4] };
    r.fill_polygon(&vec![p(0, 0), p(4, 0), p(4, 4), p(0, 4)], &flat_equations(1 << 24, 1 << 24), &info, &texture);
    assert_eq!(r.into_color_buffer(), texture);
}

#[test]
fn half_scale_texture_repeats_texels() {
    let mut r = frame(4, 2, 4, 0);
    let texture = texture_4x4();
    let info = TextureInfo { size: [4, 4] };
    r.fill_polygon(&vec![p(0, 0), p(4, 0), p(4, 2), p(0, 2)], &flat_equations(1 << 23, 1 << 23), &info, &texture);
    let c = |i: u32| Color32(100 + i);
    assert_eq!(r.into_color_buffer(), vec![c(0), c(0), c(1), c(1), c(0), c(0), c(1), c(1)]);
}

#[test]
fn polygon_outside_lines_and_pitch_padding_untouched() {
    // A 2x2 square at (1, 1) in a 4x4 frame whose lines are 5 pixels apart.
    let mut r = frame(4, 4, 5, 7);
    let texture = texture_4x4();
    let info = TextureInfo { size: [4, 4] };
    r.fill_polygon(&vec![p(1, 1), p(3, 1), p(3, 3), p(1, 3)], &flat_equations(1 << 24, 1 << 24), &info, &texture);
    let out = r.into_color_buffer();
    for y in 0..4usize {
        for x in 0..5usize {
            let expected = if (1..3).contains(&y) && (1..3).contains(&x) {
                Color32(100 + (x + 4 * y) as u32)
            } else {
                Color32(7)
            };
            assert_eq!(out[y * 5 + x], expected, "pixel ({}, {})", x, y);
        }
    }
}

#[test]
fn coordinates_beyond_texture_are_clamped_at_span_ends() {
    // Four texels per pixel: the span's far end is clamped to the last texel, and the pixels
    // between are interpolated between the clamped ends.
    let mut r = frame(4, 1, 4, 0);
    let texture = texture_4x4();
    let info = TextureInfo { size: [4, 4] };
    r.fill_polygon(&vec![p(0, 0), p(4, 0), p(4, 1), p(0, 1)], &flat_equations(1 << 26, 0), &info, &texture);
    let c = |i: u32| Color32(100 + i);
    assert_eq!(r.into_color_buffer(), vec![c(0), c(1), c(2), c(3)]);
}

#[test]
fn fill_polygon_part_fills_rounded_lines() {
    // Band from y = 0.4 to y = 2.6 covers lines 0, 1 and 2; sides at x = 1 and x = 3.
    let mut r = frame(4, 4, 4, 9);
    let texture = texture_4x4();
    let info = TextureInfo { size: [4, 4] };
    r.fill_polygon_part(
        ONE * 2 / 5,
        ONE * 13 / 5,
        PolygonSide { x_start: ONE, dx_dy: 0 },
        PolygonSide { x_start: 3 * ONE, dx_dy: 0 },
        &flat_equations(1 << 24, 1 << 24),
        &info,
        &texture,
    );
    let out = r.into_color_buffer();
    for y in 0..4usize {
        for x in 0..4usize {
            let expected =
                if y < 3 && (1..3).contains(&x) { Color32(100 + (x + 4 * y) as u32) } else { Color32(9) };
            assert_eq!(out[y * 4 + x], expected, "pixel ({}, {})", x, y);
        }
    }
}

#[test]
fn span_parameters_interpolate_between_clamped_ends() {
    let eq = flat_equations(1 << 26, 0);
    let info = TextureInfo { size: [4, 4] };
    let (inv_z, d_inv_z, tc0, d_tc0, tc1, d_tc1) = span_parameters(&eq, &info, 1 << 29, 0, 0, 0, 4);
    assert_eq!((inv_z, d_inv_z), (1 << 29, 0));
    // Limit: (2^29 - 4096) * 4 / 32 - 1.
    let limit = ((1i64 << 29) - 4096) * 4 / 32 - 1;
    assert_eq!(tc0, 0);
    assert_eq!(d_tc0 as i64, limit / 3);
    assert_eq!((tc1, d_tc1), (0, 0));
}

#[test]
fn near_inverse_depth_is_raised_to_its_minimum() {
    // Inverse depth below the minimum (and negative) is raised to 4096.
    let eq = TexturingEquations {
        d_inv_z_dx: -(1 << 20),
        d_inv_z_dy: 0,
        inv_z_k: 0,
        d_tc_dx: [0, 0],
        d_tc_dy: [0, 0],
        tc_k: [0, 0],
    };
    let info = TextureInfo { size: [4, 4] };
    let (inv_z, d_inv_z, tc0, _, _, _) = span_parameters(&eq, &info, 0, 0, 0, 2, 5);
    assert_eq!((inv_z, d_inv_z, tc0), (4096, 0, 0));
}
