use square_wheel::color::{AbstractColor, Color32, Color64};
use square_wheel::draw_ordering::{order_bboxes, LeafObjectsSorter, MAX_OBJECTS};
use square_wheel::frame_number::FrameNumber;
use square_wheel::frame_upscaler::{FrameUpscaler, SurfaceInfo};
use square_wheel::generative_texture_effect_turb::{make_turb_distortion, GenerativeTextureEffectTurb};
use square_wheel::light;
use square_wheel::shadow_map;
use square_wheel::textures::{make_stub_image, resize_image, Image};
use square_wheel::triangle_models_rendering::{reject_triangle_model_back_faces, sort_model_triangles};

#[test]
fn frame_number_advances() {
    let mut f = FrameNumber::new();
    assert_eq!(f.0, 0);
    f.next();
    f.next();
    assert_eq!(f.0, 2);
    assert!(FrameNumber::default() == FrameNumber::new());
}

#[test]
fn upscale_repeats_cells_and_leftover_edges() {
    let mut upscaler = FrameUpscaler::new();
    let surface = SurfaceInfo { width: 5, height: 5, pitch: 6 };
    {
        let (buffer, reduced) = upscaler.get_draw_buffer(&surface, 2);
        assert_eq!((reduced.width, reduced.height, reduced.pitch), (2, 2, 2));
        assert_eq!(buffer.len(), 4);
        buffer[0] = Color32(10);
        buffer[1] = Color32(11);
        buffer[2] = Color32(12);
        buffer[3] = Color32(13);
    }
    let mut pixels = vec![Color32(99); 30];
    upscaler.perform_upscale(&mut pixels, &surface, 2);
    let at = |x: usize, y: usize| pixels[y * 6 + x].0;
    assert_eq!((at(0, 0), at(1, 1), at(2, 0), at(3, 1)), (10, 10, 11, 11));
    assert_eq!(at(4, 0), 11);
    assert_eq!(at(5, 0), 99);
    assert_eq!((at(0, 2), at(3, 3), at(4, 3)), (12, 13, 13));
    assert_eq!((at(0, 4), at(4, 4)), (12, 13));
}

#[test]
fn upscale_without_a_large_enough_buffer_changes_nothing() {
    let mut upscaler = FrameUpscaler::new();
    let surface = SurfaceInfo { width: 4, height: 4, pitch: 4 };
    let mut pixels = vec![Color32(7); 16];
    upscaler.perform_upscale(&mut pixels, &surface, 2);
    assert!(pixels.iter().all(|p| p.0 == 7));
}

#[test]
fn upscale_with_a_short_buffer_accepts_any_pixels() {
    // The reduced buffer is too short, so even pixels that do not cover the surface are left as
    // they are.
    let mut upscaler = FrameUpscaler::new();
    let surface = SurfaceInfo { width: 8, height: 8, pitch: 3 };
    let mut pixels = vec![Color32(5); 2];
    upscaler.perform_upscale(&mut pixels, &surface, 2);
    assert!(pixels.iter().all(|p| p.0 == 5));
}

#[test]
fn first_draw_buffer_is_black() {
    let mut upscaler = FrameUpscaler::new();
    let (buffer, _) = upscaler.get_draw_buffer(&SurfaceInfo { width: 7, height: 5, pitch: 9 }, 2);
    assert_eq!(buffer.len(), 3 * 2);
    assert!(buffer.iter().all(|p| p.0 == 0));
}

#[test]
fn objects_are_reordered_by_table() {
    let mut sorter = LeafObjectsSorter::<u8>::new();
    sorter.add_object((100, 0));
    sorter.add_object((101, 1));
    sorter.add_object((102, 2));
    let mut before = vec![vec![false; 3]; 3];
    before[0][1] = true;
    sorter.sort_objects(&before);
    let ids: Vec<u32> = sorter.get_objects().iter().map(|o| o.0).collect();
    assert_eq!(ids, vec![101, 100, 102]);
    sorter.clear();
    assert!(sorter.get_objects().is_empty());
}

#[test]
fn sorter_drops_objects_when_full() {
    let mut sorter = LeafObjectsSorter::<u8>::new();
    for i in 0 .. MAX_OBJECTS as u32 + 5 {
        sorter.add_object((i, 0));
    }
    assert_eq!(sorter.get_objects().len(), MAX_OBJECTS);
}

#[test]
fn draw_order_is_a_permutation_even_for_cyclic_tables() {
    let before = vec![vec![false, true, false], vec![false, false, true], vec![true, false, false]];
    let mut order = order_bboxes(3, &before);
    order.sort();
    assert_eq!(order, vec![0, 1, 2]);
}

#[test]
fn back_faces_are_rejected_in_order() {
    let triangles = vec![[0u16, 1, 2], [2, 3, 4], [4, 5, 6], [6, 7, 8]];
    let facing = vec![true, false, true, false];
    let mut out = vec![[9u16, 9, 9]; 4];
    let n = reject_triangle_model_back_faces(&triangles, &facing, &mut out);
    assert_eq!(n, 2);
    assert_eq!(out, vec![[0, 1, 2], [4, 5, 6], [9, 9, 9], [9, 9, 9]]);
}

#[test]
fn model_triangles_are_sorted_far_to_near() {
    let keys = vec![5, 1, 9, 3, 7];
    let mut triangles = vec![[1u16, 3, 1], [0, 1, 3], [2, 1, 0], [4, 3, 1]];
    sort_model_triangles(&keys, &mut triangles);
    assert_eq!(triangles, vec![[2, 1, 0], [4, 3, 1], [0, 1, 3], [1, 3, 1]]);
}

#[test]
fn turb_moves_rows_and_columns_with_wrapping() {
    let src: Vec<u32> = (0 .. 16).collect();
    let mut dst = vec![0u32; 16];
    let shifts = vec![1, -1, 2, 0];
    make_turb_distortion([4, 4], &shifts, &src, &mut dst);
    for y in 0 .. 4i32 {
        for x in 0 .. 4i32 {
            let u = (x + shifts[y as usize]) & 3;
            let v = (y + shifts[x as usize]) & 3;
            assert_eq!(dst[(y * 4 + x) as usize], (u + v * 4) as u32);
        }
    }
    assert_eq!(dst[0], 5);
    assert_eq!(dst[4], 11);
}

#[test]
fn turb_effect_counts_emissive_texels_as_half() {
    let effect = GenerativeTextureEffectTurb::new(0u8);
    assert!(effect.temp_buffer.is_empty());
    assert_eq!(effect.get_estimated_texel_count([64, 32], None), 2048);
    assert_eq!(effect.get_estimated_texel_count([64, 32], Some([16, 16])), 2048 + 128);
}

#[test]
fn stub_image_is_a_checkerboard() {
    let image = make_stub_image();
    assert_eq!(image.size, [32, 32]);
    assert_eq!(image.pixels[0].0, 0x00A0A0A0);
    assert_eq!(image.pixels[8].0, 0x00E0E0E0);
    assert_eq!(image.pixels[8 * 32].0, 0x00E0E0E0);
    assert_eq!(image.pixels[8 * 32 + 8].0, 0x00A0A0A0);
}

#[test]
fn resize_takes_nearest_source_pixel() {
    let image = Image { size: [2, 2], pixels: vec![Color32(1), Color32(2), Color32(3), Color32(4)] };
    let r = resize_image(&image, [4, 3]);
    assert_eq!(r.size, [4, 3]);
    let v: Vec<u32> = r.pixels.iter().map(|p| p.0).collect();
    assert_eq!(v, vec![1, 1, 2, 2, 1, 1, 2, 2, 3, 3, 4, 4]);
    let empty = resize_image(&image, [0, 5]);
    assert!(empty.pixels.is_empty());
}

#[test]
fn color32_channel_operations() {
    let a = Color32(0x80_40_20_10);
    let b = Color32(0x81_FF_10_01);
    assert_eq!(Color32::average(a, b).0, 0x80_9F_18_08);
    assert_eq!(Color32::saturated_sum(a, b).0, 0xFF_FF_30_11);
    assert_eq!(a.get_alpha(), 0x80);
    assert!(a.test_alpha());
    assert!(!Color32(0x7F_FF_FF_FF).test_alpha());
    let dst = Color32(0x00_00_00_FF);
    let src = Color32(0x80_FF_00_00);
    // alpha 128: channel = (dst * 127 + src * 128) / 256
    assert_eq!(Color32::alpha_blend(dst, src).0, 0x40_7F_00_7E);
    assert_eq!(Color32::from_rgb(1, 2, 3).0, 0x00_01_02_03);
}

#[test]
fn color64_channel_operations() {
    let a = Color64(0x0080_1000_0200_0001);
    let b = Color64(0x0080_FFFF_0002_0003);
    assert_eq!(Color64::average(a, b).0, 0x0080_87FF_0101_0002);
    assert_eq!(Color64::saturated_sum(a, b).0, 0x0100_FFFF_0202_0004);
    assert_eq!(a.get_alpha(), 0x80);
    assert!(a.test_alpha());
    assert!(!Color64(0x007F_0000_0000_0000).test_alpha());
    let blended = Color64::alpha_blend(Color64(0x0000_0000_0000_0100), Color64(0x00FF_0200_0000_0000));
    assert_eq!(blended.0, 0x00FE_01FE_0000_0000);
}

#[test]
fn cubemap_sides_by_number() {
    assert!(matches!(light::int_to_cubemap_side(0), Some(light::CubeMapSide::XPlus)));
    assert!(matches!(light::int_to_cubemap_side(5), Some(light::CubeMapSide::ZMinus)));
    assert!(light::int_to_cubemap_side(6).is_none());
    assert!(matches!(shadow_map::int_to_cubemap_side(3), Some(shadow_map::CubeMapSide::YMinus)));
    assert!(shadow_map::int_to_cubemap_side(u32::MAX).is_none());
}
