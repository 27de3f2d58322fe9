use square_wheel::color::Color32;
use square_wheel::generative_texture_effect_layered::{
    apply_emissive_layer_to_mip, apply_layer_to_mip, apply_texture_layer, blend_texel, mix_surface_with_texture,
    BlendingMode, Texture, TextureElement, TextureLite,
};

fn color(b: u32, g: u32, r: u32, a: u32) -> Color32 {
    Color32(b | (g << 8) | (r << 16) | (a << 24))
}

fn channels(c: Color32) -> [u32; 4] {
    [c.0 & 0xFF, (c.0 >> 8) & 0xFF, (c.0 >> 16) & 0xFF, c.0 >> 24]
}

fn texel(c: Color32, packed: i32) -> TextureElement {
    TextureElement { diffuse: c, packed_normal_roughness: packed }
}

fn texture(size: [u32; 2], pixels: Vec<TextureElement>) -> Texture {
    Texture { size, pixels, has_normal_map: false, has_non_one_roughness: false, is_metal: false }
}

#[test]
fn layer_is_shifted_and_tiled() {
    let layer = texture([2, 2], (0 .. 4).map(|i| texel(color(i as u32, 0, 0, 255), i)).collect());
    let mut data = vec![texel(Color32(0), -1); 6];
    apply_texture_layer([3, 2], &mut data, &layer, [-1, 1], None, BlendingMode::Replace);
    let packed: Vec<i32> = data.iter().map(|t| t.packed_normal_roughness).collect();
    assert_eq!(packed, vec![3, 2, 3, 1, 0, 1]);
    assert_eq!(data[0].diffuse, layer.pixels[3].diffuse);
}

#[test]
fn large_offsets_wrap_the_euclidean_way() {
    let layer = texture([3, 1], (0 .. 3).map(|i| texel(Color32(0), i)).collect());
    let mut data = vec![texel(Color32(0), -1); 4];
    apply_texture_layer([4, 1], &mut data, &layer, [i32::MIN, i32::MAX], None, BlendingMode::Replace);
    let packed: Vec<i32> = data.iter().map(|t| t.packed_normal_roughness).collect();
    let first = (i32::MIN as i64).rem_euclid(3) as i32;
    assert_eq!(packed, vec![first, (first + 1) % 3, (first + 2) % 3, first]);
}

fn below() -> TextureElement {
    texel(color(100, 200, 50, 10), 7)
}

fn layer_texel() -> TextureElement {
    texel(color(20, 100, 250, 128), 9)
}

#[test]
fn blending_modes_mix_channel_by_channel() {
    let cases = [
        (BlendingMode::Replace, [20, 100, 250, 128], 9),
        (BlendingMode::Average, [60, 150, 150, 69], 7),
        (BlendingMode::Additive, [120, 255, 255, 138], 7),
        (BlendingMode::AlphaTest, [20, 100, 250, 128], 9),
        (BlendingMode::AlphaBlend, [59, 149, 149, 68], 7),
    ];
    for (mode, expected, packed) in cases {
        let r = blend_texel(mode, None, below(), layer_texel());
        assert_eq!(channels(r.diffuse), expected, "{:?}", mode);
        assert_eq!(r.packed_normal_roughness, packed, "{:?}", mode);
    }
}

#[test]
fn alpha_test_keeps_texel_below_a_transparent_layer() {
    let transparent = texel(color(20, 100, 250, 127), 9);
    let r = blend_texel(BlendingMode::AlphaTest, Some([256, 256, 256]), below(), transparent);
    assert_eq!(r, below());
}

#[test]
fn light_modulates_color_channels_and_clears_alpha() {
    let r = blend_texel(BlendingMode::Replace, Some([256, 128, 512]), below(), layer_texel());
    assert_eq!(channels(r.diffuse), [20, 50, 255, 0]);
    let r = blend_texel(BlendingMode::Additive, Some([512, 512, 512]), below(), layer_texel());
    assert_eq!(channels(r.diffuse), [140, 255, 255, 10]);
    let r = blend_texel(BlendingMode::AlphaBlend, Some([128, 128, 128]), below(), layer_texel());
    // Layer channels 10, 50, 125 with alpha 128 over 100, 200, 50 with weight 127.
    assert_eq!(channels(r.diffuse), [(10 * 128 + 100 * 127) / 256, (50 * 128 + 200 * 127) / 256, (125 * 128 + 50 * 127) / 256, (10 * 127) / 256]);
}

#[test]
fn first_layer_starts_an_empty_mip_from_its_copy() {
    let mut src = texture([1, 1], vec![texel(color(100, 10, 200, 255), 3)]);
    src.has_normal_map = true;
    let mut dst = texture([0, 0], vec![]);
    dst.is_metal = true;
    apply_layer_to_mip(&mut dst, &src, [0, 0], None, BlendingMode::Additive, true);
    assert_eq!(dst.size, [1, 1]);
    assert_eq!(dst.pixels, src.pixels);
    assert!(dst.has_normal_map && !dst.is_metal && !dst.has_non_one_roughness);
    apply_layer_to_mip(&mut dst, &src, [0, 0], None, BlendingMode::Additive, false);
    assert_eq!(channels(dst.pixels[0].diffuse), [200, 20, 255, 255]);
    assert_eq!(dst.pixels[0].packed_normal_roughness, 3);
}

#[test]
fn surface_colors_mix_with_a_shifted_modulated_texture() {
    let texture = TextureLite { size: [2, 1], pixels: vec![color(100, 0, 0, 255), color(0, 100, 0, 100)] };
    let mut surface = vec![color(10, 10, 10, 0); 3];
    mix_surface_with_texture([3, 1], [1, 5], &texture, BlendingMode::Additive, [512, 256, 128], &mut surface);
    // Texels 1, 0, 1 of the row; blue doubled, green kept, red halved, alpha cleared.
    assert_eq!(channels(surface[0]), [10, 110, 10, 0]);
    assert_eq!(channels(surface[1]), [210, 10, 10, 0]);
    assert_eq!(channels(surface[2]), [10, 110, 10, 0]);
    let mut tested = vec![color(1, 2, 3, 4); 2];
    mix_surface_with_texture([2, 1], [0, 0], &texture, BlendingMode::AlphaTest, [256, 256, 256], &mut tested);
    assert_eq!(channels(tested[0]), [100, 0, 0, 0]);
    assert_eq!(channels(tested[1]), [1, 2, 3, 4]);
}

#[test]
fn first_emissive_layer_starts_from_its_copy() {
    let src = TextureLite { size: [1, 1], pixels: vec![color(40, 50, 60, 70)] };
    let mut dst = TextureLite { size: [0, 0], pixels: vec![] };
    apply_emissive_layer_to_mip(&mut dst, &src, [0, 0], [256, 256, 256], BlendingMode::Average, false);
    assert_eq!(dst.size, [1, 1]);
    assert_eq!(channels(dst.pixels[0]), [40, 50, 60, 35]);
}
