use vstd::prelude::*;
use crate::color::{channel32, pack32_channels, unpack32, Color32};
use vstd::arithmetic::div_mod::{lemma_fundamental_div_mod, lemma_fundamental_div_mod_converse};

verus! {

/// The layered animation effect of a texture: its animation description and, for each layer, the
/// index of the texture that the layer draws.
pub struct GenerativeTextureEffectLayered<L> {
    pub layered_animation: L,
    pub animation_textures: Vec<u32>,
}

impl<L> GenerativeTextureEffectLayered<L> {
    /// An effect for the animation, with the texture index of each layer, in layer order.
    pub fn new(layered_animation: L, animation_textures: Vec<u32>) -> (r: Self)
        ensures
            r.layered_animation == layered_animation,
            r.animation_textures@ == animation_textures@,
    {
        GenerativeTextureEffectLayered { layered_animation, animation_textures }
    }
}

/// How a layer is put over what lies below it.
#[derive(Copy, Clone, PartialEq, Eq, Structural, Debug)]
pub enum BlendingMode {
    /// The layer replaces what lies below.
    Replace,
    /// The mean of the layer and what lies below.
    Average,
    /// The sum of the layer and what lies below.
    Additive,
    /// The layer replaces what lies below where its alpha is above half.
    AlphaTest,
    /// The layer drawn over what lies below with its alpha.
    AlphaBlend,
}

/// A texel: its diffuse color and its packed normal and roughness, carried as they are.
#[derive(Copy, Clone, PartialEq, Eq, Structural, Debug)]
pub struct TextureElement {
    pub diffuse: Color32,
    pub packed_normal_roughness: i32,
}

/// One mip level of a texture, row by row.
pub struct Texture {
    pub size: [u32; 2],
    pub pixels: Vec<TextureElement>,
    pub has_normal_map: bool,
    pub has_non_one_roughness: bool,
    pub is_metal: bool,
}

/// Largest light factor of a layer: 127 in steps of 1/256.
pub const MAX_LIGHT_FACTOR: i32 = 32512;

/// A texture whose pixels fill its size, which `i32` texel coordinates can address.
pub open spec fn texture_wf(t: Texture) -> bool {
    &&& 0 < t.size[0] <= i32::MAX
    &&& 0 < t.size[1] <= i32::MAX
    &&& t.pixels@.len() == t.size[0] * t.size[1]
}

/// Light factors of a modulated layer, per color channel in steps of 1/256, each from 0 to 127.
pub open spec fn light_factors_valid(light: Option<[i32; 3]>) -> bool {
    match light {
        Some(l) => forall|c: int| 0 <= c < 3 ==> 0 <= #[trigger] l[c] <= MAX_LIGHT_FACTOR,
        None => true,
    }
}

/// Channel `c` of a layer texel after modulation: each color channel times its light factor
/// (in 1/256 steps, rounded down), alpha 0; unmodulated, the channel itself.
pub open spec fn layer_channel(src: Color32, light: Option<[i32; 3]>, c: int) -> int {
    match light {
        Some(l) => if c < 3 {
            channel32(src.0, c) * l[c] / 256
        } else {
            0
        },
        None => channel32(src.0, c),
    }
}

/// A channel value held at 255.
pub open spec fn clamp_channel(x: int) -> int {
    if x > 255 {
        255
    } else {
        x
    }
}

/// Channel `c` of the diffuse color where a layer texel `src` is put over `dst`.
pub open spec fn blended_channel(
    mode: BlendingMode,
    light: Option<[i32; 3]>,
    dst: Color32,
    src: Color32,
    c: int,
) -> int {
    let s = layer_channel(src, light, c);
    let d = channel32(dst.0, c);
    let a = channel32(src.0, 3);
    match mode {
        BlendingMode::Replace => clamp_channel(s),
        BlendingMode::AlphaTest => clamp_channel(s),
        BlendingMode::Average => clamp_channel((s + d) / 2),
        BlendingMode::Additive => clamp_channel(s + d),
        BlendingMode::AlphaBlend => clamp_channel((s * a + d * (255 - a)) / 256),
    }
}

/// `r` is the texel `dst` with the layer texel `src` put over it: alpha testing keeps `dst` where
/// the alpha of `src` is 127 or less; otherwise the diffuse color is blended channel by channel,
/// and the normal and roughness come from `src` where the layer replaces the texel (no blending,
/// alpha test), from `dst` where it is mixed in.
pub open spec fn is_layer_blend(
    mode: BlendingMode,
    light: Option<[i32; 3]>,
    dst: TextureElement,
    src: TextureElement,
    r: TextureElement,
) -> bool {
    if mode == BlendingMode::AlphaTest && channel32(src.diffuse.0, 3) <= 127 {
        r == dst
    } else {
        &&& forall|c: int|
            0 <= c < 4 ==> #[trigger] channel32(r.diffuse.0, c) == blended_channel(
                mode,
                light,
                dst.diffuse,
                src.diffuse,
                c,
            )
        &&& r.packed_normal_roughness == if mode == BlendingMode::Replace || mode == BlendingMode::AlphaTest {
            src.packed_normal_roughness
        } else {
            dst.packed_normal_roughness
        }
    }
}

/// Index of the layer texel drawn at texel `(u, v)`: the layer is shifted by `offset` and tiled.
pub open spec fn layer_texel_index(layer_size: [u32; 2], offset: [i32; 2], u: int, v: int) -> int {
    ((offset[1] + v) % (layer_size[1] as int)) * (layer_size[0] as int) + (offset[0] + u) % (
    layer_size[0] as int)
}

/// `offset + d` taken modulo `size` the Euclidean way, as `rem_euclid` does.
fn wrap_coordinate(offset: i32, d: u32, size: u32) -> (r: u32)
    requires
        0 < size <= i32::MAX,
    ensures
        r == (offset + d) % (size as int),
        r < size,
{
    let x: i64 = offset as i64 + d as i64;
    let m: u64 = size as u64;
    if x >= 0 {
        let r = (x as u64) % m;
        r as u32
    } else {
        let y: u64 = (-x) as u64;
        let k = y % m;
        proof {
            lemma_fundamental_div_mod(y as int, m as int);
        }
        if k == 0 {
            proof {
                let q = (y as int) / (m as int);
                assert(x == (-q) * (m as int) + 0) by (nonlinear_arith)
                    requires
                        y as int == (m as int) * q + 0,
                        x == -(y as int),
                ;
                lemma_fundamental_div_mod_converse(x as int, m as int, -q, 0);
            }
            0
        } else {
            let r = m - k;
            proof {
                let q = (y as int) / (m as int);
                assert(x == (-q - 1) * (m as int) + (r as int)) by (nonlinear_arith)
                    requires
                        y as int == (m as int) * q + (k as int),
                        x == -(y as int),
                        r as int == (m as int) - (k as int),
                ;
                lemma_fundamental_div_mod_converse(x as int, m as int, -q - 1, r as int);
            }
            r as u32
        }
    }
}

/// Channel `c` of a layer texel after modulation (see `layer_channel`).
fn layer_channel_value(ch: [u32; 4], light: Option<[i32; 3]>, c: usize) -> (r: u32)
    requires
        c < 4,
        forall|k: int| 0 <= k < 4 ==> #[trigger] ch[k] < 256,
        light_factors_valid(light),
    ensures
        r <= 32385,
        forall|raw: u32|
            (forall|k: int| 0 <= k < 4 ==> #[trigger] ch[k] == channel32(raw, k)) ==> r == layer_channel(
                Color32(raw),
                light,
                c as int,
            ),
{
    match light {
        Some(l) => if c < 3 {
            let f = l[c] as u32;
            let x = ch[c];
            assert(x * f <= 255 * 32512) by (nonlinear_arith)
                requires
                    x < 256,
                    f <= 32512,
            ;
            x * f / 256
        } else {
            0
        },
        None => ch[c],
    }
}

/// A channel of the blend of layer value `s` over `d`, with the layer's alpha `a`.
fn blend_channel_value(mode: BlendingMode, s: u32, d: u32, a: u32) -> (r: u32)
    requires
        s <= 32385,
        d < 256,
        a < 256,
    ensures
        r == clamp_channel(
            match mode {
                BlendingMode::Replace => s as int,
                BlendingMode::AlphaTest => s as int,
                BlendingMode::Average => (s + d) / 2,
                BlendingMode::Additive => s + d,
                BlendingMode::AlphaBlend => (s * a + d * (255 - a)) / 256,
            },
        ),
{
    let v: u32 = match mode {
        BlendingMode::Replace => s,
        BlendingMode::AlphaTest => s,
        BlendingMode::Average => (s + d) / 2,
        BlendingMode::Additive => s + d,
        BlendingMode::AlphaBlend => {
            assert(s * a <= 32385 * 255) by (nonlinear_arith)
                requires
                    s <= 32385,
                    a < 256,
            ;
            assert(d * (255 - a) <= 255 * 255) by (nonlinear_arith)
                requires
                    d < 256,
                    a < 256,
            ;
            (s * a + d * (255 - a)) / 256
        },
    };
    if v > 255 {
        255
    } else {
        v
    }
}

/// The texel `dst` with the layer texel `src` put over it (see `is_layer_blend`).
pub fn blend_texel(mode: BlendingMode, light: Option<[i32; 3]>, dst: TextureElement, src: TextureElement) -> (r:
    TextureElement)
    requires
        light_factors_valid(light),
    ensures
        is_layer_blend(mode, light, dst, src, r),
{
    let sc = unpack32(src.diffuse.0);
    let dc = unpack32(dst.diffuse.0);
    if mode == BlendingMode::AlphaTest && sc[3] <= 127 {
        return dst;
    }
    let a = sc[3];
    let c0 = blend_channel_value(mode, layer_channel_value(sc, light, 0), dc[0], a);
    let c1 = blend_channel_value(mode, layer_channel_value(sc, light, 1), dc[1], a);
    let c2 = blend_channel_value(mode, layer_channel_value(sc, light, 2), dc[2], a);
    let c3 = blend_channel_value(mode, layer_channel_value(sc, light, 3), dc[3], a);
    let diffuse = Color32(pack32_channels([c0, c1, c2, c3]));
    let packed = match mode {
        BlendingMode::Replace => src.packed_normal_roughness,
        BlendingMode::AlphaTest => src.packed_normal_roughness,
        _ => dst.packed_normal_roughness,
    };
    let r = TextureElement { diffuse, packed_normal_roughness: packed };
    assert forall|c: int| 0 <= c < 4 implies #[trigger] channel32(r.diffuse.0, c) == blended_channel(
        mode,
        light,
        dst.diffuse,
        src.diffuse,
        c,
    ) by {
        if c == 0 {
        } else if c == 1 {
        } else if c == 2 {
        } else {
        }
    }
    r
}


/// Puts a layer texture over texture data of size `texture_size` (rows of `texture_size[0]`
/// texels): texel `(u, v)` gets the layer texel at `(u + offset[0], v + offset[1])`, the layer
/// tiled, modulated by `light` where it is given and blended by `blending_mode`.
pub fn apply_texture_layer(
    texture_size: [u32; 2],
    texture_data: &mut Vec<TextureElement>,
    layer_texture: &Texture,
    layer_texture_offset: [i32; 2],
    light: Option<[i32; 3]>,
    blending_mode: BlendingMode,
)
    requires
        old(texture_data)@.len() == texture_size[0] * texture_size[1],
        texture_wf(*layer_texture),
        light_factors_valid(light),
    ensures
        final(texture_data)@.len() == old(texture_data)@.len(),
        forall|i: int|
            0 <= i < old(texture_data)@.len() ==> is_layer_blend(
                blending_mode,
                light,
                old(texture_data)@[i],
                layer_texture.pixels@[layer_texel_index(
                    layer_texture.size,
                    layer_texture_offset,
                    i % (texture_size[0] as int),
                    i / (texture_size[0] as int),
                )],
                #[trigger] final(texture_data)@[i],
            ),
{
    let ghost old_data = texture_data@;
    let data_len = texture_data.len();
    let layer_len = layer_texture.pixels.len();
    let w = texture_size[0];
    let h = texture_size[1];
    let lw = layer_texture.size[0];
    let lh = layer_texture.size[1];
    let mut v: u32 = 0;
    while v < h
        invariant
            v <= h,
            w == texture_size[0],
            h == texture_size[1],
            lw == layer_texture.size[0],
            lh == layer_texture.size[1],
            texture_wf(*layer_texture),
            light_factors_valid(light),
            old_data.len() == w * h,
            old_data.len() == data_len,
            layer_texture.pixels@.len() == layer_len,
            texture_data@.len() == old_data.len(),
            forall|i: int|
                0 <= i < v * w ==> is_layer_blend(
                    blending_mode,
                    light,
                    old_data[i],
                    layer_texture.pixels@[layer_texel_index(
                        layer_texture.size,
                        layer_texture_offset,
                        i % (w as int),
                        i / (w as int),
                    )],
                    #[trigger] texture_data@[i],
                ),
            forall|i: int| v * w <= i < old_data.len() ==> #[trigger] texture_data@[i] == old_data[i],
        decreases h - v,
    {
        let src_v = wrap_coordinate(layer_texture_offset[1], v, lh);
        proof {
            assert((src_v as int) * (lw as int) + (lw as int) <= (lw as int) * (lh as int)) by (nonlinear_arith)
                requires
                    src_v < lh,
            ;
            assert((v as int) * (w as int) + (w as int) <= (w as int) * (h as int)) by (nonlinear_arith)
                requires
                    v < h,
            ;
        }
        let src_line_start = (src_v as usize) * (lw as usize);
        let line_start = (v as usize) * (w as usize);
        let mut src_u = wrap_coordinate(layer_texture_offset[0], 0, lw);
        let mut u: u32 = 0;
        while u < w
            invariant
                u <= w,
                v < h,
                w == texture_size[0],
                h == texture_size[1],
                lw == layer_texture.size[0],
                lh == layer_texture.size[1],
                texture_wf(*layer_texture),
                light_factors_valid(light),
                old_data.len() == w * h,
                old_data.len() == data_len,
                layer_texture.pixels@.len() == layer_len,
                texture_data@.len() == old_data.len(),
                line_start == v * w,
                line_start + w <= old_data.len(),
                src_v == (layer_texture_offset[1] + v) % (lh as int),
                src_line_start == src_v * lw,
                src_line_start + lw <= layer_texture.pixels@.len(),
                src_u < lw,
                src_u == (layer_texture_offset[0] + u) % (lw as int),
                forall|i: int|
                    0 <= i < line_start + u ==> is_layer_blend(
                        blending_mode,
                        light,
                        old_data[i],
                        layer_texture.pixels@[layer_texel_index(
                            layer_texture.size,
                            layer_texture_offset,
                            i % (w as int),
                            i / (w as int),
                        )],
                        #[trigger] texture_data@[i],
                    ),
                forall|i: int| line_start + u <= i < old_data.len() ==> #[trigger] texture_data@[i] == old_data[i],
            decreases w - u,
        {
            let i = line_start + (u as usize);
            proof {
                lemma_fundamental_div_mod_converse(i as int, w as int, v as int, u as int);
            }
            let src = layer_texture.pixels[src_line_start + (src_u as usize)];
            let dst = texture_data[i];
            let blended = blend_texel(blending_mode, light, dst, src);
            texture_data.set(i, blended);
            proof {
                let x = layer_texture_offset[0] + u;
                let q = x / (lw as int);
                lemma_fundamental_div_mod(x, lw as int);
                assert(x + 1 == q * (lw as int) + (src_u + 1)) by (nonlinear_arith)
                    requires
                        x == (lw as int) * q + src_u,
                ;
                if src_u + 1 < lw {
                    lemma_fundamental_div_mod_converse(x + 1, lw as int, q, src_u + 1);
                } else {
                    assert(x + 1 == (q + 1) * (lw as int) + 0) by (nonlinear_arith)
                        requires
                            x + 1 == q * (lw as int) + (src_u + 1),
                            src_u + 1 == lw,
                    ;
                    lemma_fundamental_div_mod_converse(x + 1, lw as int, q + 1, 0);
                }
            }
            src_u = src_u + 1;
            if src_u == lw {
                src_u = 0;
            }
            u = u + 1;
        }
        assert((v + 1) * (w as int) == (v as int) * (w as int) + (w as int)) by (nonlinear_arith);
        v = v + 1;
    }
    assert((v as int) * (w as int) == (w as int) * (h as int)) by (nonlinear_arith)
        requires
            v == h,
    ;
}


/// The texels of `t`, copied.
fn copy_texels(t: &Vec<TextureElement>) -> (r: Vec<TextureElement>)
    ensures
        r@ == t@,
{
    let mut r: Vec<TextureElement> = Vec::new();
    let mut i: usize = 0;
    while i < t.len()
        invariant
            i <= t@.len(),
            r@ == t@.take(i as int),
        decreases t@.len() - i,
    {
        r.push(t[i]);
        i = i + 1;
        assert(r@ =~= t@.take(i as int));
    }
    assert(t@.take(t@.len() as int) =~= t@);
    r
}

/// The mip that a layer is put over: the effect's own mip, or, where it holds no texels yet, a
/// copy of the layer's mip with no normal map, roughness or metal.
pub open spec fn mip_below(dst: Texture, src: Texture) -> (Seq<TextureElement>, [u32; 2], bool, bool, bool) {
    if dst.pixels@.len() == 0 {
        (src.pixels@, src.size, false, false, false)
    } else {
        (dst.pixels@, dst.size, dst.has_normal_map, dst.has_non_one_roughness, dst.is_metal)
    }
}

/// Puts one layer's mip over the effect's mip (see `mip_below` for where it starts): the layer is
/// applied with `shift`, `light` and `blending_mode` unless `skip_blending` (an additive layer
/// with no light), and the mip takes in the normal map, roughness and metal flags of the layer.
pub fn apply_layer_to_mip(
    dst_mip: &mut Texture,
    src_mip: &Texture,
    shift: [i32; 2],
    light: Option<[i32; 3]>,
    blending_mode: BlendingMode,
    skip_blending: bool,
)
    requires
        texture_wf(*src_mip),
        old(dst_mip).pixels@.len() > 0 ==> old(dst_mip).pixels@.len() == old(dst_mip).size[0] * old(
            dst_mip,
        ).size[1],
        light_factors_valid(light),
    ensures
        ({
            let (below, size, normal_map, roughness, metal) = mip_below(*old(dst_mip), *src_mip);
            &&& final(dst_mip).size == size
            &&& final(dst_mip).pixels@.len() == below.len()
            &&& skip_blending ==> final(dst_mip).pixels@ == below
            &&& !skip_blending ==> forall|i: int|
                0 <= i < below.len() ==> is_layer_blend(
                    blending_mode,
                    light,
                    below[i],
                    src_mip.pixels@[layer_texel_index(src_mip.size, shift, i % (size[0] as int), i / (size[0] as int))],
                    #[trigger] final(dst_mip).pixels@[i],
                )
            &&& final(dst_mip).has_normal_map == (normal_map || src_mip.has_normal_map)
            &&& final(dst_mip).has_non_one_roughness == (roughness || src_mip.has_non_one_roughness)
            &&& final(dst_mip).is_metal == (metal || src_mip.is_metal)
        }),
{
    if dst_mip.pixels.len() == 0 {
        dst_mip.pixels = copy_texels(&src_mip.pixels);
        dst_mip.size = src_mip.size;
        dst_mip.has_normal_map = false;
        dst_mip.has_non_one_roughness = false;
        dst_mip.is_metal = false;
    }
    if !skip_blending {
        let size = dst_mip.size;
        apply_texture_layer(size, &mut dst_mip.pixels, src_mip, shift, light, blending_mode);
    }
    dst_mip.has_normal_map = dst_mip.has_normal_map || src_mip.has_normal_map;
    dst_mip.has_non_one_roughness = dst_mip.has_non_one_roughness || src_mip.has_non_one_roughness;
    dst_mip.is_metal = dst_mip.is_metal || src_mip.is_metal;
}


/// A texture of plain colors, row by row (an emissive mip level).
pub struct TextureLite {
    pub size: [u32; 2],
    pub pixels: Vec<Color32>,
}

/// A plain-color texture whose pixels fill its size, which `i32` texel coordinates can address.
pub open spec fn texture_lite_wf(t: TextureLite) -> bool {
    &&& 0 < t.size[0] <= i32::MAX
    &&& 0 < t.size[1] <= i32::MAX
    &&& t.pixels@.len() == t.size[0] * t.size[1]
}

/// `r` is the color `dst` with the texel `src`, modulated by `light`, put over it: as
/// `is_layer_blend` does for the diffuse color.
pub open spec fn is_color_blend(mode: BlendingMode, light: [i32; 3], dst: Color32, src: Color32, r: Color32) -> bool {
    if mode == BlendingMode::AlphaTest && channel32(src.0, 3) <= 127 {
        r == dst
    } else {
        forall|c: int| 0 <= c < 4 ==> #[trigger] channel32(r.0, c) == blended_channel(mode, Some(light), dst, src, c)
    }
}

/// Puts a texture, modulated by `light`, over surface colors of size `surface_size` (rows of
/// `surface_size[0]`): color `(u, v)` gets the texel at `(u + surface_tc_min[0], v +
/// surface_tc_min[1])`, the texture tiled, blended by `blending_mode`.
pub fn mix_surface_with_texture(
    surface_size: [u32; 2],
    surface_tc_min: [i32; 2],
    texture: &TextureLite,
    blending_mode: BlendingMode,
    light: [i32; 3],
    surface_data: &mut Vec<Color32>,
)
    requires
        old(surface_data)@.len() == surface_size[0] * surface_size[1],
        texture_lite_wf(*texture),
        light_factors_valid(Some(light)),
    ensures
        final(surface_data)@.len() == old(surface_data)@.len(),
        forall|i: int|
            0 <= i < old(surface_data)@.len() ==> is_color_blend(
                blending_mode,
                light,
                old(surface_data)@[i],
                texture.pixels@[layer_texel_index(
                    texture.size,
                    surface_tc_min,
                    i % (surface_size[0] as int),
                    i / (surface_size[0] as int),
                )],
                #[trigger] final(surface_data)@[i],
            ),
{
    let ghost old_data = surface_data@;
    let data_len = surface_data.len();
    let layer_len = texture.pixels.len();
    let w = surface_size[0];
    let h = surface_size[1];
    let lw = texture.size[0];
    let lh = texture.size[1];
    let mut v: u32 = 0;
    while v < h
        invariant
            v <= h,
            w == surface_size[0],
            h == surface_size[1],
            lw == texture.size[0],
            lh == texture.size[1],
            texture_lite_wf(*texture),
            light_factors_valid(Some(light)),
            old_data.len() == w * h,
            old_data.len() == data_len,
            texture.pixels@.len() == layer_len,
            surface_data@.len() == old_data.len(),
            forall|i: int|
                0 <= i < v * w ==> is_color_blend(
                    blending_mode,
                    light,
                    old_data[i],
                    texture.pixels@[layer_texel_index(texture.size, surface_tc_min, i % (w as int), i / (w as int))],
                    #[trigger] surface_data@[i],
                ),
            forall|i: int| v * w <= i < old_data.len() ==> #[trigger] surface_data@[i] == old_data[i],
        decreases h - v,
    {
        let src_v = wrap_coordinate(surface_tc_min[1], v, lh);
        proof {
            assert((src_v as int) * (lw as int) + (lw as int) <= (lw as int) * (lh as int)) by (nonlinear_arith)
                requires
                    src_v < lh,
            ;
            assert((v as int) * (w as int) + (w as int) <= (w as int) * (h as int)) by (nonlinear_arith)
                requires
                    v < h,
            ;
        }
        let src_line_start = (src_v as usize) * (lw as usize);
        let line_start = (v as usize) * (w as usize);
        let mut src_u = wrap_coordinate(surface_tc_min[0], 0, lw);
        let mut u: u32 = 0;
        while u < w
            invariant
                u <= w,
                v < h,
                w == surface_size[0],
                h == surface_size[1],
                lw == texture.size[0],
                lh == texture.size[1],
                texture_lite_wf(*texture),
                light_factors_valid(Some(light)),
                old_data.len() == w * h,
                old_data.len() == data_len,
                texture.pixels@.len() == layer_len,
                surface_data@.len() == old_data.len(),
                line_start == v * w,
                line_start + w <= old_data.len(),
                src_v == (surface_tc_min[1] + v) % (lh as int),
                src_line_start == src_v * lw,
                src_line_start + lw <= texture.pixels@.len(),
                src_u < lw,
                src_u == (surface_tc_min[0] + u) % (lw as int),
                forall|i: int|
                    0 <= i < line_start + u ==> is_color_blend(
                        blending_mode,
                        light,
                        old_data[i],
                        texture.pixels@[layer_texel_index(texture.size, surface_tc_min, i % (w as int), i / (w as int))],
                        #[trigger] surface_data@[i],
                    ),
                forall|i: int| line_start + u <= i < old_data.len() ==> #[trigger] surface_data@[i] == old_data[i],
            decreases w - u,
        {
            let i = line_start + (u as usize);
            proof {
                lemma_fundamental_div_mod_converse(i as int, w as int, v as int, u as int);
            }
            let src = texture.pixels[src_line_start + (src_u as usize)];
            let dst = surface_data[i];
            let blended = blend_texel(
                blending_mode,
                Some(light),
                TextureElement { diffuse: dst, packed_normal_roughness: 0 },
                TextureElement { diffuse: src, packed_normal_roughness: 0 },
            );
            surface_data.set(i, blended.diffuse);
            proof {
                let x = surface_tc_min[0] + u;
                let q = x / (lw as int);
                lemma_fundamental_div_mod(x, lw as int);
                assert(x + 1 == q * (lw as int) + (src_u + 1)) by (nonlinear_arith)
                    requires
                        x == (lw as int) * q + src_u,
                ;
                if src_u + 1 < lw {
                    lemma_fundamental_div_mod_converse(x + 1, lw as int, q, src_u + 1);
                } else {
                    assert(x + 1 == (q + 1) * (lw as int) + 0) by (nonlinear_arith)
                        requires
                            x + 1 == q * (lw as int) + (src_u + 1),
                            src_u + 1 == lw,
                    ;
                    lemma_fundamental_div_mod_converse(x + 1, lw as int, q + 1, 0);
                }
            }
            src_u = src_u + 1;
            if src_u == lw {
                src_u = 0;
            }
            u = u + 1;
        }
        assert((v + 1) * (w as int) == (v as int) * (w as int) + (w as int)) by (nonlinear_arith);
        v = v + 1;
    }
    assert((v as int) * (w as int) == (w as int) * (h as int)) by (nonlinear_arith)
        requires
            v == h,
    ;
}

/// The colors of `t`, copied.
fn copy_colors(t: &Vec<Color32>) -> (r: Vec<Color32>)
    ensures
        r@ == t@,
{
    let mut r: Vec<Color32> = Vec::new();
    let mut i: usize = 0;
    while i < t.len()
        invariant
            i <= t@.len(),
            r@ == t@.take(i as int),
        decreases t@.len() - i,
    {
        r.push(t[i]);
        i = i + 1;
        assert(r@ =~= t@.take(i as int));
    }
    assert(t@.take(t@.len() as int) =~= t@);
    r
}

/// Puts one layer's emissive mip over the effect's emissive mip: a mip not yet drawn starts as a
/// copy of the layer's mip; unless `skip_blending` (an additive layer with no light), the layer
/// is mixed in with `shift`, `light` and `blending_mode`.
pub fn apply_emissive_layer_to_mip(
    dst_mip: &mut TextureLite,
    src_mip: &TextureLite,
    shift: [i32; 2],
    light: [i32; 3],
    blending_mode: BlendingMode,
    skip_blending: bool,
)
    requires
        texture_lite_wf(*src_mip),
        old(dst_mip).pixels@.len() > 0 ==> old(dst_mip).pixels@.len() == old(dst_mip).size[0] * old(
            dst_mip,
        ).size[1],
        light_factors_valid(Some(light)),
    ensures
        ({
            let start = if old(dst_mip).pixels@.len() == 0 {
                *src_mip
            } else {
                *old(dst_mip)
            };
            &&& final(dst_mip).size == start.size
            &&& final(dst_mip).pixels@.len() == start.pixels@.len()
            &&& skip_blending ==> final(dst_mip).pixels@ == start.pixels@
            &&& !skip_blending ==> forall|i: int|
                0 <= i < start.pixels@.len() ==> is_color_blend(
                    blending_mode,
                    light,
                    start.pixels@[i],
                    src_mip.pixels@[layer_texel_index(
                        src_mip.size,
                        shift,
                        i % (start.size[0] as int),
                        i / (start.size[0] as int),
                    )],
                    #[trigger] final(dst_mip).pixels@[i],
                )
        }),
{
    if dst_mip.pixels.len() == 0 {
        dst_mip.pixels = copy_colors(&src_mip.pixels);
        dst_mip.size = src_mip.size;
    }
    if !skip_blending {
        let size = dst_mip.size;
        mix_surface_with_texture(size, shift, src_mip, blending_mode, light, &mut dst_mip.pixels);
    }
}

} // verus!
