use vstd::prelude::*;

verus! {

/// The turbulence effect of a texture: its parameters and a buffer of precomputed wave shifts.
pub struct GenerativeTextureEffectTurb<P> {
    pub turb_params: P,
    pub temp_buffer: Vec<i32>,
}

impl<P> GenerativeTextureEffectTurb<P> {
    /// An effect with the given parameters and an empty shift buffer.
    pub fn new(turb_params: P) -> (r: Self)
        ensures
            r.turb_params == turb_params,
            r.temp_buffer@.len() == 0,
    {
        GenerativeTextureEffectTurb { turb_params, temp_buffer: Vec::new() }
    }

    /// Texels this effect updates: those of the texture, and half of those of its emissive texture.
    pub fn get_estimated_texel_count(&self, texture_size: [u32; 2], emissive_size: Option<[u32; 2]>) -> (r: u32)
        requires
            texture_size[0] * texture_size[1] + match emissive_size {
                Some(e) => e[0] * e[1] / 2,
                None => 0,
            } <= u32::MAX,
            emissive_size matches Some(e) ==> e[0] * e[1] <= u32::MAX,
        ensures
            r == texture_size[0] * texture_size[1] + match emissive_size {
                Some(e) => e[0] * e[1] / 2,
                None => 0,
            },
    {
        proof {
            lemma_mul_nonneg(texture_size[0] as int, texture_size[1] as int);
            if let Some(e) = emissive_size {
                lemma_mul_nonneg(e[0] as int, e[1] as int);
            }
        }
        let mut s = texture_size[0] * texture_size[1];
        if let Some(e) = emissive_size {
            s = s + e[0] * e[1] / 2;
        }
        s
    }
}

proof fn lemma_mul_nonneg(a: int, b: int)
    requires
        a >= 0,
        b >= 0,
    ensures
        a * b >= 0,
{
    assert(a * b >= 0) by (nonlinear_arith)
        requires
            a >= 0,
            b >= 0,
    ;
}

/// `w` is a positive power of two.
pub open spec fn is_pow2_size(w: i32) -> bool {
    w > 0 && w & ((w - 1) as i32) == 0
}

/// Coordinate `u` wrapped into `[0, w)` by the mask `w - 1`.
pub open spec fn wrap(u: i32, w: i32) -> i32 {
    u & ((w - 1) as i32)
}

/// Wrapping keeps a coordinate within the size, leaves coordinates within it alone, and repeats with
/// the size as period.
pub proof fn lemma_wrap(u: i32, w: i32)
    requires
        is_pow2_size(w),
    ensures
        0 <= wrap(u, w) < w,
        0 <= u < w ==> wrap(u, w) == u,
        u <= i32::MAX - w ==> wrap((u + w) as i32, w) == wrap(u, w),
{
    assert(0 <= (u & ((w - 1) as i32)) < w) by (bit_vector)
        requires
            w > 0,
            w & ((w - 1) as i32) == 0,
    ;
    assert(0 <= u < w ==> (u & ((w - 1) as i32)) == u) by (bit_vector)
        requires
            w > 0,
            w & ((w - 1) as i32) == 0,
    ;
    assert(u <= i32::MAX - w ==> (((u + w) as i32) & ((w - 1) as i32)) == (u & ((w - 1) as i32))) by (bit_vector)
        requires
            w > 0,
            w & ((w - 1) as i32) == 0,
    ;
}

/// Pixel at `(x, y)` of a distorted texture of size `w * h`: the source pixel moved by the shift of
/// its row along x and by the shift of its column along y, both wrapped into the texture.
pub open spec fn turb_source_index(shifts: Seq<i32>, w: i32, h: i32, x: int, y: int) -> int {
    wrap((x + shifts[y]) as i32, w) + wrap((y + shifts[x]) as i32, h) * w
}

/// The shifts keep every moved coordinate within the range of `i32`.
pub open spec fn shifts_fit(shifts: Seq<i32>, w: i32, h: i32) -> bool {
    &&& forall|y: int| 0 <= y < h ==> i32::MIN <= #[trigger] shifts[y] <= i32::MAX - w
    &&& forall|x: int| 0 <= x < w ==> i32::MIN <= #[trigger] shifts[x] <= i32::MAX - h
}

/// Copies `src_pixels` into `dst_pixels` with the turbulence shifts applied: each row is shifted
/// along x by the shift of its index, each column along y by the shift of its index, with the
/// texture repeating. Sizes are powers of two; `shifts` holds one shift per row and per column.
pub fn make_turb_distortion<T: Copy>(size: [i32; 2], shifts: &Vec<i32>, src_pixels: &Vec<T>, dst_pixels: &mut Vec<T>)
    requires
        is_pow2_size(size[0]),
        is_pow2_size(size[1]),
        size[0] * size[1] <= i32::MAX,
        size[0] * size[1] <= src_pixels@.len(),
        size[0] * size[1] <= old(dst_pixels)@.len(),
        shifts@.len() >= size[0],
        shifts@.len() >= size[1],
        shifts_fit(shifts@, size[0], size[1]),
    ensures
        final(dst_pixels)@.len() == old(dst_pixels)@.len(),
        forall|x: int, y: int|
            0 <= x < size[0] && 0 <= y < size[1] ==> #[trigger] final(dst_pixels)@[y * size[0] + x]
                == src_pixels@[turb_source_index(shifts@, size[0], size[1], x, y)],
        forall|i: int| size[0] * size[1] <= i < old(dst_pixels)@.len() ==> #[trigger] final(dst_pixels)@[i] == old(dst_pixels)@[i],
{
    let w = size[0];
    let h = size[1];
    let mask = [w - 1, h - 1];
    let mut y: i32 = 0;
    while y < h
        invariant
            is_pow2_size(w),
            is_pow2_size(h),
            mask[0] == w - 1,
            mask[1] == h - 1,
            0 <= y <= h,
            w * h <= i32::MAX,
            w * h <= src_pixels@.len(),
            w * h <= dst_pixels@.len(),
            dst_pixels@.len() == old(dst_pixels)@.len(),
            shifts@.len() >= w,
            shifts@.len() >= h,
            shifts_fit(shifts@, w, h),
            forall|xx: int, yy: int|
                0 <= xx < w && 0 <= yy < y ==> #[trigger] dst_pixels@[yy * w + xx] == src_pixels@[turb_source_index(
                    shifts@,
                    w,
                    h,
                    xx,
                    yy,
                )],
            forall|i: int| w * h <= i < old(dst_pixels)@.len() ==> #[trigger] dst_pixels@[i] == old(dst_pixels)@[i],
        decreases h - y,
    {
        let row_shift = shifts[y as usize];
        let mut x: i32 = 0;
        while x < w
            invariant
                is_pow2_size(w),
                is_pow2_size(h),
                mask[0] == w - 1,
                mask[1] == h - 1,
                0 <= y < h,
                0 <= x <= w,
                row_shift == shifts@[y as int],
                w * h <= i32::MAX,
            w * h <= src_pixels@.len(),
                w * h <= dst_pixels@.len(),
                dst_pixels@.len() == old(dst_pixels)@.len(),
                shifts@.len() >= w,
                shifts@.len() >= h,
                shifts_fit(shifts@, w, h),
                forall|xx: int, yy: int|
                    0 <= xx < w && 0 <= yy < y ==> #[trigger] dst_pixels@[yy * w + xx] == src_pixels@[turb_source_index(
                        shifts@,
                        w,
                        h,
                        xx,
                        yy,
                    )],
                forall|xx: int|
                    0 <= xx < x ==> #[trigger] dst_pixels@[y * w + xx] == src_pixels@[turb_source_index(
                        shifts@,
                        w,
                        h,
                        xx,
                        y as int,
                    )],
                forall|i: int| w * h <= i < old(dst_pixels)@.len() ==> #[trigger] dst_pixels@[i] == old(dst_pixels)@[i],
            decreases w - x,
        {
            let column_shift = shifts[x as usize];
            let u = x + row_shift;
            let v = y + column_shift;
            let su = u & mask[0];
            let sv = v & mask[1];
            proof {
                lemma_wrap(u, w);
                lemma_wrap(v, h);
                assert(sv * w + su < w * h) by (nonlinear_arith)
                    requires
                        0 <= su < w,
                        0 <= sv < h,
                ;
                assert(0 <= sv * w) by (nonlinear_arith)
                    requires
                        0 <= sv,
                        0 < w,
                ;
                assert(y * w + x < w * h) by (nonlinear_arith)
                    requires
                        0 <= x < w,
                        0 <= y < h,
                ;
                assert(0 <= y * w) by (nonlinear_arith)
                    requires
                        0 <= y,
                        0 < w,
                ;
            }
            let src_index = (su + sv * w) as usize;
            let dst_index = (y * w + x) as usize;
            let p = src_pixels[src_index];
            dst_pixels.set(dst_index, p);
            proof {
                assert forall|xx: int, yy: int|
                    0 <= xx < w && 0 <= yy < y implies #[trigger] dst_pixels@[yy * w + xx] == src_pixels@[turb_source_index(
                    shifts@,
                    w,
                    h,
                    xx,
                    yy,
                )] by {
                    assert(yy * w + xx < y * w) by (nonlinear_arith)
                        requires
                            0 <= xx < w,
                            0 <= yy < y,
                    ;
                }
                assert forall|xx: int| 0 <= xx < x + 1 implies #[trigger] dst_pixels@[y * w + xx] == src_pixels@[turb_source_index(
                    shifts@,
                    w,
                    h,
                    xx,
                    y as int,
                )] by {}
            }
            x = x + 1;
        }
        proof {
            assert forall|xx: int, yy: int|
                0 <= xx < w && 0 <= yy < y + 1 implies #[trigger] dst_pixels@[yy * w + xx] == src_pixels@[turb_source_index(
                shifts@,
                w,
                h,
                xx,
                yy,
            )] by {
                if yy == y {
                    assert(dst_pixels@[y * w + xx] == src_pixels@[turb_source_index(shifts@, w, h, xx, y as int)]);
                }
            }
        }
        y = y + 1;
    }
}

} // verus!
