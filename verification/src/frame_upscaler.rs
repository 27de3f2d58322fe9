use vstd::prelude::*;
use crate::color::Color32;

verus! {

/// The greatest upscale factor.
pub const MAX_FRAME_SCALE: usize = 6;

/// Size and line pitch (in pixels) of a pixel surface.
#[derive(Copy, Clone, PartialEq, Eq, Structural)]
pub struct SurfaceInfo {
    pub width: usize,
    pub height: usize,
    pub pitch: usize,
}

/// Renders into a reduced buffer, then copies it up to the full frame.
pub struct FrameUpscaler {
    buffer: Vec<Color32>,
}

/// Index of pixel `(x, y)` in a surface with the given pitch.
pub open spec fn pixel_index(x: int, y: int, pitch: int) -> int {
    y * pitch + x
}

/// The reduced-buffer coordinate that full-size coordinate `c` is taken from:
/// `c / scale`, clamped to the last reduced cell.
pub open spec fn source_coord(c: int, scale: int, reduced: int) -> int {
    if c / scale < reduced { c / scale } else { reduced - 1 }
}

/// Pixel `(x, y)` of the full frame after upscaling the reduced buffer.
pub open spec fn upscaled_pixel(buffer: Seq<Color32>, surface: SurfaceInfo, scale: int, x: int, y: int) -> Color32 {
    let rw = surface.width as int / scale;
    let rh = surface.height as int / scale;
    buffer[source_coord(x, scale, rw) + source_coord(y, scale, rh) * rw]
}

/// Upscaling does not panic on this surface and scale: a dimension is either
/// empty or holds at least one whole reduced cell.
pub open spec fn upscale_accepts(surface: SurfaceInfo, scale: int, num_pixels: int) -> bool {
    &&& 1 <= scale
    &&& (surface.height == 0 || surface.height >= scale)
    &&& (surface.height == 0 || surface.width == 0 || surface.width >= scale)
    &&& surface.width <= surface.pitch
    &&& (surface.height > 0 ==> (surface.height - 1) * surface.pitch + surface.width <= num_pixels)
}

proof fn lemma_div_in_block(x: int, q: int, s: int)
    requires
        s > 0,
        q * s <= x < q * s + s,
    ensures
        x / s == q,
{
    vstd::arithmetic::div_mod::lemma_fundamental_div_mod_converse(x, s, q, x - q * s);
}

proof fn lemma_div_past_blocks(x: int, n: int, s: int)
    requires
        s > 0,
        n >= 0,
        x >= n * s,
    ensures
        x / s >= n,
{
    vstd::arithmetic::div_mod::lemma_div_is_ordered(n * s, x, s);
    vstd::arithmetic::div_mod::lemma_div_multiples_vanish(n, s);
    vstd::arithmetic::mul::lemma_mul_is_commutative(n, s);
}

proof fn lemma_row_before(yy: int, y: int, xx: int, pitch: int)
    requires
        0 <= yy < y,
        0 <= xx < pitch,
    ensures
        yy * pitch + xx < y * pitch,
{
    assert(yy * pitch + pitch <= y * pitch) by (nonlinear_arith)
        requires
            yy < y,
            pitch > 0,
    ;
}

proof fn lemma_source_coord(c: int, q: int, d: int, scale: int, reduced: int)
    requires
        scale > 0,
        0 <= q < reduced,
        c == q * scale + d,
        0 <= d,
        d < scale || q == reduced - 1,
    ensures
        source_coord(c, scale, reduced) == q,
{
    if d < scale {
        lemma_div_in_block(c, q, scale);
    } else {
        assert(c >= reduced * scale) by (nonlinear_arith)
            requires
                c == q * scale + d,
                q == reduced - 1,
                d >= scale,
        ;
        lemma_div_past_blocks(c, reduced, scale);
    }
}

/// What upscaling does to a pixel surface: every pixel of the `width` x `height`
/// rectangle gets its reduced-buffer pixel, every other pixel keeps its value.
/// When the reduced buffer is too small for the surface, nothing changes.
pub open spec fn upscale_result(
    old_pixels: Seq<Color32>,
    new_pixels: Seq<Color32>,
    buffer: Seq<Color32>,
    surface: SurfaceInfo,
    scale: int,
) -> bool {
    let w = surface.width as int;
    let h = surface.height as int;
    let pitch = surface.pitch as int;
    &&& new_pixels.len() == old_pixels.len()
    &&& if buffer.len() < (w / scale) * (h / scale) {
        new_pixels == old_pixels
    } else {
        &&& forall|x: int, y: int|
            0 <= x < w && 0 <= y < h ==> #[trigger] new_pixels[pixel_index(x, y, pitch)] == upscaled_pixel(
                buffer,
                surface,
                scale,
                x,
                y,
            )
        &&& forall|x: int, y: int|
            0 <= y && w <= x < pitch && pixel_index(x, y, pitch) < old_pixels.len() ==> #[trigger] new_pixels[pixel_index(
                x,
                y,
                pitch,
            )] == old_pixels[pixel_index(x, y, pitch)]
        &&& forall|i: int| h * pitch <= i < old_pixels.len() ==> #[trigger] new_pixels[i] == old_pixels[i]
    }
}

/// The reduced buffer after making it hold `target` pixels: kept as it is when it is long enough,
/// else grown to `target` pixels with black ones.
pub open spec fn draw_buffer_after(buffer: Seq<Color32>, target: int) -> Seq<Color32> {
    if buffer.len() >= target {
        buffer
    } else {
        buffer + Seq::new((target - buffer.len()) as nat, |i: int| Color32(0))
    }
}

impl FrameUpscaler {
    pub closed spec fn buffer_view(&self) -> Seq<Color32> {
        self.buffer@
    }

    pub fn new() -> (r: FrameUpscaler)
        ensures
            r.buffer_view().len() == 0,
    {
        FrameUpscaler { buffer: Vec::new() }
    }

    /// Makes the reduced buffer large enough for the surface divided by `scale`
    /// and returns it with the reduced surface description.
    pub fn get_draw_buffer(&mut self, surface_info: &SurfaceInfo, scale: usize) -> (r: (&mut Vec<Color32>, SurfaceInfo))
        requires
            scale > 0,
            (surface_info.width / scale) * (surface_info.height / scale) <= usize::MAX,
        ensures
            r.1.width == surface_info.width / scale,
            r.1.height == surface_info.height / scale,
            r.1.pitch == r.1.width,
            r.0@ == draw_buffer_after(
                old(self).buffer_view(),
                (surface_info.width / scale) * (surface_info.height / scale),
            ),
            final(self).buffer_view() == final(r.0)@,
    {
        let width = surface_info.width / scale;
        let height = surface_info.height / scale;
        let target_size = width * height;
        if self.buffer.len() < target_size {
            let ghost before = self.buffer@;
            self.buffer.resize(target_size, Color32::black());
            assert(self.buffer@ =~= draw_buffer_after(before, target_size as int));
        }
        (&mut self.buffer, SurfaceInfo { width, height, pitch: width })
    }

    /// A new upscaler's first draw buffer for a surface is exactly the reduced surface's pixels,
    /// all black.
    pub proof fn lemma_first_draw_buffer_is_black(upscaler: FrameUpscaler, target: int)
        requires
            upscaler.buffer_view().len() == 0,
            target >= 0,
        ensures
            draw_buffer_after(upscaler.buffer_view(), target) =~= Seq::new(target as nat, |i: int| Color32(0)),
    {
    }

    /// Copies the reduced buffer onto `pixels`, scaling it up `scale` times.
    /// Pixels past the last whole reduced cell repeat the last reduced row or column.
    pub fn perform_upscale(&mut self, pixels: &mut [Color32], surface_info: &SurfaceInfo, scale: usize)
        requires
            1 <= scale <= MAX_FRAME_SCALE,
            (surface_info.width / scale) * (surface_info.height / scale) <= usize::MAX,
            old(self).buffer_view().len() >= (surface_info.width / scale) * (surface_info.height / scale)
                ==> upscale_accepts(*surface_info, scale as int, old(pixels)@.len() as int),
        ensures
            final(self).buffer_view() == old(self).buffer_view(),
            upscale_result(old(pixels)@, final(pixels)@, old(self).buffer_view(), *surface_info, scale as int),
    {
        self.perform_upscale_impl(pixels, surface_info, scale)
    }

    fn perform_upscale_impl(&mut self, pixels: &mut [Color32], surface_info: &SurfaceInfo, scale: usize)
        requires
            1 <= scale,
            (surface_info.width / scale) * (surface_info.height / scale) <= usize::MAX,
            old(self).buffer_view().len() >= (surface_info.width / scale) * (surface_info.height / scale)
                ==> upscale_accepts(*surface_info, scale as int, old(pixels)@.len() as int),
        ensures
            final(self).buffer_view() == old(self).buffer_view(),
            upscale_result(old(pixels)@, final(pixels)@, old(self).buffer_view(), *surface_info, scale as int),
    {
        let w = surface_info.width;
        let h = surface_info.height;
        let pitch = surface_info.pitch;
        let ghost old_px = pixels@;
        let num_pixels = pixels.len();
        let scaled_width = w / scale;
        let scaled_height = h / scale;
        let buffer_size = scaled_width * scaled_height;
        if self.buffer.len() < buffer_size {
            return;
        }
        if w == 0 || h == 0 {
            proof {
                assert forall|i: int| h * pitch <= i < old_px.len() implies #[trigger] pixels@[i] == old_px[i] by {}
            }
            return;
        }
        proof {
            assert(scaled_width >= 1 && scaled_height >= 1) by {
                lemma_div_past_blocks(w as int, 1, scale as int);
                lemma_div_past_blocks(h as int, 1, scale as int);
            }
            vstd::arithmetic::div_mod::lemma_fundamental_div_mod(w as int, scale as int);
            vstd::arithmetic::div_mod::lemma_fundamental_div_mod(h as int, scale as int);
            vstd::arithmetic::div_mod::lemma_mod_pos_bound(w as int, scale as int);
            vstd::arithmetic::div_mod::lemma_mod_pos_bound(h as int, scale as int);
            vstd::arithmetic::mul::lemma_mul_is_commutative(scale as int, scaled_width as int);
            vstd::arithmetic::mul::lemma_mul_is_commutative(scale as int, scaled_height as int);
            assert(scaled_width * scaled_height <= w * h) by (nonlinear_arith)
                requires
                    scaled_width * scale <= w,
                    scaled_height * scale <= h,
                    scale >= 1,
                    scaled_width >= 0,
                    scaled_height >= 0,
            {
                assert(scaled_width * scaled_height <= (scaled_width * scale) * (scaled_height * scale));
            }
            vstd::arithmetic::div_mod::lemma_fundamental_div_mod(w as int, scale as int);
            vstd::arithmetic::div_mod::lemma_fundamental_div_mod(h as int, scale as int);
            assert(w * h <= (h - 1) * pitch + w) by (nonlinear_arith)
                requires
                    w <= pitch,
                    h >= 1,
            ;
        }
        let ghost buf = self.buffer@;
        let ghost surface = *surface_info;

        let mut y: usize = 0;
        let mut src_y: usize = 0;
        let mut dy: usize = 0;
        while y < h
            invariant
                w == surface.width,
                h == surface.height,
                pitch == surface.pitch,
                surface == *surface_info,
                1 <= scale,
                w >= scale,
                h >= scale,
                w <= pitch,
                scaled_width == w / scale,
                scaled_height == h / scale,
                1 <= scaled_width,
                1 <= scaled_height,
                self.buffer@ == buf,
                buf.len() >= scaled_width * scaled_height,
                (h - 1) * pitch + w <= old_px.len(),
                old_px.len() == num_pixels,
                scaled_width * scaled_height <= usize::MAX,
                pixels@.len() == old_px.len(),
                y <= h,
                src_y < scaled_height,
                y == src_y * scale + dy,
                dy < scale || src_y == scaled_height - 1,
                forall|xx: int, yy: int|
                    0 <= xx < w && 0 <= yy < y ==> #[trigger] pixels@[pixel_index(xx, yy, pitch as int)]
                        == upscaled_pixel(buf, surface, scale as int, xx, yy),
                forall|xx: int, yy: int|
                    0 <= yy && w <= xx < pitch && pixel_index(xx, yy, pitch as int) < old_px.len()
                        ==> #[trigger] pixels@[pixel_index(xx, yy, pitch as int)] == old_px[pixel_index(
                        xx,
                        yy,
                        pitch as int,
                    )],
                forall|i: int| y * pitch <= i < old_px.len() ==> #[trigger] pixels@[i] == old_px[i],
            decreases h - y,
        {
            proof {
                assert(y * pitch + w <= (h - 1) * pitch + w) by (nonlinear_arith)
                    requires
                        y < h,
                        pitch >= 0,
                ;
                assert(src_y * scaled_width + scaled_width <= scaled_width * scaled_height) by (nonlinear_arith)
                    requires
                        src_y < scaled_height,
                        scaled_width >= 0,
                ;
                lemma_source_coord(y as int, src_y as int, dy as int, scale as int, scaled_height as int);
            }
            let row = y * pitch;
            let src_row = src_y * scaled_width;
            let ghost row_px = pixels@;
            let mut x: usize = 0;
            let mut src_x: usize = 0;
            let mut dx: usize = 0;
            while x < w
                invariant
                    w == surface.width,
                    h == surface.height,
                    pitch == surface.pitch,
                    1 <= scale,
                    scaled_width == w / scale,
                    scaled_height == h / scale,
                    1 <= scaled_width,
                    self.buffer@ == buf,
                    src_row + scaled_width <= buf.len(),
                    src_row + scaled_width <= scaled_width * scaled_height,
                    scaled_width * scaled_height <= usize::MAX,
                    src_row == src_y * scaled_width,
                    source_coord(y as int, scale as int, scaled_height as int) == src_y,
                    row == y * pitch,
                    row + w <= pixels@.len(),
                    pixels@.len() == num_pixels,
                    pixels@.len() == row_px.len(),
                    x <= w,
                    src_x < scaled_width,
                    x == src_x * scale + dx,
                    dx < scale || src_x == scaled_width - 1,
                    forall|xx: int| 0 <= xx < x ==> #[trigger] pixels@[row + xx] == upscaled_pixel(buf, surface, scale as int, xx, y as int),
                    forall|i: int| 0 <= i < pixels@.len() && (i < row || i >= row + x) ==> #[trigger] pixels@[i] == row_px[i],
                decreases w - x,
            {
                proof {
                    lemma_source_coord(x as int, src_x as int, dx as int, scale as int, scaled_width as int);
                }
                pixels[row + x] = self.buffer[src_row + src_x];
                proof {
                    assert((src_x + 1) * scale == src_x * scale + scale) by (nonlinear_arith);
                }
                x = x + 1;
                dx = dx + 1;
                if dx == scale && src_x + 1 < scaled_width {
                    dx = 0;
                    src_x = src_x + 1;
                }
            }
            proof {
                assert forall|xx: int, yy: int|
                    0 <= xx < w && 0 <= yy < y + 1 implies #[trigger] pixels@[pixel_index(xx, yy, pitch as int)]
                        == upscaled_pixel(buf, surface, scale as int, xx, yy) by {
                    if yy < y {
                        lemma_row_before(yy, y as int, xx, pitch as int);
                        assert(pixels@[pixel_index(xx, yy, pitch as int)] == row_px[pixel_index(xx, yy, pitch as int)]);
                    } else {
                        assert(pixel_index(xx, yy, pitch as int) == row + xx);
                    }
                }
                assert forall|xx: int, yy: int|
                    0 <= yy && w <= xx < pitch && pixel_index(xx, yy, pitch as int) < old_px.len()
                        implies #[trigger] pixels@[pixel_index(xx, yy, pitch as int)] == old_px[pixel_index(
                        xx,
                        yy,
                        pitch as int,
                    )] by {
                    if yy < y {
                        lemma_row_before(yy, y as int, xx, pitch as int);
                        assert(pixels@[pixel_index(xx, yy, pitch as int)] == row_px[pixel_index(xx, yy, pitch as int)]);
                    } else if yy == y {
                        assert(x == w);
                        assert(pixel_index(xx, yy, pitch as int) == row + xx);
                        assert(pixels@[pixel_index(xx, yy, pitch as int)] == row_px[pixel_index(xx, yy, pitch as int)]);
                    } else {
                        assert(pixel_index(xx, yy, pitch as int) >= (y + 1) * pitch) by (nonlinear_arith)
                            requires
                                yy > y,
                                xx >= 0,
                                pitch >= 0,
                        ;
                        assert((y + 1) * pitch == y * pitch + pitch) by (nonlinear_arith);
                        assert(pixels@[pixel_index(xx, yy, pitch as int)] == row_px[pixel_index(xx, yy, pitch as int)]);
                    }
                }
                assert((y + 1) * pitch == y * pitch + pitch) by (nonlinear_arith);
            }
            proof {
                assert((src_y + 1) * scale == src_y * scale + scale) by (nonlinear_arith);
            }
            y = y + 1;
            dy = dy + 1;
            if dy == scale && src_y + 1 < scaled_height {
                dy = 0;
                src_y = src_y + 1;
            }
        }
    }
}

} // verus!
