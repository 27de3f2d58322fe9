use vstd::prelude::*;
use crate::color::{Color32, pack32};

verus! {

/// Index of the smallest mip of a texture.
pub const MAX_MIP: usize = 3;

/// Number of mips of a texture.
pub const NUM_MIPS: usize = 4;

/// An image: size and row-major pixels.
pub struct Image {
    pub size: [u32; 2],
    pub pixels: Vec<Color32>,
}

/// The gray color with all three channels at `v`.
pub open spec fn gray(v: int) -> Color32 {
    Color32(pack32(v, v, v, 0) as u32)
}

/// Color of the stub image at `(x, y)`: a checkerboard of 8x8 squares, light where the square
/// numbers along x and y differ in parity.
pub open spec fn stub_color(x: int, y: int) -> Color32 {
    if (x / 8 + y / 8) % 2 == 1 {
        gray(224)
    } else {
        gray(160)
    }
}

/// The image used where a texture cannot be loaded: a 32x32 checkerboard of two grays.
pub fn make_stub_image() -> (r: Image)
    ensures
        r.size == [32u32, 32u32],
        r.pixels@.len() == 32 * 32,
        forall|x: int, y: int| 0 <= x < 32 && 0 <= y < 32 ==> #[trigger] r.pixels@[x + y * 32] == stub_color(x, y),
{
    let size: u32 = 32;
    let light = Color32::from_rgb(224, 224, 224);
    let dark = Color32::from_rgb(160, 160, 160);
    let mut pixels: Vec<Color32> = Vec::new();
    let mut y: u32 = 0;
    while y < size
        invariant
            y <= size,
            size == 32,
            light == gray(224),
            dark == gray(160),
            pixels@.len() == y * 32,
            forall|xx: int, yy: int| 0 <= xx < 32 && 0 <= yy < y ==> #[trigger] pixels@[xx + yy * 32] == stub_color(xx, yy),
        decreases size - y,
    {
        let mut x: u32 = 0;
        while x < size
            invariant
                x <= size,
                y < size,
                size == 32,
                light == gray(224),
                dark == gray(160),
                pixels@.len() == y * 32 + x,
                forall|xx: int, yy: int| 0 <= xx < 32 && 0 <= yy < y ==> #[trigger] pixels@[xx + yy * 32] == stub_color(xx, yy),
                forall|xx: int| 0 <= xx < x ==> #[trigger] pixels@[xx + y * 32] == stub_color(xx, y as int),
            decreases size - x,
        {
            let odd = ((x >> 3u32) ^ (y >> 3u32)) & 1 != 0;
            assert(odd == ((x / 8 + y / 8) % 2 == 1)) by (bit_vector)
                requires
                    odd == (((x >> 3u32) ^ (y >> 3u32)) & 1 != 0),
                    x < 32,
                    y < 32,
            ;
            let color = if odd {
                light
            } else {
                dark
            };
            pixels.push(color);
            x = x + 1;
        }
        y = y + 1;
    }
    Image { size: [size, size], pixels }
}

/// Source pixel of the pixel `(x, y)` of an image resized from `src_size` to `dst_size` with the
/// nearest filter.
pub open spec fn nearest_source_index(src_size: [u32; 2], dst_size: [u32; 2], x: int, y: int) -> int {
    (x * src_size[0]) / (dst_size[0] as int) + ((y * src_size[1]) / (dst_size[1] as int)) * src_size[0]
}

/// The image resized to `target_size` with the nearest filter.
pub fn resize_image(image: &Image, target_size: [u32; 2]) -> (r: Image)
    requires
        image.pixels@.len() == image.size[0] * image.size[1],
        image.size[0] * image.size[1] <= u32::MAX,
        target_size[0] * target_size[1] <= u32::MAX,
        target_size[0] * image.size[0] <= u32::MAX,
        target_size[1] * image.size[1] <= u32::MAX,
        target_size[0] > 0 && target_size[1] > 0 ==> image.size[0] > 0 && image.size[1] > 0,
    ensures
        r.size == target_size,
        r.pixels@.len() == target_size[0] * target_size[1],
        forall|x: int, y: int|
            0 <= x < target_size[0] && 0 <= y < target_size[1] ==> #[trigger] r.pixels@[x + y * target_size[0]]
                == image.pixels@[nearest_source_index(image.size, target_size, x, y)],
{
    let tw = target_size[0];
    let th = target_size[1];
    let sw = image.size[0];
    let sh = image.size[1];
    let mut pixels: Vec<Color32> = Vec::new();
    if tw == 0 {
        return Image { size: target_size, pixels };
    }
    let mut y: u32 = 0;
    while y < th
        invariant
            y <= th,
            tw == target_size[0],
            th == target_size[1],
            sw == image.size[0],
            sh == image.size[1],
            image.pixels@.len() == sw * sh,
            sw * sh <= u32::MAX,
            tw * th <= u32::MAX,
            tw * sw <= u32::MAX,
            th * sh <= u32::MAX,
            tw > 0,
            tw > 0 && th > 0 ==> sw > 0 && sh > 0,
            pixels@.len() == y * tw,
            forall|xx: int, yy: int|
                0 <= xx < tw && 0 <= yy < y ==> #[trigger] pixels@[xx + yy * tw] == image.pixels@[nearest_source_index(
                    image.size,
                    target_size,
                    xx,
                    yy,
                )],
        decreases th - y,
    {
        assert(y * sh <= th * sh) by (nonlinear_arith)
            requires
                y < th,
        ;
        let src_y = y * sh / th;
        assert(src_y < sh || sh == 0) by (nonlinear_arith)
            requires
                src_y == (y * sh) / (th as int),
                y < th,
        ;
        let mut x: u32 = 0;
        while x < tw
            invariant
                x <= tw,
                y < th,
                tw == target_size[0],
                th == target_size[1],
                sw == image.size[0],
                sh == image.size[1],
                image.pixels@.len() == sw * sh,
                sw * sh <= u32::MAX,
                tw * sw <= u32::MAX,
                sw > 0 && sh > 0,
                src_y == (y * sh) / (th as int),
                src_y < sh || sh == 0,
                pixels@.len() == y * tw + x,
                forall|xx: int, yy: int|
                    0 <= xx < tw && 0 <= yy < y ==> #[trigger] pixels@[xx + yy * tw] == image.pixels@[nearest_source_index(
                        image.size,
                        target_size,
                        xx,
                        yy,
                    )],
                forall|xx: int|
                    0 <= xx < x ==> #[trigger] pixels@[xx + y * tw] == image.pixels@[nearest_source_index(
                        image.size,
                        target_size,
                        xx,
                        y as int,
                    )],
            decreases tw - x,
        {
            assert(x * sw <= tw * sw) by (nonlinear_arith)
                requires
                    x < tw,
            ;
            let src_x = x * sw / tw;
            assert(src_x < sw || sw == 0) by (nonlinear_arith)
                requires
                    src_x == (x * sw) / (tw as int),
                    x < tw,
            ;
            assert(src_x + src_y * sw < sw * sh) by (nonlinear_arith)
                requires
                    src_x < sw,
                    src_y < sh,
            ;
            let index = (src_x + src_y * sw) as usize;
            pixels.push(image.pixels[index]);
            proof {
                assert forall|xx: int, yy: int| 0 <= xx < tw && 0 <= yy < y implies #[trigger] pixels@[xx + yy * tw]
                    == image.pixels@[nearest_source_index(image.size, target_size, xx, yy)] by {
                    assert(xx + yy * tw < y * tw) by (nonlinear_arith)
                        requires
                            0 <= xx < tw,
                            0 <= yy < y,
                    ;
                }
            }
            x = x + 1;
        }
        assert(y * tw + tw == (y + 1) * tw) by (nonlinear_arith);
        y = y + 1;
    }
    assert(th * tw == tw * th) by (nonlinear_arith);
    Image { size: target_size, pixels }
}

} // verus!
