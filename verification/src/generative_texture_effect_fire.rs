use vstd::prelude::*;
use crate::color::Color32;
use crate::grid::{cell_index, lemma_grid_bound, lemma_row_before};
use crate::fixed_math::{int_to_fixed16, fixed16_round_to_int, fixed16_floor_to_int, round16, floor16, trunc_div, FIXED16_ONE};
use vstd::arithmetic::power2::{pow2, lemma_pow2_adds, lemma_pow2_pos};
use crate::generative_texture_effects_common::{RandEngine, rand_i32_in_range};
use vstd::bits::{low_bits_mask, lemma_u32_shl_is_mul, lemma_u32_low_bits_mask_is_mod, lemma_u32_pow2_no_overflow};

verus! {

/// One cell of the fire heat map.
pub type HeatMapElement = u8;

/// Fixed-point position of the attenuation factor: the factor is `attenuation / 2^20`
/// applied to the sum of four neighbours, so `2^18` keeps the average unchanged.
pub const HEAT_ATTENUATION_SHIFT: u32 = 20;

/// The greatest accepted attenuation factor (`1.0` in the fixed-point scale of four neighbours).
pub const MAX_HEAT_ATTENUATION: u32 = 262144;

/// New heat of a cell from four neighbour heats.
pub open spec fn heat_value(a: int, b: int, c: int, d: int, attenuation: int) -> int {
    ((a + b + c + d) * attenuation) / 1048576
}

/// Heat of cell `(x, y)` after a fast step: the cell takes the three cells of
/// the next row around it (wrapping horizontally) and the cell two rows below,
/// which is the next row's cell for the row before last.
pub open spec fn fast_cell(old: Seq<u8>, w: int, h: int, y: int, x: int, attenuation: int) -> int {
    let below = (y + 1) * w;
    let below2 = if y + 2 < h { (y + 2) * w } else { (y + 1) * w };
    heat_value(
        old[below + (x + w - 1) % w] as int,
        old[below + x] as int,
        old[below + (x + 1) % w] as int,
        old[below2 + x] as int,
        attenuation,
    )
}

/// Heat of cell `(x, y)` after a slow step. The row is updated in place from left
/// to right, so a cell sees the already updated cell on its left; the last cell
/// of the row wraps around to the already updated first cell.
pub open spec fn slow_cell(old: Seq<u8>, w: int, y: int, x: int, attenuation: int) -> int
    decreases x, 1int,
{
    let row = y * w;
    if x <= 0 {
        heat_value(
            old[row + w - 1] as int,
            old[row] as int,
            old[row + 1] as int,
            old[row + w] as int,
            attenuation,
        )
    } else if x < w - 1 {
        heat_value(
            slow_cell(old, w, y, x - 1, attenuation),
            old[row + x] as int,
            old[row + x + 1] as int,
            old[row + w + x] as int,
            attenuation,
        )
    } else {
        heat_value(
            slow_cell(old, w, y, x - 1, attenuation),
            old[row + x] as int,
            slow_cell(old, w, y, 0, attenuation),
            old[row + w + x] as int,
            attenuation,
        )
    }
}

/// What one heat map step makes of the map: every row but the last gets its
/// slow or fast cells, the last row cools down to zero.
pub open spec fn heat_map_step(old: Seq<u8>, new: Seq<u8>, w: int, h: int, attenuation: int, slow: bool) -> bool {
    &&& new.len() == old.len()
    &&& forall|x: int, y: int|
        0 <= x < w && 0 <= y < h - 1 ==> #[trigger] new[cell_index(x, y, w)] as int == if slow {
            slow_cell(old, w, y, x, attenuation)
        } else {
            fast_cell(old, w, h, y, x, attenuation)
        }
    &&& forall|x: int| 0 <= x < w ==> #[trigger] new[cell_index(x, h - 1, w)] == 0
}

proof fn lemma_heat_value_bound(a: int, b: int, c: int, d: int, attenuation: int)
    requires
        0 <= a < 256,
        0 <= b < 256,
        0 <= c < 256,
        0 <= d < 256,
        0 <= attenuation <= 262144,
    ensures
        0 <= heat_value(a, b, c, d, attenuation) < 256,
        0 <= (a + b + c + d) * attenuation <= 267386880,
{
    assert(0 <= (a + b + c + d) * attenuation <= 1020 * 262144) by (nonlinear_arith)
        requires
            0 <= a + b + c + d <= 1020,
            0 <= attenuation <= 262144,
    ;
    vstd::arithmetic::div_mod::lemma_div_is_ordered((a + b + c + d) * attenuation, 1020int * 262144int, 1048576int);
    vstd::arithmetic::div_mod::lemma_div_pos_is_pos((a + b + c + d) * attenuation, 1048576);
}

/// Combines four neighbour heats into a new heat.
fn combine_heat(a: u8, b: u8, c: u8, d: u8, attenuation: u32) -> (r: u8)
    requires
        attenuation <= MAX_HEAT_ATTENUATION,
    ensures
        r as int == heat_value(a as int, b as int, c as int, d as int, attenuation as int),
{
    proof {
        lemma_heat_value_bound(a as int, b as int, c as int, d as int, attenuation as int);
    }
    let sum: u32 = a as u32 + b as u32 + c as u32 + d as u32;
    let product: u32 = sum * attenuation;
    assert(product >> 20u32 == product / 1048576) by (bit_vector);
    (product >> 20u32) as u8
}

/// One step of the fire simulation: heat rises from the row below (and, in the
/// fast variant, from two rows below) and fades by `attenuation / 2^18`.
/// The last row is cleared.
pub fn update_heat_map(size: [u32; 2], heat_map: &mut Vec<HeatMapElement>, attenuation: u32, slow: bool)
    requires
        size[0] >= 4,
        size[1] >= 4,
        size[0] * size[1] <= u32::MAX,
        old(heat_map)@.len() == size[0] * size[1],
        attenuation <= MAX_HEAT_ATTENUATION,
    ensures
        heat_map_step(old(heat_map)@, final(heat_map)@, size[0] as int, size[1] as int, attenuation as int, slow),
{
    let w = size[0] as usize;
    let h = size[1] as usize;
    let ghost old_map = heat_map@;
    let mut y: usize = 0;
    while y < h - 1
        invariant
            w == size[0],
            h == size[1],
            w >= 4,
            h >= 4,
            w * h <= u32::MAX,
            old_map.len() == w * h,
            heat_map@.len() == w * h,
            attenuation <= MAX_HEAT_ATTENUATION,
            y <= h - 1,
            forall|xx: int, yy: int|
                0 <= xx < w && 0 <= yy < y ==> #[trigger] heat_map@[cell_index(xx, yy, w as int)] as int == if slow {
                    slow_cell(old_map, w as int, yy, xx, attenuation as int)
                } else {
                    fast_cell(old_map, w as int, h as int, yy, xx, attenuation as int)
                },
            forall|i: int| y * w <= i < w * h ==> #[trigger] heat_map@[i] == old_map[i],
        decreases h - 1 - y,
    {
        let ghost before_row = heat_map@;
        proof {
            lemma_grid_bound(0, y as int, w as int, h as int);
            lemma_grid_bound(0, y as int + 1, w as int, h as int);
            if y + 2 < h {
                lemma_grid_bound(0, y as int + 2, w as int, h as int);
            }
        }
        if slow {
            update_heat_row_slow(heat_map, w, h, y, attenuation, Ghost(old_map));
        } else {
            update_heat_row_fast(heat_map, w, h, y, attenuation, Ghost(old_map));
        }
        proof {
            assert forall|xx: int, yy: int|
                0 <= xx < w && 0 <= yy < y + 1 implies #[trigger] heat_map@[cell_index(xx, yy, w as int)] as int
                == if slow {
                    slow_cell(old_map, w as int, yy, xx, attenuation as int)
                } else {
                    fast_cell(old_map, w as int, h as int, yy, xx, attenuation as int)
                } by {
                if yy < y {
                    lemma_row_before(yy, y as int, xx, w as int);
                    assert(heat_map@[cell_index(xx, yy, w as int)] == before_row[cell_index(xx, yy, w as int)]);
                }
            }
        }
        y = y + 1;
    }
    proof {
        lemma_grid_bound(0, h as int - 1, w as int, h as int);
        assert((h - 1) * w + w == w * h) by (nonlinear_arith);
    }
    let last_row = (h - 1) * w;
    let ghost before_last = heat_map@;
    let mut x: usize = 0;
    while x < w
        invariant
            w == size[0],
            h == size[1],
            w >= 4,
            last_row == (h - 1) * w,
            last_row + w == w * h,
            w * h <= u32::MAX,
            before_last.len() == w * h,
            heat_map@.len() == w * h,
            x <= w,
            forall|xx: int| 0 <= xx < x ==> #[trigger] heat_map@[last_row + xx] == 0,
            forall|i: int| 0 <= i < w * h && !(last_row <= i < last_row + x) ==> #[trigger] heat_map@[i] == before_last[i],
        decreases w - x,
    {
        heat_map[last_row + x] = 0;
        x = x + 1;
    }
    proof {
        assert forall|xx: int, yy: int|
            0 <= xx < w && 0 <= yy < h - 1 implies #[trigger] heat_map@[cell_index(xx, yy, w as int)] as int == if slow {
                slow_cell(old_map, w as int, yy, xx, attenuation as int)
            } else {
                fast_cell(old_map, w as int, h as int, yy, xx, attenuation as int)
            } by {
            lemma_row_before(yy, h as int - 1, xx, w as int);
            assert(heat_map@[cell_index(xx, yy, w as int)] == before_last[cell_index(xx, yy, w as int)]);
        }
        assert forall|xx: int| 0 <= xx < w implies #[trigger] heat_map@[cell_index(xx, h - 1, w as int)] == 0 by {
            assert(cell_index(xx, h - 1, w as int) == last_row + xx);
        }
    }
}

fn update_heat_row_slow(
    heat_map: &mut Vec<HeatMapElement>,
    w: usize,
    h: usize,
    y: usize,
    attenuation: u32,
    Ghost(old_map): Ghost<Seq<u8>>,
)
    requires
        w >= 4,
        y + 1 < h,
        w * h <= u32::MAX,
        old(heat_map)@.len() == w * h,
        old_map.len() == w * h,
        (y + 1) * w == y * w + w,
        y * w + w + w <= w * h,
        attenuation <= MAX_HEAT_ATTENUATION,
        forall|i: int| y * w <= i < w * h ==> #[trigger] old(heat_map)@[i] == old_map[i],
    ensures
        final(heat_map)@.len() == w * h,
        forall|xx: int| 0 <= xx < w ==> #[trigger] final(heat_map)@[y * w + xx] as int == slow_cell(
            old_map,
            w as int,
            y as int,
            xx,
            attenuation as int,
        ),
        forall|i: int| 0 <= i < w * h && !(y * w <= i < y * w + w) ==> #[trigger] final(heat_map)@[i] == old(heat_map)@[i],
{
    let ghost start = heat_map@;
    let row = y * w;
    let below = row + w;
    proof {
        assert(heat_map@[row + w - 1] == old_map[row + w - 1]);
        assert(heat_map@[row as int] == old_map[row as int]);
        assert(heat_map@[row + 1] == old_map[row + 1]);
        assert(heat_map@[below as int] == old_map[row + w]);
    }
    let first = combine_heat(heat_map[row + w - 1], heat_map[row], heat_map[row + 1], heat_map[below], attenuation);
    assert(first as int == slow_cell(old_map, w as int, y as int, 0, attenuation as int));
    heat_map[row] = first;
    let mut x: usize = 1;
    while x < w - 1
        invariant
            w >= 4,
            row == y * w,
            below == row + w,
            below + w <= w * h,
            heat_map@.len() == w * h,
            old_map.len() == w * h,
            attenuation <= MAX_HEAT_ATTENUATION,
            1 <= x <= w - 1,
            w * h <= u32::MAX,
            start.len() == w * h,
            forall|i: int| row <= i < w * h ==> #[trigger] start[i] == old_map[i],
            forall|xx: int| 0 <= xx < x ==> #[trigger] heat_map@[row + xx] as int == slow_cell(
                old_map,
                w as int,
                y as int,
                xx,
                attenuation as int,
            ),
            forall|i: int| 0 <= i < w * h && !(row <= i < row + x) ==> #[trigger] heat_map@[i] == start[i],
        decreases w - x,
    {
        let v = combine_heat(heat_map[row + (x - 1)], heat_map[row + x], heat_map[row + x + 1], heat_map[below + x], attenuation);
        proof {
            assert(heat_map@[row + (x - 1)] as int == slow_cell(old_map, w as int, y as int, x - 1, attenuation as int));
            assert(heat_map@[row + x] == old_map[row + x]);
            assert(heat_map@[row + x + 1] == old_map[row + x + 1]);
            assert(heat_map@[below + x] == old_map[row + w + x]);
            assert(v as int == slow_cell(old_map, w as int, y as int, x as int, attenuation as int));
        }
        heat_map[row + x] = v;
        x = x + 1;
    }
    proof {
        assert(heat_map@[row + (w - 2)] as int == slow_cell(old_map, w as int, y as int, w - 2, attenuation as int));
        assert(heat_map@[row + 0] as int == slow_cell(old_map, w as int, y as int, 0, attenuation as int));
        assert(heat_map@[row + w - 1] == old_map[row + w - 1]);
        assert(heat_map@[below + w - 1] == old_map[row + w + (w - 1)]);
    }
    let last = combine_heat(heat_map[row + (w - 2)], heat_map[row + w - 1], heat_map[row], heat_map[below + w - 1], attenuation);
    assert(last as int == slow_cell(old_map, w as int, y as int, w - 1, attenuation as int));
    heat_map[row + w - 1] = last;
    proof {
        assert forall|xx: int| 0 <= xx < w implies #[trigger] heat_map@[y * w + xx] as int == slow_cell(
            old_map,
            w as int,
            y as int,
            xx,
            attenuation as int,
        ) by {
            assert(y * w + xx == row + xx);
        }
    }
}

fn update_heat_row_fast(
    heat_map: &mut Vec<HeatMapElement>,
    w: usize,
    h: usize,
    y: usize,
    attenuation: u32,
    Ghost(old_map): Ghost<Seq<u8>>,
)
    requires
        w >= 4,
        y + 1 < h,
        w * h <= u32::MAX,
        old(heat_map)@.len() == w * h,
        old_map.len() == w * h,
        (y + 1) * w == y * w + w,
        y * w + w + w <= w * h,
        y + 2 < h ==> (y + 2) * w == y * w + w + w && y * w + w + w + w <= w * h,
        attenuation <= MAX_HEAT_ATTENUATION,
        forall|i: int| y * w <= i < w * h ==> #[trigger] old(heat_map)@[i] == old_map[i],
    ensures
        final(heat_map)@.len() == w * h,
        forall|xx: int| 0 <= xx < w ==> #[trigger] final(heat_map)@[y * w + xx] as int == fast_cell(
            old_map,
            w as int,
            h as int,
            y as int,
            xx,
            attenuation as int,
        ),
        forall|i: int| 0 <= i < w * h && !(y * w <= i < y * w + w) ==> #[trigger] final(heat_map)@[i] == old(heat_map)@[i],
{
    let ghost start = heat_map@;
    let row = y * w;
    let below = row + w;
    let below2 = if y + 2 < h { below + w } else { below };
    let mut x: usize = 0;
    while x < w
        invariant
            w >= 4,
            y + 1 < h,
            row == y * w,
            below == row + w,
            below == (y + 1) * w,
            below2 == if y + 2 < h { (y + 2) * w } else { (y + 1) * w },
            below + w <= w * h,
            below2 + w <= w * h,
            below2 >= below,
            heat_map@.len() == w * h,
            old_map.len() == w * h,
            attenuation <= MAX_HEAT_ATTENUATION,
            x <= w,
            w * h <= u32::MAX,
            start.len() == w * h,
            forall|i: int| row <= i < w * h ==> #[trigger] start[i] == old_map[i],
            forall|xx: int| 0 <= xx < x ==> #[trigger] heat_map@[row + xx] as int == fast_cell(
                old_map,
                w as int,
                h as int,
                y as int,
                xx,
                attenuation as int,
            ),
            forall|i: int| 0 <= i < w * h && !(row <= i < row + x) ==> #[trigger] heat_map@[i] == start[i],
        decreases w - x,
    {
        let left = if x == 0 { w - 1 } else { x - 1 };
        let right = if x + 1 == w { 0 } else { x + 1 };
        proof {
            assert(left == (x + w - 1) % (w as int)) by {
                if x == 0 {
                    vstd::arithmetic::div_mod::lemma_small_mod((w - 1) as nat, w as nat);
                } else {
                    vstd::arithmetic::div_mod::lemma_mod_add_multiples_vanish((x - 1) as int, w as int);
                    vstd::arithmetic::div_mod::lemma_small_mod((x - 1) as nat, w as nat);
                }
            }
            assert(right == (x + 1) % (w as int)) by {
                if x + 1 == w {
                    vstd::arithmetic::div_mod::lemma_mod_self_0(w as int);
                } else {
                    vstd::arithmetic::div_mod::lemma_small_mod((x + 1) as nat, w as nat);
                }
            }
        }
        let v = combine_heat(heat_map[below + left], heat_map[below + x], heat_map[below + right], heat_map[below2 + x], attenuation);
        proof {
            assert(heat_map@[below + left] == old_map[below + left]);
            assert(heat_map@[below + x] == old_map[below + x]);
            assert(heat_map@[below + right] == old_map[below + right]);
            assert(heat_map@[below2 + x] == old_map[below2 + x]);
            assert(v as int == fast_cell(old_map, w as int, h as int, y as int, x as int, attenuation as int));
        }
        heat_map[row + x] = v;
        x = x + 1;
    }
}

} // verus!

verus! {

/// A texture of plain colors: size and row-major pixels.
pub struct TextureLite {
    pub size: [u32; 2],
    pub pixels: Vec<Color32>,
}

/// Colors the texture from the heat map: every texel gets the palette entry of
/// the heat of the same cell. The texture takes the given size; texels past the
/// heat map keep their old color (or black where the texture grew).
pub fn generate_emissive_texture_based_on_heat_map(
    size: [u32; 2],
    heat_map: &Vec<HeatMapElement>,
    palette: &Vec<Color32>,
    texture: &mut TextureLite,
)
    requires
        palette@.len() == 256,
        size[0] * size[1] <= u32::MAX,
    ensures
        final(texture).size == size,
        final(texture).pixels@.len() == size[0] * size[1],
        forall|i: int|
            0 <= i < final(texture).pixels@.len() ==> #[trigger] final(texture).pixels@[i] == if i < heat_map@.len() {
                palette@[heat_map@[i] as int]
            } else if i < old(texture).pixels@.len() {
                old(texture).pixels@[i]
            } else {
                Color32(0)
            },
{
    texture.size = size;
    let n = (size[0] * size[1]) as usize;
    let ghost old_pixels = texture.pixels@;
    texture.pixels.resize(n, Color32::black());
    let ghost resized = texture.pixels@;
    let count = if n < heat_map.len() { n } else { heat_map.len() };
    let mut i: usize = 0;
    while i < count
        invariant
            count <= n,
            count <= heat_map@.len(),
            palette@.len() == 256,
            texture.pixels@.len() == n,
            texture.size == size,
            resized.len() == n,
            i <= count,
            forall|j: int| 0 <= j < i ==> #[trigger] texture.pixels@[j] == palette@[heat_map@[j] as int],
            forall|j: int| i <= j < n ==> #[trigger] texture.pixels@[j] == resized[j],
        decreases count - i,
    {
        texture.pixels[i] = palette[heat_map[i] as usize];
        i = i + 1;
    }
    proof {
        assert forall|j: int| 0 <= j < n implies #[trigger] texture.pixels@[j] == if j < heat_map@.len() {
            palette@[heat_map@[j] as int]
        } else if j < old_pixels.len() {
            old_pixels[j]
        } else {
            Color32(0)
        } by {
            if j >= heat_map@.len() {
                if j < old_pixels.len() {
                    if n <= old_pixels.len() {
                        assert(resized[j] == old_pixels.subrange(0, n as int)[j]);
                    } else {
                        assert(resized[j] == resized.subrange(0, old_pixels.len() as int)[j]);
                    }
                }
            }
        }
    }
}

} // verus!

verus! {

/// Side of the heat map for a base-two logarithm.
pub open spec fn heat_map_side(log2: u32) -> int {
    pow2(log2 as nat) as int
}

/// The heat map size is a power of two along each axis, with fewer than `2^22` cells.
pub open spec fn heat_map_log2_valid(log2: [u32; 2]) -> bool {
    log2[0] + log2[1] < 22
}

/// Cells of the heat map.
pub open spec fn heat_map_area(log2: [u32; 2]) -> int {
    heat_map_side(log2[0]) * heat_map_side(log2[1])
}

/// Address of the cell `(x, y)`, both coordinates wrapped into the heat map.
pub open spec fn heat_address(log2: [u32; 2], x: u32, y: u32) -> int {
    (x as int % heat_map_side(log2[0])) + (y as int % heat_map_side(log2[1])) * heat_map_side(log2[0])
}

/// The heat map after writing `heats[k]` at `addrs[k]` for each `k < n` in turn, each cell keeping
/// the greatest heat written to it.
pub open spec fn heat_after(old: Seq<u8>, addrs: Seq<int>, heats: Seq<u8>, n: int) -> Seq<u8>
    decreases n,
{
    if n <= 0 {
        old
    } else {
        let prev = heat_after(old, addrs, heats, n - 1);
        let a = addrs[n - 1];
        prev.update(a, if prev[a] > heats[n - 1] { prev[a] } else { heats[n - 1] })
    }
}

/// A heat map of valid size has positive sides whose product is `2^(log2[0] + log2[1])`, at most
/// `2^21` cells.
pub proof fn lemma_heat_map_sides(log2: [u32; 2])
    requires
        heat_map_log2_valid(log2),
    ensures
        heat_map_side(log2[0]) * heat_map_side(log2[1]) == pow2((log2[0] + log2[1]) as nat),
        0 < heat_map_side(log2[0]),
        0 < heat_map_side(log2[1]),
        pow2((log2[0] + log2[1]) as nat) <= 0x20_0000,
{
    lemma_pow2_adds(log2[0] as nat, log2[1] as nat);
    lemma_pow2_pos(log2[0] as nat);
    lemma_pow2_pos(log2[1] as nat);
    vstd::arithmetic::power2::lemma2_to64();
    if log2[0] + log2[1] < 21 {
        vstd::arithmetic::power2::lemma_pow2_strictly_increases((log2[0] + log2[1]) as nat, 21);
    }
}

/// Address of the cell `(x, y)`, both coordinates wrapped into the heat map.
fn heat_map_address(log2: [u32; 2], x: u32, y: u32) -> (r: usize)
    requires
        heat_map_log2_valid(log2),
    ensures
        r == heat_address(log2, x, y),
        r < heat_map_area(log2),
{
    let ghost wi = heat_map_side(log2[0]);
    let ghost hi = heat_map_side(log2[1]);
    proof {
        lemma_heat_map_sides(log2);
        lemma_u32_pow2_no_overflow(log2[0] as nat);
        lemma_u32_pow2_no_overflow(log2[1] as nat);
        lemma_u32_shl_is_mul(1, log2[0]);
        lemma_u32_shl_is_mul(1, log2[1]);
        lemma_u32_low_bits_mask_is_mod(x, log2[0] as nat);
        lemma_u32_low_bits_mask_is_mod(y, log2[1] as nat);
        assert(wi <= 0x20_0000) by (nonlinear_arith)
            requires
                wi * hi <= 0x20_0000,
                wi > 0,
                hi > 0,
        ;
        assert(hi <= 0x20_0000) by (nonlinear_arith)
            requires
                wi * hi <= 0x20_0000,
                wi > 0,
                hi > 0,
        ;
    }
    let w = 1u32 << log2[0];
    let h = 1u32 << log2[1];
    assert(w == wi);
    assert(h == hi);
    assert(w - 1 == low_bits_mask(log2[0] as nat) as u32);
    assert(h - 1 == low_bits_mask(log2[1] as nat) as u32);
    let xm = x & (w - 1);
    let ym = y & (h - 1);
    assert(xm == x % w);
    assert(ym == y % h);
    assert(ym * wi < wi * hi) by (nonlinear_arith)
        requires
            0 <= ym < hi,
            wi > 0,
    ;
    assert(xm + ym * wi < wi * hi) by (nonlinear_arith)
        requires
            0 <= ym < hi,
            0 <= xm < wi,
            wi > 0,
    ;
    assert(0 <= ym * wi) by (nonlinear_arith)
        requires
            0 <= ym,
            wi > 0,
    ;
    proof {
        lemma_u32_shl_is_mul(ym, log2[0]);
    }
    let yo = ym << log2[0];
    assert(yo == ym * wi);
    (xm + yo) as usize
}

/// Raises the cell `(x, y)` (coordinates wrapped) to `heat` where it is cooler.
pub fn set_heat(heat_map: &mut Vec<u8>, log2: [u32; 2], x: u32, y: u32, heat: u8)
    requires
        heat_map_log2_valid(log2),
        old(heat_map)@.len() == heat_map_area(log2),
    ensures
        0 <= heat_address(log2, x, y) < heat_map_area(log2),
        final(heat_map)@.len() == old(heat_map)@.len(),
        final(heat_map)@ == old(heat_map)@.update(
            heat_address(log2, x, y),
            if old(heat_map)@[heat_address(log2, x, y)] > heat {
                old(heat_map)@[heat_address(log2, x, y)]
            } else {
                heat
            },
        ),
{
    let a = heat_map_address(log2, x, y);
    let v = heat_map[a];
    if heat > v {
        heat_map.set(a, heat);
    } else {
        assert(heat_map@ =~= heat_map@.update(a as int, v));
    }
}

/// Line end points are close enough to the origin for the fixed-point arithmetic.
pub open spec fn line_points_valid(points: [[u32; 2]; 2]) -> bool {
    &&& points[0][0] < 16384
    &&& points[0][1] < 16384
    &&& points[1][0] < 16384
    &&& points[1][1] < 16384
    &&& (points[0][0] != points[1][0] || points[0][1] != points[1][1])
}

pub open spec fn abs_diff(a: int, b: int) -> int {
    if a >= b {
        a - b
    } else {
        b - a
    }
}

/// Number of cells of the line: every column of a line closer to horizontal, every row after the
/// first of a steeper one.
pub open spec fn line_cell_count(p: [[u32; 2]; 2]) -> int {
    let dx = abs_diff(p[0][0] as int, p[1][0] as int);
    let dy = abs_diff(p[0][1] as int, p[1][1] as int);
    if dx >= dy {
        dx + 1
    } else {
        dy
    }
}

/// Cell `k` of the line: for a line closer to horizontal, column `k` from the left end, in the row
/// of the line rounded in 16-bit fixed point; for a steeper one, row `k + 1` from the top end.
pub open spec fn line_cell(p: [[u32; 2]; 2], k: int) -> (int, int) {
    let dx = abs_diff(p[0][0] as int, p[1][0] as int);
    let dy = abs_diff(p[0][1] as int, p[1][1] as int);
    if dx >= dy {
        let (a, b) = if p[0][0] > p[1][0] {
            (p[1], p[0])
        } else {
            (p[0], p[1])
        };
        let step = trunc_div((b[1] - a[1]) * 65536, dx);
        (a[0] + k, round16(a[1] * 65536 + k * step))
    } else {
        let (a, b) = if p[0][1] > p[1][1] {
            (p[1], p[0])
        } else {
            (p[0], p[1])
        };
        let step = trunc_div((b[0] - a[0]) * 65536, dy);
        (round16(a[0] * 65536 + k * step), a[1] + k + 1)
    }
}

/// Heat map addresses of the cells of the line, in drawing order.
pub open spec fn line_addresses(log2: [u32; 2], p: [[u32; 2]; 2]) -> Seq<int> {
    Seq::new(
        line_cell_count(p) as nat,
        |k: int| heat_address(log2, line_cell(p, k).0 as u32, line_cell(p, k).1 as u32),
    )
}

proof fn lemma_step_bounds(k: int, step: int, d: int, n: int)
    requires
        0 <= k <= n + 1,
        n > 0,
        0 <= d <= n,
        -65536 * d <= step * n <= 65536 * d,
    ensures
        -65536 * (n + 1) <= k * step <= 65536 * (n + 1),
{
    assert(-65536 <= step <= 65536) by (nonlinear_arith)
        requires
            n > 0,
            0 <= d <= n,
            -65536 * d <= step * n <= 65536 * d,
    ;
    assert(-65536 * (n + 1) <= k * step <= 65536 * (n + 1)) by (nonlinear_arith)
        requires
            0 <= k <= n + 1,
            -65536 <= step <= 65536,
    ;
}

proof fn lemma_trunc_div_bounds(a: int, n: int)
    requires
        n > 0,
    ensures
        -(if a >= 0 { a } else { -a }) <= trunc_div(a, n) * n <= (if a >= 0 { a } else { -a }),
{
    if a >= 0 {
        assert(0 <= (a / n) * n <= a) by (nonlinear_arith)
            requires
                a >= 0,
                n > 0,
        ;
    } else {
        let q = (-a) / n;
        assert(0 <= q * n <= -a) by (nonlinear_arith)
            requires
                a < 0,
                n > 0,
                q == (-a) / n,
        ;
        assert(trunc_div(a, n) * n == -(q * n)) by (nonlinear_arith)
            requires
                trunc_div(a, n) == -q,
        ;
    }
}

/// Draws a line of `heat` between two points into the heat map (coordinates wrapped), each cell
/// keeping the greater heat.
pub fn draw_heat_line(heat_map: &mut Vec<u8>, log2: [u32; 2], points: [[u32; 2]; 2], heat: u8)
    requires
        heat_map_log2_valid(log2),
        old(heat_map)@.len() == heat_map_area(log2),
        line_points_valid(points),
    ensures
        final(heat_map)@ == heat_after(
            old(heat_map)@,
            line_addresses(log2, points),
            Seq::new(line_cell_count(points) as nat, |k: int| heat),
            line_cell_count(points),
        ),
{
    let ghost heats = Seq::new(line_cell_count(points) as nat, |k: int| heat);
    let addresses = line_cell_addresses(log2, points);
    let mut k: usize = 0;
    while k < addresses.len()
        invariant
            k <= addresses@.len(),
            addresses@.len() == line_cell_count(points),
            forall|j: int| 0 <= j < addresses@.len() ==> #[trigger] addresses@[j] as int == line_addresses(log2, points)[j],
            forall|j: int| 0 <= j < addresses@.len() ==> #[trigger] addresses@[j] < heat_map_area(log2),
            heats == Seq::new(line_cell_count(points) as nat, |j: int| heat),
            heat_map@.len() == heat_map_area(log2),
            heat_map@ == heat_after(old(heat_map)@, line_addresses(log2, points), heats, k as int),
        decreases addresses@.len() - k,
    {
        let a = addresses[k];
        let v = heat_map[a];
        if heat > v {
            heat_map.set(a, heat);
        } else {
            assert(heat_map@ =~= heat_map@.update(a as int, v));
        }
        k = k + 1;
    }
}

} // verus!

verus! {

/// Lightning end points stay within `2^12` of the origin. Then the lightning has at most `2^13`
/// cells, one random step each, and the fixed-point position of a cell (start, the part of the
/// bent line's rise travelled so far, and the random offset: at most `2^12 + 3 * 2^13` cells) fits
/// the 16-bit fixed point of 32-bit integers.
pub open spec fn lightning_points_valid(p: [[i32; 2]; 2]) -> bool {
    &&& -4096 <= p[0][0] < 4096
    &&& -4096 <= p[0][1] < 4096
    &&& -4096 <= p[1][0] < 4096
    &&& -4096 <= p[1][1] < 4096
}

/// Length of the lightning in cells, less one: its extent along its longer axis.
pub open spec fn lightning_extent(p: [[i32; 2]; 2]) -> int {
    let dx = abs_diff(p[0][0] as int, p[1][0] as int);
    let dy = abs_diff(p[0][1] as int, p[1][1] as int);
    if dx >= dy {
        dx
    } else {
        dy
    }
}

/// A random walk: each offset lies within one (in 16-bit fixed point) of the one before, the first
/// within one of zero.
pub open spec fn random_walk(offsets: Seq<i32>) -> bool {
    forall|k: int|
        0 <= k < offsets.len() ==> -65536 <= #[trigger] offsets[k] - (if k == 0 {
            0
        } else {
            offsets[k - 1] as int
        }) <= 65536
}

/// Offsets of a random walk of `n` steps stay within `k + 1` of zero at step `k`.
pub open spec fn walk_bounded(offsets: Seq<i32>) -> bool {
    forall|k: int| 0 <= k < offsets.len() ==> -65536 * (k + 1) <= #[trigger] offsets[k] <= 65536 * (k + 1)
}

/// Cell `k` of the lightning and the heat written there, given its random offsets: cells go along the
/// longer axis from the lower end, the other coordinate follows the line plus the random offset
/// (the line is bent so that it still ends at the far point); the heat goes linearly from the start
/// heat to the end heat (from `heat` to zero for a ramp).
pub open spec fn lightning_cell(p: [[i32; 2]; 2], heat: u8, ramp: bool, offsets: Seq<i32>, k: int) -> (int, int, u8) {
    let hf = heat as int * 65536;
    let (hs, he) = if ramp {
        (hf, 0int)
    } else {
        (hf, hf)
    };
    let dx = abs_diff(p[0][0] as int, p[1][0] as int);
    let dy = abs_diff(p[0][1] as int, p[1][1] as int);
    let md = lightning_extent(p);
    let rand_offset = offsets[md] as int;
    if md == 0 {
        (p[0][0] as int, p[0][1] as int, heat)
    } else if dx >= dy {
        let (a, b, h0, h1) = if p[0][0] > p[1][0] {
            (p[1], p[0], he, hs)
        } else {
            (p[0], p[1], hs, he)
        };
        let step = trunc_div((b[1] - a[1]) * 65536 - rand_offset, dx);
        let heat_step = trunc_div(h1 - h0, dx);
        (a[0] + k, round16(a[1] * 65536 + k * step + offsets[k]), floor16(h0 + k * heat_step) as u8)
    } else {
        let (a, b, h0, h1) = if p[0][1] > p[1][1] {
            (p[1], p[0], he, hs)
        } else {
            (p[0], p[1], hs, he)
        };
        let step = trunc_div((b[0] - a[0]) * 65536 - rand_offset, dy);
        let heat_step = trunc_div(h1 - h0, dy);
        (round16(a[0] * 65536 + k * step + offsets[k]), a[1] + k, floor16(h0 + k * heat_step) as u8)
    }
}

/// Heat map addresses of the lightning cells, in drawing order.
pub open spec fn lightning_addresses(log2: [u32; 2], p: [[i32; 2]; 2], heat: u8, ramp: bool, offsets: Seq<i32>) -> Seq<int> {
    Seq::new(
        (lightning_extent(p) + 1) as nat,
        |k: int|
            heat_address(
                log2,
                lightning_cell(p, heat, ramp, offsets, k).0 as u32,
                lightning_cell(p, heat, ramp, offsets, k).1 as u32,
            ),
    )
}

/// Heats of the lightning cells, in drawing order.
pub open spec fn lightning_heats(p: [[i32; 2]; 2], heat: u8, ramp: bool, offsets: Seq<i32>) -> Seq<u8> {
    Seq::new((lightning_extent(p) + 1) as nat, |k: int| lightning_cell(p, heat, ramp, offsets, k).2)
}

/// The heat map after drawing the lightning with the given random offsets.
pub open spec fn lightning_drawn(
    old: Seq<u8>,
    log2: [u32; 2],
    p: [[i32; 2]; 2],
    heat: u8,
    ramp: bool,
    offsets: Seq<i32>,
) -> Seq<u8> {
    heat_after(
        old,
        lightning_addresses(log2, p, heat, ramp, offsets),
        lightning_heats(p, heat, ramp, offsets),
        lightning_extent(p) + 1,
    )
}

proof fn lemma_scaled_step(num: int, n: int, k: int)
    requires
        n > 0,
        0 <= k <= n + 1,
    ensures
        -2 * abs_diff(num, 0) <= k * trunc_div(num, n) <= 2 * abs_diff(num, 0),
{
    lemma_trunc_div_bounds(num, n);
    let t = trunc_div(num, n);
    let a = abs_diff(num, 0);
    assert(-a <= t * n <= a);
    assert(-2 * a <= k * t <= 2 * a) by (nonlinear_arith)
        requires
            n > 0,
            0 <= k <= n + 1,
            -a <= t * n <= a,
            a >= 0,
    ;
}

/// `k` steps of the bent line's rise stay within the rise for `k <= n`, and within a few cells
/// more one step past the end.
proof fn lemma_line_step(num: int, n: int, k: int)
    requires
        n > 0,
        0 <= k <= n + 1,
        -(65536 * (2 * n + 1)) <= num <= 65536 * (2 * n + 1),
    ensures
        k <= n ==> -abs_diff(num, 0) <= k * trunc_div(num, n) <= abs_diff(num, 0),
        -(65536 * (2 * n + 4)) <= k * trunc_div(num, n) <= 65536 * (2 * n + 4),
{
    lemma_trunc_div_bounds(num, n);
    let t = trunc_div(num, n);
    let a = abs_diff(num, 0);
    assert(-a <= t * n <= a);
    assert(-a <= t <= a) by (nonlinear_arith)
        requires
            n >= 1,
            -a <= t * n <= a,
            a >= 0,
    ;
    if k <= n {
        assert(-a <= k * t <= a) by (nonlinear_arith)
            requires
                0 <= k <= n,
                -a <= t * n <= a,
                a >= 0,
        ;
    } else {
        assert(-(65536 * 3) <= t <= 65536 * 3) by (nonlinear_arith)
            requires
                n >= 1,
                -a <= t * n <= a,
                a <= 65536 * (2 * n + 1),
        ;
        assert(k * t == t * n + t) by (nonlinear_arith)
            requires
                k == n + 1,
        ;
    }
}

/// Random offsets of a lightning of `count` cells: a random walk.
pub fn lightning_offsets(rng: &mut RandEngine, count: usize) -> (r: Vec<i32>)
    requires
        count <= 8192,
    ensures
        r@.len() == count,
        random_walk(r@),
        walk_bounded(r@),
{
    let mut r: Vec<i32> = Vec::new();
    let mut rand_offset: i32 = 0;
    let mut k: usize = 0;
    while k < count
        invariant
            count <= 8192,
            k <= count,
            r@.len() == k,
            random_walk(r@),
            walk_bounded(r@),
            rand_offset == if k == 0 {
                0
            } else {
                r@[k - 1] as int
            },
            -65536 * k <= rand_offset <= 65536 * k,
        decreases count - k,
    {
        let d = rand_i32_in_range(rng, -FIXED16_ONE, FIXED16_ONE);
        let v = rand_offset + d;
        r.push(v);
        rand_offset = v;
        k = k + 1;
    }
    r
}

/// Draws a lightning between two points with the given random offsets (one per cell along the
/// longer axis, the last one bending the line back to the far point); a lightning of one point sets
/// `heat` there.
#[verifier::spinoff_prover]
#[verifier::rlimit(60)]
pub fn draw_heat_lightning_with_offsets(
    heat_map: &mut Vec<u8>,
    log2: [u32; 2],
    points: [[i32; 2]; 2],
    heat: u8,
    ramp: bool,
    offsets: &Vec<i32>,
)
    requires
        heat_map_log2_valid(log2),
        old(heat_map)@.len() == heat_map_area(log2),
        lightning_points_valid(points),
        offsets@.len() == lightning_extent(points) + 1,
        walk_bounded(offsets@),
    ensures
        final(heat_map)@ == lightning_drawn(old(heat_map)@, log2, points, heat, ramp, offsets@),
{
    let ghost addrs = lightning_addresses(log2, points, heat, ramp, offsets@);
    let ghost heats = lightning_heats(points, heat, ramp, offsets@);
    let head_fract = int_to_fixed16(heat as i32);
    let (heat_start, heat_end) = if ramp { (head_fract, 0i32) } else { (head_fract, head_fract) };
    let x0 = points[0][0];
    let y0 = points[0][1];
    let x1 = points[1][0];
    let y1 = points[1][1];
    let abs_dx = if x0 >= x1 { x0 - x1 } else { x1 - x0 };
    let abs_dy = if y0 >= y1 { y0 - y1 } else { y1 - y0 };
    let max_delta = if abs_dx >= abs_dy { abs_dx } else { abs_dy };
    let rand_offset = offsets[max_delta as usize];
    proof {
        assert(-65536 * (max_delta + 1) <= rand_offset <= 65536 * (max_delta + 1));
    }
    if max_delta == 0 {
        let ghost before = heat_map@;
        set_heat(heat_map, log2, x0 as u32, y0 as u32, heat);
        assert(addrs[0] == heat_address(log2, x0 as u32, y0 as u32));
        assert(heats[0] == heat);
        assert(heat_after(before, addrs, heats, 0) == before);
    } else if abs_dx >= abs_dy {
        let (ax, ay, by, h0, h1) = if x0 > x1 {
            (x1, y1, y0, heat_end, heat_start)
        } else {
            (x0, y0, y1, heat_start, heat_end)
        };
        let num = int_to_fixed16(by - ay) - rand_offset;
        let y_step = num / abs_dx;
        let heat_step = (h1 - h0) / abs_dx;
        let mut y_fract = int_to_fixed16(ay);
        let mut heat_cur = h0;
        let mut k: i32 = 0;
        while k <= abs_dx
            invariant
                heat_map_log2_valid(log2),
                heat_map@.len() == heat_map_area(log2),
                offsets@.len() == lightning_extent(points) + 1,
                walk_bounded(offsets@),
                abs_dx == abs_diff(points[0][0] as int, points[1][0] as int),
                abs_dy == abs_diff(points[0][1] as int, points[1][1] as int),
                abs_dx >= abs_dy,
                0 < abs_dx <= 8191,
                lightning_extent(points) == abs_dx,
                -4096 <= ax < 4096,
                -4096 <= ay < 4096,
                -4096 <= by < 4096,
                0 <= h0 <= 255 * 65536,
                0 <= h1 <= 255 * 65536,
                ax == (if points[0][0] > points[1][0] { points[1][0] } else { points[0][0] }),
                ay == (if points[0][0] > points[1][0] { points[1][1] } else { points[0][1] }),
                by == (if points[0][0] > points[1][0] { points[0][1] } else { points[1][1] }),
                h0 == (if points[0][0] > points[1][0] { heat_end } else { heat_start }),
                h1 == (if points[0][0] > points[1][0] { heat_start } else { heat_end }),
                heat_start == heat as int * 65536,
                heat_end == (if ramp { 0 } else { heat as int * 65536 }),
                rand_offset == offsets@[abs_dx as int],
                num == (by - ay) * 65536 - rand_offset,
                -(65536 * (2 * abs_dx + 1)) <= num <= 65536 * (2 * abs_dx + 1),
                y_step == trunc_div(num as int, abs_dx as int),
                heat_step == trunc_div(h1 - h0, abs_dx as int),
                0 <= k <= abs_dx + 1,
                y_fract == ay * 65536 + k * y_step,
                heat_cur == h0 + k * heat_step,
                addrs == lightning_addresses(log2, points, heat, ramp, offsets@),
                heats == lightning_heats(points, heat, ramp, offsets@),
                heat_map@ == heat_after(old(heat_map)@, addrs, heats, k as int),
            decreases abs_dx + 1 - k,
        {
            proof {
                lemma_line_step(num as int, abs_dx as int, k as int);
                lemma_line_step(num as int, abs_dx as int, k as int + 1);
                lemma_scaled_step(h1 - h0, abs_dx as int, k as int);
                lemma_scaled_step(h1 - h0, abs_dx as int, k as int + 1);
                assert((k + 1) * y_step == k * y_step + y_step) by (nonlinear_arith);
                assert((k + 1) * heat_step == k * heat_step + heat_step) by (nonlinear_arith);
                assert(-65536 * (k + 1) <= offsets@[k as int] <= 65536 * (k + 1));
            }
            let x = ax + k;
            let y_add = offsets[k as usize];
            let y = fixed16_round_to_int(y_fract + y_add);
            let h = fixed16_floor_to_int(heat_cur) as u8;
            assert(lightning_cell(points, heat, ramp, offsets@, k as int) == (x as int, y as int, h));
            set_heat(heat_map, log2, x as u32, y as u32, h);
            assert(addrs[k as int] == heat_address(log2, x as u32, y as u32));
            assert(heats[k as int] == h);
            y_fract = y_fract + y_step;
            heat_cur = heat_cur + heat_step;
            k = k + 1;
        }
    } else {
        let (ax, ay, bx, h0, h1) = if y0 > y1 {
            (x1, y1, x0, heat_end, heat_start)
        } else {
            (x0, y0, x1, heat_start, heat_end)
        };
        let num = int_to_fixed16(bx - ax) - rand_offset;
        let x_step = num / abs_dy;
        let heat_step = (h1 - h0) / abs_dy;
        let mut x_fract = int_to_fixed16(ax);
        let mut heat_cur = h0;
        let mut k: i32 = 0;
        while k <= abs_dy
            invariant
                heat_map_log2_valid(log2),
                heat_map@.len() == heat_map_area(log2),
                offsets@.len() == lightning_extent(points) + 1,
                walk_bounded(offsets@),
                abs_dx == abs_diff(points[0][0] as int, points[1][0] as int),
                abs_dy == abs_diff(points[0][1] as int, points[1][1] as int),
                abs_dx < abs_dy,
                0 < abs_dy <= 8191,
                lightning_extent(points) == abs_dy,
                -4096 <= ax < 4096,
                -4096 <= ay < 4096,
                -4096 <= bx < 4096,
                0 <= h0 <= 255 * 65536,
                0 <= h1 <= 255 * 65536,
                ax == (if points[0][1] > points[1][1] { points[1][0] } else { points[0][0] }),
                ay == (if points[0][1] > points[1][1] { points[1][1] } else { points[0][1] }),
                bx == (if points[0][1] > points[1][1] { points[0][0] } else { points[1][0] }),
                h0 == (if points[0][1] > points[1][1] { heat_end } else { heat_start }),
                h1 == (if points[0][1] > points[1][1] { heat_start } else { heat_end }),
                heat_start == heat as int * 65536,
                heat_end == (if ramp { 0 } else { heat as int * 65536 }),
                rand_offset == offsets@[abs_dy as int],
                num == (bx - ax) * 65536 - rand_offset,
                -(65536 * (2 * abs_dy + 1)) <= num <= 65536 * (2 * abs_dy + 1),
                x_step == trunc_div(num as int, abs_dy as int),
                heat_step == trunc_div(h1 - h0, abs_dy as int),
                0 <= k <= abs_dy + 1,
                x_fract == ax * 65536 + k * x_step,
                heat_cur == h0 + k * heat_step,
                addrs == lightning_addresses(log2, points, heat, ramp, offsets@),
                heats == lightning_heats(points, heat, ramp, offsets@),
                heat_map@ == heat_after(old(heat_map)@, addrs, heats, k as int),
            decreases abs_dy + 1 - k,
        {
            proof {
                lemma_line_step(num as int, abs_dy as int, k as int);
                lemma_line_step(num as int, abs_dy as int, k as int + 1);
                lemma_scaled_step(h1 - h0, abs_dy as int, k as int);
                lemma_scaled_step(h1 - h0, abs_dy as int, k as int + 1);
                assert((k + 1) * x_step == k * x_step + x_step) by (nonlinear_arith);
                assert((k + 1) * heat_step == k * heat_step + heat_step) by (nonlinear_arith);
                assert(-65536 * (k + 1) <= offsets@[k as int] <= 65536 * (k + 1));
            }
            let y = ay + k;
            let x_add = offsets[k as usize];
            let x = fixed16_round_to_int(x_fract + x_add);
            let h = fixed16_floor_to_int(heat_cur) as u8;
            assert(lightning_cell(points, heat, ramp, offsets@, k as int) == (x as int, y as int, h));
            set_heat(heat_map, log2, x as u32, y as u32, h);
            assert(addrs[k as int] == heat_address(log2, x as u32, y as u32));
            assert(heats[k as int] == h);
            x_fract = x_fract + x_step;
            heat_cur = heat_cur + heat_step;
            k = k + 1;
        }
    }
}

/// Draws a lightning between two points: a line bent by a random walk of one random step per cell,
/// so that it has no gaps and still ends at the far point.
pub fn draw_heat_lightning(
    heat_map: &mut Vec<u8>,
    log2: [u32; 2],
    points: [[i32; 2]; 2],
    heat: u8,
    ramp: bool,
    rng: &mut RandEngine,
)
    requires
        heat_map_log2_valid(log2),
        old(heat_map)@.len() == heat_map_area(log2),
        lightning_points_valid(points),
    ensures
        exists|offsets: Seq<i32>|
            offsets.len() == lightning_extent(points) + 1 && random_walk(offsets) && #[trigger] lightning_drawn(
                old(heat_map)@,
                log2,
                points,
                heat,
                ramp,
                offsets,
            ) == final(heat_map)@,
{
    let x0 = points[0][0];
    let y0 = points[0][1];
    let x1 = points[1][0];
    let y1 = points[1][1];
    let abs_dx = if x0 >= x1 { x0 - x1 } else { x1 - x0 };
    let abs_dy = if y0 >= y1 { y0 - y1 } else { y1 - y0 };
    let max_delta = if abs_dx >= abs_dy { abs_dx } else { abs_dy };
    let offsets = lightning_offsets(rng, (max_delta + 1) as usize);
    let ghost before = heat_map@;
    draw_heat_lightning_with_offsets(heat_map, log2, points, heat, ramp, &offsets);
    assert(lightning_drawn(before, log2, points, heat, ramp, offsets@) == heat_map@);
}

} // verus!

verus! {

/// Heat map sizes the fire effect accepts: at least `2^MAX_MIP` along each axis and fewer than
/// `2^22` cells.
pub open spec fn fire_resolution_accepted(log2: [u32; 2]) -> bool {
    log2[0] >= crate::textures::MAX_MIP && log2[1] >= crate::textures::MAX_MIP && log2[0] + log2[1] < 22
}

/// Tells whether the fire effect accepts a heat map of `2^log2[0] x 2^log2[1]` cells.
pub fn fire_resolution_valid(log2: [u32; 2]) -> (r: bool)
    ensures
        r == fire_resolution_accepted(log2),
{
    log2[0] >= 3 && log2[1] >= 3 && log2[0] < 22 && log2[1] < 22 - log2[0]
}

/// Texels the fire effect updates: its emissive texture counts as half and its heat map as a quarter
/// of the cells.
pub fn fire_estimated_texel_count(log2: [u32; 2]) -> (r: u32)
    requires
        fire_resolution_accepted(log2),
    ensures
        r == heat_map_area(log2) / 2 + heat_map_area(log2) / 4,
{
    proof {
        lemma_heat_map_sides(log2);
        lemma_u32_pow2_no_overflow((log2[0] + log2[1]) as nat);
        lemma_u32_shl_is_mul(1, (log2[0] + log2[1]) as u32);
    }
    let area = 1u32 << (log2[0] + log2[1]);
    area / 2 + area / 4
}

/// The palette the fire effect starts with: 256 grays, from black to white.
pub fn make_gray_palette() -> (r: Vec<Color32>)
    ensures
        r@.len() == 256,
        forall|i: int| 0 <= i < 256 ==> #[trigger] r@[i] == crate::textures::gray(i),
{
    let mut palette: Vec<Color32> = Vec::new();
    let mut i: u32 = 0;
    while i < 256
        invariant
            i <= 256,
            palette@.len() == i,
            forall|j: int| 0 <= j < i ==> #[trigger] palette@[j] == crate::textures::gray(j),
        decreases 256 - i,
    {
        let v = i as u8;
        palette.push(Color32::from_rgb(v, v, v));
        i = i + 1;
    }
    palette
}

} // verus!

verus! {

/// Addresses of the cells of the line between two points, in drawing order: the cells that
/// `draw_heat_line` heats, for effects that write other values along a line.
pub fn line_cell_addresses(log2: [u32; 2], points: [[u32; 2]; 2]) -> (r: Vec<usize>)
    requires
        heat_map_log2_valid(log2),
        line_points_valid(points),
    ensures
        r@.len() == line_cell_count(points),
        forall|k: int| 0 <= k < r@.len() ==> #[trigger] r@[k] as int == line_addresses(log2, points)[k],
        forall|k: int| 0 <= k < r@.len() ==> #[trigger] r@[k] < heat_map_area(log2),
{
    let x0 = points[0][0] as i32;
    let y0 = points[0][1] as i32;
    let x1 = points[1][0] as i32;
    let y1 = points[1][1] as i32;
    let abs_dx = if x0 >= x1 { x0 - x1 } else { x1 - x0 };
    let abs_dy = if y0 >= y1 { y0 - y1 } else { y1 - y0 };
    let mut r: Vec<usize> = Vec::new();
    if abs_dx >= abs_dy {
        assert(abs_dx > 0);
        let (ax, ay, by) = if x0 > x1 { (x1, y1, y0) } else { (x0, y0, y1) };
        let num = int_to_fixed16(by - ay);
        let y_step = num / abs_dx;
        proof {
            lemma_trunc_div_bounds((by - ay) * 65536, abs_dx as int);
        }
        let mut y_fract = int_to_fixed16(ay);
        let mut k: i32 = 0;
        while k <= abs_dx
            invariant
                heat_map_log2_valid(log2),
                abs_dx == abs_diff(points[0][0] as int, points[1][0] as int),
                abs_dy == abs_diff(points[0][1] as int, points[1][1] as int),
                abs_dx >= abs_dy,
                abs_dx > 0,
                abs_dx < 16384,
                0 <= ax < 16384,
                0 <= ay < 16384,
                ax == (if points[0][0] > points[1][0] { points[1][0] } else { points[0][0] }),
                ay == (if points[0][0] > points[1][0] { points[1][1] } else { points[0][1] }),
                by == (if points[0][0] > points[1][0] { points[0][1] } else { points[1][1] }),
                y_step == trunc_div((by - ay) * 65536, abs_dx as int),
                -65536 * abs_dy <= y_step * abs_dx <= 65536 * abs_dy,
                abs_diff(by as int, ay as int) == abs_dy,
                0 <= k <= abs_dx + 1,
                y_fract == ay * 65536 + k * y_step,
                line_cell_count(points) == abs_dx + 1,
                r@.len() == k,
                forall|j: int| 0 <= j < k ==> #[trigger] r@[j] as int == line_addresses(log2, points)[j],
                forall|j: int| 0 <= j < k ==> #[trigger] r@[j] < heat_map_area(log2),
            decreases abs_dx + 1 - k,
        {
            proof {
                lemma_step_bounds(k as int, y_step as int, abs_dy as int, abs_dx as int);
                lemma_step_bounds(k as int + 1, y_step as int, abs_dy as int, abs_dx as int);
                assert((k + 1) * y_step == k * y_step + y_step) by (nonlinear_arith);
            }
            let x = ax + k;
            let y = fixed16_round_to_int(y_fract);
            assert(line_cell(points, k as int) == (x as int, y as int));
            r.push(heat_map_address(log2, x as u32, y as u32));
            y_fract = y_fract + y_step;
            k = k + 1;
        }
    } else {
        let (ax, ay, bx) = if y0 > y1 { (x1, y1, x0) } else { (x0, y0, x1) };
        let num = int_to_fixed16(bx - ax);
        let x_step = num / abs_dy;
        proof {
            lemma_trunc_div_bounds((bx - ax) * 65536, abs_dy as int);
        }
        let mut x_fract = int_to_fixed16(ax);
        let mut k: i32 = 0;
        while k < abs_dy
            invariant
                heat_map_log2_valid(log2),
                abs_dx == abs_diff(points[0][0] as int, points[1][0] as int),
                abs_dy == abs_diff(points[0][1] as int, points[1][1] as int),
                abs_dx < abs_dy,
                abs_dy < 16384,
                0 <= ax < 16384,
                0 <= ay < 16384,
                ax == (if points[0][1] > points[1][1] { points[1][0] } else { points[0][0] }),
                ay == (if points[0][1] > points[1][1] { points[1][1] } else { points[0][1] }),
                bx == (if points[0][1] > points[1][1] { points[0][0] } else { points[1][0] }),
                x_step == trunc_div((bx - ax) * 65536, abs_dy as int),
                -65536 * abs_dx <= x_step * abs_dy <= 65536 * abs_dx,
                abs_diff(bx as int, ax as int) == abs_dx,
                0 <= k <= abs_dy,
                x_fract == ax * 65536 + k * x_step,
                line_cell_count(points) == abs_dy,
                r@.len() == k,
                forall|j: int| 0 <= j < k ==> #[trigger] r@[j] as int == line_addresses(log2, points)[j],
                forall|j: int| 0 <= j < k ==> #[trigger] r@[j] < heat_map_area(log2),
            decreases abs_dy - k,
        {
            proof {
                lemma_step_bounds(k as int, x_step as int, abs_dx as int, abs_dy as int);
                lemma_step_bounds(k as int + 1, x_step as int, abs_dx as int, abs_dy as int);
                assert((k + 1) * x_step == k * x_step + x_step) by (nonlinear_arith);
            }
            let y = ay + k + 1;
            let x = fixed16_round_to_int(x_fract);
            assert(line_cell(points, k as int) == (x as int, y as int));
            r.push(heat_map_address(log2, x as u32, y as u32));
            x_fract = x_fract + x_step;
            k = k + 1;
        }
    }
    r
}

} // verus!

verus! {

/// Drawing heat sources never cools a cell: every cell ends at least as hot as it was, and the heat
/// map keeps its size.
pub proof fn lemma_heat_after_only_raises(old: Seq<u8>, addrs: Seq<int>, heats: Seq<u8>, n: int, i: int)
    requires
        0 <= n <= addrs.len(),
        n <= heats.len(),
        forall|k: int| 0 <= k < n ==> 0 <= #[trigger] addrs[k] < old.len(),
        0 <= i < old.len(),
    ensures
        heat_after(old, addrs, heats, n).len() == old.len(),
        heat_after(old, addrs, heats, n)[i] >= old[i],
    decreases n,
{
    if n > 0 {
        lemma_heat_after_only_raises(old, addrs, heats, n - 1, i);
        lemma_heat_after_only_raises(old, addrs, heats, n - 1, addrs[n - 1]);
    }
}

} // verus!
