use vstd::prelude::*;
use crate::color::Color32;
use crate::fixed_math::{
    Fixed16, FIXED16_HALF, fixed16_div, fixed16_div_value, fixed16_floor_to_int, fixed16_mul, fixed16_mul_div,
    fixed16_mul_div_value, fixed16_mul_value, fixed16_round_to_int, floor16, int_to_fixed16, round16, trunc_div,
};
use crate::frame_upscaler::SurfaceInfo;
use crate::perspective_span::{
    TextureInfo, TexturingEquations, equations_in_range, fill_span, lemma_span_setup_valid, line_inv_z, line_tc,
    setup_int, span_parameters, span_setup, span_texel, texture_fits,
};

verus! {

/// A projected polygon vertex, in 16-bit fixed-point screen coordinates.
#[derive(Copy, Clone, PartialEq, Eq, Structural)]
pub struct PolygonPointProjected {
    pub x: Fixed16,
    pub y: Fixed16,
}

/// A polygon side within a part: its x at the start of the part and its slope.
#[derive(Copy, Clone, PartialEq, Eq, Structural)]
pub struct PolygonSide {
    pub x_start: Fixed16,
    pub dx_dy: Fixed16,
}

/// A horizontal band of a polygon between two sides, to be filled line by line.
#[derive(Copy, Clone, PartialEq, Eq, Structural)]
pub struct PolygonPart {
    pub y_start: Fixed16,
    pub y_end: Fixed16,
    pub left: PolygonSide,
    pub right: PolygonSide,
}

/// Vertex coordinates stay within `2^29` of zero, so that differences of them fit in 32 bits.
pub open spec fn vertices_in_range(vs: Seq<PolygonPointProjected>) -> bool {
    forall|i: int|
        0 <= i < vs.len() ==> -0x2000_0000 <= (#[trigger] vs[i]).x <= 0x2000_0000 && -0x2000_0000 <= vs[i].y
            <= 0x2000_0000
}

/// The vertex before `i`, going around.
pub open spec fn prev_vertex(n: int, i: int) -> int {
    if i + n - 1 >= n {
        i + n - 1 - n
    } else {
        i + n - 1
    }
}

/// The vertex after `i`, going around.
pub open spec fn next_vertex(n: int, i: int) -> int {
    if i + 1 >= n {
        i + 1 - n
    } else {
        i + 1
    }
}

/// The first of the vertices `0..n` with the least y.
pub open spec fn lowest_vertex(vs: Seq<PolygonPointProjected>, n: int) -> int
    decreases n,
{
    if n <= 1 {
        0
    } else {
        let i = lowest_vertex(vs, n - 1);
        if vs[n - 1].y < vs[i].y {
            n - 1
        } else {
            i
        }
    }
}

/// The side of the polygon from vertex `a` to vertex `b` at height `cur_y`.
pub open spec fn edge_side(vs: Seq<PolygonPointProjected>, a: int, b: int, cur_y: i32) -> PolygonSide {
    let dx_dy = fixed16_div_value((vs[b].x - vs[a].x) as i32, (vs[b].y - vs[a].y) as i32);
    PolygonSide {
        x_start: vs[a].x.wrapping_add(fixed16_mul_value(dx_dy, (cur_y - vs[a].y) as i32)),
        dx_dy,
    }
}

/// A vertical side of a band one line high: the x of the edge from `a` to `b` at the middle of the
/// line of `cur_y`.
pub open spec fn thin_side(vs: Seq<PolygonPointProjected>, a: int, b: int, cur_y: i32) -> PolygonSide {
    let thin_line_y = round16(cur_y as int) * 65536 + FIXED16_HALF;
    PolygonSide {
        x_start: vs[a].x.wrapping_add(
            fixed16_mul_div_value(
                (thin_line_y - vs[a].y) as i32,
                (vs[b].x - vs[a].x) as i32,
                (vs[b].y - vs[a].y) as i32,
            ),
        ),
        dx_dy: 0,
    }
}

/// The band drawn between the left edge from `l` and the right edge from `r`, starting at `cur_y`:
/// between the edges where both rise more than half a line; a band of one line with vertical sides
/// where both rise less but the band holds a line center; none otherwise.
pub open spec fn band_at(vs: Seq<PolygonPointProjected>, l: int, r: int, cur_y: i32) -> Option<PolygonPart> {
    let n = vs.len() as int;
    let nl = prev_vertex(n, l);
    let nr = next_vertex(n, r);
    let dy_left = vs[nl].y - vs[l].y;
    let dy_right = vs[nr].y - vs[r].y;
    let next_y = if vs[nl].y < vs[nr].y {
        vs[nl].y
    } else {
        vs[nr].y
    };
    if dy_left > FIXED16_HALF && dy_right > FIXED16_HALF {
        Some(
            PolygonPart {
                y_start: cur_y,
                y_end: next_y,
                left: edge_side(vs, l, nl, cur_y),
                right: edge_side(vs, r, nr, cur_y),
            },
        )
    } else if dy_left > 0 && dy_right > 0 && round16(cur_y as int) < round16(next_y as int) {
        Some(
            PolygonPart {
                y_start: cur_y,
                y_end: next_y,
                left: thin_side(vs, l, nl, cur_y),
                right: thin_side(vs, r, nr, cur_y),
            },
        )
    } else {
        None
    }
}

/// The bands of the polygon from the edges at `l` and `r` on: the left edge walks the vertices
/// backwards, the right one forwards, the one whose next vertex is lower advancing, until the two
/// walks meet.
#[verifier::opaque]
pub open spec fn walk_bands(vs: Seq<PolygonPointProjected>, l: int, r: int, cur_y: i32, fuel: nat) -> Seq<PolygonPart>
    decreases fuel,
{
    let n = vs.len() as int;
    let nl = prev_vertex(n, l);
    let nr = next_vertex(n, r);
    let here = match band_at(vs, l, r, cur_y) {
        Some(p) => seq![p],
        None => Seq::empty(),
    };
    if nl == nr || fuel == 0 {
        here
    } else {
        let next_y = if vs[nl].y < vs[nr].y {
            vs[nl].y
        } else {
            vs[nr].y
        };
        if vs[nr].y < vs[nl].y {
            here + walk_bands(vs, l, nr, next_y, (fuel - 1) as nat)
        } else {
            here + walk_bands(vs, nl, r, next_y, (fuel - 1) as nat)
        }
    }
}

/// Both rows of a band stay within `2^29` of zero.
pub open spec fn part_rows_in_range(part: PolygonPart) -> bool {
    &&& -0x2000_0000 <= part.y_start <= 0x2000_0000
    &&& -0x2000_0000 <= part.y_end <= 0x2000_0000
}

/// The bands that fill the convex polygon, from its first lowest vertex up.
pub open spec fn polygon_bands(vs: Seq<PolygonPointProjected>) -> Seq<PolygonPart> {
    let low = lowest_vertex(vs, vs.len() as int);
    walk_bands(vs, low, low, vs[low].y, vs.len())
}

/// The band as a sequence of at most one part.
pub open spec fn band_seq(band: Option<PolygonPart>) -> Seq<PolygonPart> {
    match band {
        Some(p) => seq![p],
        None => Seq::empty(),
    }
}

proof fn lemma_walk_unfold(vs: Seq<PolygonPointProjected>, l: int, r: int, cur_y: i32, fuel: nat)
    requires
        fuel >= 1,
    ensures
        ({
            let n = vs.len() as int;
            let nl = prev_vertex(n, l);
            let nr = next_vertex(n, r);
            let here = band_seq(band_at(vs, l, r, cur_y));
            let next_y = if vs[nl].y < vs[nr].y {
                vs[nl].y
            } else {
                vs[nr].y
            };
            &&& nl == nr ==> walk_bands(vs, l, r, cur_y, fuel) == here
            &&& (nl != nr && vs[nr].y < vs[nl].y) ==> walk_bands(vs, l, r, cur_y, fuel) == here + walk_bands(
                vs,
                l,
                nr,
                next_y,
                (fuel - 1) as nat,
            )
            &&& (nl != nr && !(vs[nr].y < vs[nl].y)) ==> walk_bands(vs, l, r, cur_y, fuel) == here + walk_bands(
                vs,
                nl,
                r,
                next_y,
                (fuel - 1) as nat,
            )
        }),
{
    reveal(walk_bands);
}

proof fn lemma_lowest_vertex_bounds(vs: Seq<PolygonPointProjected>, n: int)
    requires
        n >= 1,
    ensures
        0 <= lowest_vertex(vs, n) < n,
    decreases n,
{
    if n > 1 {
        lemma_lowest_vertex_bounds(vs, n - 1);
    }
}

proof fn lemma_walk_positions(n: int, low: int, a: int, b: int)
    requires
        n >= 1,
        0 <= low < n,
        a >= 0,
        b >= 0,
    ensures
        prev_vertex(n, (low - b) % n) == (low - b - 1) % n,
        next_vertex(n, (low + a) % n) == (low + a + 1) % n,
        0 <= (low - b) % n < n,
        0 <= (low + a) % n < n,
        ((low - b - 1) % n == (low + a + 1) % n) <==> (a + b + 2) % n == 0,
{
    let x = low - b;
    let y = low + a;
    let i = x % n;
    let j = y % n;
    vstd::arithmetic::div_mod::lemma_fundamental_div_mod(x, n);
    vstd::arithmetic::div_mod::lemma_fundamental_div_mod(y, n);
    vstd::arithmetic::div_mod::lemma_mod_bound(x, n);
    vstd::arithmetic::div_mod::lemma_mod_bound(y, n);
    let q = x / n;
    let qy = y / n;
    assert(x == q * n + i) by (nonlinear_arith)
        requires
            x == n * q + i,
    ;
    assert(y == qy * n + j) by (nonlinear_arith)
        requires
            y == n * qy + j,
    ;
    if i >= 1 {
        vstd::arithmetic::div_mod::lemma_fundamental_div_mod_converse(x - 1, n, q, i - 1);
    } else {
        assert(x - 1 == (q - 1) * n + (n - 1)) by (nonlinear_arith)
            requires
                x == q * n + i,
                i == 0,
        ;
        vstd::arithmetic::div_mod::lemma_fundamental_div_mod_converse(x - 1, n, q - 1, n - 1);
    }
    if j + 1 < n {
        vstd::arithmetic::div_mod::lemma_fundamental_div_mod_converse(y + 1, n, qy, j + 1);
    } else {
        assert(y + 1 == (qy + 1) * n + 0) by (nonlinear_arith)
            requires
                y == qy * n + j,
                j + 1 == n,
        ;
        vstd::arithmetic::div_mod::lemma_fundamental_div_mod_converse(y + 1, n, qy + 1, 0);
    }
    vstd::arithmetic::div_mod::lemma_mod_equivalence(low + a + 1, low - b - 1, n);
}

/// The band that starts at `cur_y` between the edges from `left_index` and `right_index`.
fn band_of(vertices: &Vec<PolygonPointProjected>, left_index: usize, right_index: usize, cur_y: Fixed16)
    -> (r: Option<PolygonPart>)
    requires
        vertices@.len() >= 1,
        vertices_in_range(vertices@),
        left_index < vertices@.len(),
        right_index < vertices@.len(),
        -0x2000_0000 <= cur_y <= 0x2000_0000,
    ensures
        r == band_at(vertices@, left_index as int, right_index as int, cur_y),
        r matches Some(part) ==> part_rows_in_range(part),
{
    let ghost vs = vertices@;
    let n = vertices.len();
    let next_left_index = if left_index == 0 { n - 1 } else { left_index - 1 };
    let next_right_index = if right_index + 1 >= n { right_index + 1 - n } else { right_index + 1 };
    assert(next_left_index == prev_vertex(n as int, left_index as int));
    assert(next_right_index == next_vertex(n as int, right_index as int));
    let vl = vertices[left_index];
    let vnl = vertices[next_left_index];
    let vr = vertices[right_index];
    let vnr = vertices[next_right_index];
    let dy_left = vnl.y - vl.y;
    let dy_right = vnr.y - vr.y;
    let next_y = if vnl.y < vnr.y { vnl.y } else { vnr.y };
    if dy_left > FIXED16_HALF && dy_right > FIXED16_HALF {
        let dx_dy_left = fixed16_div(vnl.x - vl.x, dy_left);
        let dx_dy_right = fixed16_div(vnr.x - vr.x, dy_right);
        Some(PolygonPart {
            y_start: cur_y,
            y_end: next_y,
            left: PolygonSide {
                x_start: vl.x.wrapping_add(fixed16_mul(dx_dy_left, cur_y - vl.y)),
                dx_dy: dx_dy_left,
            },
            right: PolygonSide {
                x_start: vr.x.wrapping_add(fixed16_mul(dx_dy_right, cur_y - vr.y)),
                dx_dy: dx_dy_right,
            },
        })
    } else if dy_left > 0 && dy_right > 0 {
        let cur_y_int = fixed16_round_to_int(cur_y);
        let next_y_int = fixed16_round_to_int(next_y);
        if cur_y_int < next_y_int {
            let thin_line_y = int_to_fixed16(cur_y_int) + FIXED16_HALF;
            let x_start_left = vl.x.wrapping_add(fixed16_mul_div(thin_line_y - vl.y, vnl.x - vl.x, dy_left));
            let x_start_right = vr.x.wrapping_add(fixed16_mul_div(thin_line_y - vr.y, vnr.x - vr.x, dy_right));
            Some(PolygonPart {
                y_start: cur_y,
                y_end: next_y,
                left: PolygonSide { x_start: x_start_left, dx_dy: 0 },
                right: PolygonSide { x_start: x_start_right, dx_dy: 0 },
            })
        } else {
            None
        }
    } else {
        None
    }
}

/// Splits a convex clockwise polygon into the bands that fill it, from bottom to top (in screen
/// coordinates, y growing downwards from the first lowest vertex).
pub fn polygon_parts(vertices: &Vec<PolygonPointProjected>) -> (r: Vec<PolygonPart>)
    requires
        vertices@.len() >= 1,
        vertices_in_range(vertices@),
    ensures
        r@ == polygon_bands(vertices@),
        forall|i: int| 0 <= i < r@.len() ==> part_rows_in_range(#[trigger] r@[i]),
{
    let ghost vs = vertices@;
    let n = vertices.len();
    let mut lower_vertex_index: usize = 0;
    let mut min_y = vertices[0].y;
    let mut i: usize = 1;
    while i < n
        invariant
            n == vs.len(),
            vs == vertices@,
            1 <= i <= n,
            lower_vertex_index == lowest_vertex(vs, i as int),
            0 <= lower_vertex_index < i,
            min_y == vs[lower_vertex_index as int].y,
        decreases n - i,
    {
        if vertices[i].y < min_y {
            min_y = vertices[i].y;
            lower_vertex_index = i;
        }
        i = i + 1;
    }
    let low = lower_vertex_index;
    let mut left_index = low;
    let mut right_index = low;
    let mut cur_y = min_y;
    let mut parts: Vec<PolygonPart> = Vec::new();
    let ghost mut a: int = 0;
    let ghost mut b: int = 0;
    proof {
        vstd::arithmetic::div_mod::lemma_small_mod(low as nat, n as nat);
    }
    loop
        invariant_except_break
            parts@ + walk_bands(vs, left_index as int, right_index as int, cur_y, (n - a - b) as nat)
                == polygon_bands(vs),
        invariant
            n == vs.len(),
            vs == vertices@,
            n >= 1,
            vertices_in_range(vs),
            0 <= low < n,
            low == lowest_vertex(vs, n as int),
            a >= 0,
            b >= 0,
            n >= 2 ==> a + b <= n - 2,
            n < 2 ==> a + b == 0,
            left_index == (low - b) % (n as int),
            right_index == (low + a) % (n as int),
            0 <= left_index < n,
            0 <= right_index < n,
            -0x2000_0000 <= cur_y <= 0x2000_0000,
            forall|i: int| 0 <= i < parts@.len() ==> part_rows_in_range(#[trigger] parts@[i]),
        ensures
            parts@ == polygon_bands(vs),
        decreases n - a - b,
    {
        proof {
            lemma_walk_positions(n as int, low as int, a, b);
        }
        let next_left_index = if left_index == 0 { n - 1 } else { left_index - 1 };
        let next_right_index = if right_index + 1 >= n { right_index + 1 - n } else { right_index + 1 };
        let vnl = vertices[next_left_index];
        let vnr = vertices[next_right_index];
        let next_y = if vnl.y < vnr.y { vnl.y } else { vnr.y };
        let ghost parts_before = parts@;
        let ghost fuel = (n - a - b) as nat;
        match band_of(vertices, left_index, right_index, cur_y) {
            Some(part) => parts.push(part),
            None => {},
        }
        proof {
            lemma_walk_unfold(vs, left_index as int, right_index as int, cur_y, fuel);
            assert(parts@ == parts_before + band_seq(band_at(vs, left_index as int, right_index as int, cur_y)));
        }
        if next_left_index == next_right_index {
            break;
        }
        proof {
            vstd::arithmetic::div_mod::lemma_mod_self_0(n as int);
            assert(a + b + 2 != n);
        }
        if vnr.y < vnl.y {
            right_index = next_right_index;
            proof {
                a = a + 1;
            }
        } else {
            left_index = next_left_index;
            proof {
                b = b + 1;
            }
        }
        cur_y = next_y;
    }
    parts
}

/// A frame of `width` by `height` pixels, lines `row_size` pixels apart, fits in `len` pixels and
/// in fixed-point screen coordinates.
pub open spec fn frame_fits(width: int, height: int, row_size: int, len: int) -> bool {
    &&& 0 <= width <= row_size
    &&& row_size <= i32::MAX
    &&& width < 0x8000
    &&& 0 <= height < 0x8000
    &&& height * row_size <= i32::MAX
    &&& (height > 0 ==> (height - 1) * row_size + width <= len)
}

/// The first screen line a band covers.
pub open spec fn first_line(y_start: i32) -> int {
    let r = round16(y_start as int);
    if r < 0 {
        0
    } else {
        r
    }
}

/// The screen line after the last one a band covers, on a screen `height` lines high.
pub open spec fn end_line(y_end: i32, height: int) -> int {
    let r = round16(y_end as int);
    if r > height {
        height
    } else {
        r
    }
}

/// The x (fixed point, shifted by half a pixel) of a band side on its `j`-th covered line.
pub open spec fn side_x(side: PolygonSide, y_start: i32, j: nat) -> i32
    decreases j,
{
    if j == 0 {
        let delta = (first_line(y_start) * 65536 + FIXED16_HALF - y_start) as i32;
        side.x_start.wrapping_add(fixed16_mul_value(delta, side.dx_dy)).wrapping_add(FIXED16_HALF)
    } else {
        side_x(side, y_start, (j - 1) as nat).wrapping_add(side.dx_dy)
    }
}

/// The pixels `[xs, xe)` that a band covers on screen line `y`, on a screen `width` pixels wide.
pub open spec fn line_span(part: PolygonPart, width: int, y: int) -> (int, int) {
    let j = (y - first_line(part.y_start)) as nat;
    let xl = floor16(side_x(part.left, part.y_start, j) as int);
    let xr = floor16(side_x(part.right, part.y_start, j) as int);
    (
        if xl < 0 {
            0
        } else {
            xl
        },
        if xr > width {
            width
        } else {
            xr
        },
    )
}

/// Pixel `p` of a frame after filling a band of a polygon into it from the texture.
pub open spec fn part_pixel(
    buf: Seq<Color32>,
    tex: Seq<Color32>,
    part: PolygonPart,
    eq: TexturingEquations,
    info: TextureInfo,
    width: int,
    height: int,
    row_size: int,
    p: int,
) -> Color32 {
    if row_size > 0 {
        let y = p / row_size;
        let x = p % row_size;
        let span = line_span(part, width, y);
        if first_line(part.y_start) <= y < end_line(part.y_end, height) && span.0 <= x < span.1 {
            let setup = span_setup(eq, info.size, line_inv_z(eq, y), line_tc(eq, 0, y), line_tc(eq, 1, y), span.0, span.1);
            tex[span_texel(setup, info.size[0] as int, x - span.0)]
        } else {
            buf[p]
        }
    } else {
        buf[p]
    }
}

/// A frame after filling a band of a polygon into it from the texture.
pub open spec fn part_fill(
    buf: Seq<Color32>,
    tex: Seq<Color32>,
    part: PolygonPart,
    eq: TexturingEquations,
    info: TextureInfo,
    width: int,
    height: int,
    row_size: int,
) -> Seq<Color32> {
    Seq::new(buf.len(), |p: int| part_pixel(buf, tex, part, eq, info, width, height, row_size, p))
}

/// A frame after filling the bands one after another.
pub open spec fn parts_fill(
    buf: Seq<Color32>,
    tex: Seq<Color32>,
    parts: Seq<PolygonPart>,
    eq: TexturingEquations,
    info: TextureInfo,
    width: int,
    height: int,
    row_size: int,
) -> Seq<Color32>
    decreases parts.len(),
{
    if parts.len() == 0 {
        buf
    } else {
        part_fill(
            parts_fill(buf, tex, parts.drop_last(), eq, info, width, height, row_size),
            tex,
            parts.last(),
            eq,
            info,
            width,
            height,
            row_size,
        )
    }
}

/// Index `p` lies on line `y` of a frame with lines `row_size` apart, at column `p - y * row_size`.
proof fn lemma_line_index(p: int, y: int, row_size: int)
    requires
        row_size > 0,
        y * row_size <= p < y * row_size + row_size,
    ensures
        p / row_size == y,
        p % row_size == p - y * row_size,
{
    vstd::arithmetic::div_mod::lemma_fundamental_div_mod_converse(p, row_size, y, p - y * row_size);
}

/// Index `p` lies before line `y` exactly when it is less than `y * row_size`.
proof fn lemma_index_before_line(p: int, y: int, row_size: int)
    requires
        row_size > 0,
        p >= 0,
    ensures
        p / row_size < y <==> p < y * row_size,
        p / row_size > y <==> p >= (y + 1) * row_size,
{
    vstd::arithmetic::div_mod::lemma_fundamental_div_mod(p, row_size);
    vstd::arithmetic::div_mod::lemma_mod_bound(p, row_size);
    let q = p / row_size;
    let r = p % row_size;
    if q < y {
        assert(p < y * row_size) by (nonlinear_arith)
            requires
                p == row_size * q + r,
                r < row_size,
                q < y,
                row_size > 0,
        ;
    } else {
        assert(p >= y * row_size) by (nonlinear_arith)
            requires
                p == row_size * q + r,
                r >= 0,
                q >= y,
                row_size > 0,
        ;
    }
    if q > y {
        assert(p >= (y + 1) * row_size) by (nonlinear_arith)
            requires
                p == row_size * q + r,
                r >= 0,
                q >= y + 1,
                row_size > 0,
        ;
    } else {
        assert(p < (y + 1) * row_size) by (nonlinear_arith)
            requires
                p == row_size * q + r,
                r < row_size,
                q <= y,
                row_size > 0,
        ;
    }
}

/// Draws textured convex polygons into a frame.
pub struct Rasterizer {
    color_buffer: Vec<Color32>,
    width: i32,
    height: i32,
    row_size: i32,
}

impl Rasterizer {
    /// The pixels of the frame.
    pub closed spec fn pixels(&self) -> Seq<Color32> {
        self.color_buffer@
    }

    pub closed spec fn frame_width(&self) -> int {
        self.width as int
    }

    pub closed spec fn frame_height(&self) -> int {
        self.height as int
    }

    /// Distance between the starts of two lines, in pixels.
    pub closed spec fn frame_row_size(&self) -> int {
        self.row_size as int
    }

    pub closed spec fn wf(&self) -> bool {
        frame_fits(self.width as int, self.height as int, self.row_size as int, self.color_buffer@.len() as int)
    }

    /// A rasterizer drawing into the given frame.
    pub fn new(color_buffer: Vec<Color32>, surface_info: &SurfaceInfo) -> (r: Self)
        requires
            frame_fits(
                surface_info.width as int,
                surface_info.height as int,
                surface_info.pitch as int,
                color_buffer@.len() as int,
            ),
        ensures
            r.wf(),
            r.pixels() == color_buffer@,
            r.frame_width() == surface_info.width,
            r.frame_height() == surface_info.height,
            r.frame_row_size() == surface_info.pitch,
    {
        Rasterizer {
            color_buffer,
            width: surface_info.width as i32,
            height: surface_info.height as i32,
            row_size: surface_info.pitch as i32,
        }
    }

    pub fn get_width(&self) -> (r: i32)
        ensures
            r == self.frame_width(),
    {
        self.width
    }

    pub fn get_height(&self) -> (r: i32)
        ensures
            r == self.frame_height(),
    {
        self.height
    }

    /// The frame drawn so far.
    pub fn get_color_buffer(&self) -> (r: &Vec<Color32>)
        ensures
            r@ == self.pixels(),
    {
        &self.color_buffer
    }

    /// Gives the frame back.
    pub fn into_color_buffer(self) -> (r: Vec<Color32>)
        ensures
            r@ == self.pixels(),
    {
        self.color_buffer
    }

    /// Fills the band of a polygon between rows `y_start` and `y_end` and the two sides, line by
    /// line, each pixel from the texel its perspective-correct coordinates give.
    pub fn fill_polygon_part(
        &mut self,
        y_start: Fixed16,
        y_end: Fixed16,
        left_side: PolygonSide,
        right_side: PolygonSide,
        equations: &TexturingEquations,
        texture_info: &TextureInfo,
        texture_data: &[Color32],
    )
        requires
            old(self).wf(),
            -0x2000_0000 <= y_start <= 0x2000_0000,
            -0x2000_0000 <= y_end <= 0x2000_0000,
            equations_in_range(*equations),
            texture_fits(*texture_info, texture_data@.len() as int),
        ensures
            final(self).wf(),
            final(self).frame_width() == old(self).frame_width(),
            final(self).frame_height() == old(self).frame_height(),
            final(self).frame_row_size() == old(self).frame_row_size(),
            final(self).pixels() == part_fill(
                old(self).pixels(),
                texture_data@,
                PolygonPart { y_start, y_end, left: left_side, right: right_side },
                *equations,
                *texture_info,
                old(self).frame_width(),
                old(self).frame_height(),
                old(self).frame_row_size(),
            ),
    {
        let ghost old_buf = self.color_buffer@;
        let ghost part = PolygonPart { y_start, y_end, left: left_side, right: right_side };
        let ghost eq = *equations;
        let width = self.width;
        let height = self.height;
        let row_size = self.row_size;
        let y_start_round = fixed16_round_to_int(y_start);
        let y_start_int = if y_start_round < 0 {
            0
        } else {
            y_start_round
        };
        let y_end_round = fixed16_round_to_int(y_end);
        let y_end_int = if y_end_round > height {
            height
        } else {
            y_end_round
        };
        let y_start_delta = int_to_fixed16(y_start_int) + FIXED16_HALF - y_start;
        let mut x_left = left_side.x_start.wrapping_add(fixed16_mul(y_start_delta, left_side.dx_dy)).wrapping_add(
            FIXED16_HALF,
        );
        let mut x_right = right_side.x_start.wrapping_add(fixed16_mul(y_start_delta, right_side.dx_dy)).wrapping_add(
            FIXED16_HALF,
        );
        assert(-0x80_0000_0000_0000 <= (y_start_int as int) * (equations.d_inv_z_dy as int) <= 0x80_0000_0000_0000)
            by (nonlinear_arith)
            requires
                0 <= y_start_int <= 0x8000,
                -0x100_0000_0000 <= equations.d_inv_z_dy <= 0x100_0000_0000,
        ;
        assert(-0x80_0000_0000_0000 <= (y_start_int as int) * (equations.d_tc_dy[0] as int) <= 0x80_0000_0000_0000)
            by (nonlinear_arith)
            requires
                0 <= y_start_int <= 0x8000,
                -0x100_0000_0000 <= equations.d_tc_dy[0] <= 0x100_0000_0000,
        ;
        assert(-0x80_0000_0000_0000 <= (y_start_int as int) * (equations.d_tc_dy[1] as int) <= 0x80_0000_0000_0000)
            by (nonlinear_arith)
            requires
                0 <= y_start_int <= 0x8000,
                -0x100_0000_0000 <= equations.d_tc_dy[1] <= 0x100_0000_0000,
        ;
        let mut line_inv = (y_start_int as i64) * equations.d_inv_z_dy + equations.inv_z_k;
        let mut line_tc0 = (y_start_int as i64) * equations.d_tc_dy[0] + equations.tc_k[0];
        let mut line_tc1 = (y_start_int as i64) * equations.d_tc_dy[1] + equations.tc_k[1];
        let mut y = y_start_int;
        while y < y_end_int
            invariant
                self.wf(),
                self.width == width,
                self.height == height,
                self.row_size == row_size,
                self.color_buffer@.len() == old_buf.len(),
                frame_fits(width as int, height as int, row_size as int, old_buf.len() as int),
                part == (PolygonPart { y_start, y_end, left: left_side, right: right_side }),
                eq == *equations,
                equations_in_range(eq),
                texture_fits(*texture_info, texture_data@.len() as int),
                y_start_int == first_line(y_start),
                y_end_int == end_line(y_end, height as int),
                y_start_int <= y,
                y_start_int < y_end_int ==> y <= y_end_int,
                y < 0x8000,
                x_left == side_x(left_side, y_start, (y - y_start_int) as nat),
                x_right == side_x(right_side, y_start, (y - y_start_int) as nat),
                line_inv == line_inv_z(eq, y as int),
                line_tc0 == line_tc(eq, 0, y as int),
                line_tc1 == line_tc(eq, 1, y as int),
                forall|p: int|
                    0 <= p < old_buf.len() ==> #[trigger] self.color_buffer@[p] == if row_size > 0 && p / (
                    row_size as int) < y {
                        part_pixel(
                            old_buf,
                            texture_data@,
                            part,
                            eq,
                            *texture_info,
                            width as int,
                            height as int,
                            row_size as int,
                            p,
                        )
                    } else {
                        old_buf[p]
                    },
            decreases y_end_int - y,
        {
            let ghost before = self.color_buffer@;
            assert(-0x80_0000_0000_0000 <= y * equations.d_inv_z_dy <= 0x80_0000_0000_0000) by (nonlinear_arith)
                requires
                    0 <= y <= 0x8000,
                    -0x100_0000_0000 <= equations.d_inv_z_dy <= 0x100_0000_0000,
            ;
            assert(-0x80_0000_0000_0000 <= y * equations.d_tc_dy[0] <= 0x80_0000_0000_0000) by (nonlinear_arith)
                requires
                    0 <= y <= 0x8000,
                    -0x100_0000_0000 <= equations.d_tc_dy[0] <= 0x100_0000_0000,
            ;
            assert(-0x80_0000_0000_0000 <= y * equations.d_tc_dy[1] <= 0x80_0000_0000_0000) by (nonlinear_arith)
                requires
                    0 <= y <= 0x8000,
                    -0x100_0000_0000 <= equations.d_tc_dy[1] <= 0x100_0000_0000,
            ;
            let x_floor_left = fixed16_floor_to_int(x_left);
            let x_start_int = if x_floor_left < 0 {
                0
            } else {
                x_floor_left
            };
            let x_floor_right = fixed16_floor_to_int(x_right);
            let x_end_int = if x_floor_right > width {
                width
            } else {
                x_floor_right
            };
            let ghost span = line_span(part, width as int, y as int);
            assert(span == (x_start_int as int, x_end_int as int));
            proof {
                assert(y * row_size <= (height - 1) * row_size && y * row_size + row_size <= height * row_size)
                    by (nonlinear_arith)
                    requires
                        y < height,
                        row_size >= 0,
                ;
            }
            if x_start_int < x_end_int {
                let offset = y * row_size + x_start_int;
                let count = x_end_int - x_start_int;
                let setup = span_parameters(
                    equations,
                    texture_info,
                    line_inv,
                    line_tc0,
                    line_tc1,
                    x_start_int,
                    x_end_int,
                );
                proof {
                    lemma_span_setup_valid(
                        eq,
                        texture_info.size,
                        line_inv as int,
                        line_tc0 as int,
                        line_tc1 as int,
                        x_start_int as int,
                        x_end_int as int,
                    );
                }
                fill_span(&mut self.color_buffer, offset as usize, count as usize, setup, texture_info, texture_data);
                proof {
                    assert forall|p: int| 0 <= p < old_buf.len() implies #[trigger] self.color_buffer@[p] == if row_size
                        > 0 && p / (row_size as int) < y + 1 {
                        part_pixel(
                            old_buf,
                            texture_data@,
                            part,
                            eq,
                            *texture_info,
                            width as int,
                            height as int,
                            row_size as int,
                            p,
                        )
                    } else {
                        old_buf[p]
                    } by {
                        lemma_index_before_line(p, y as int, row_size as int);
                        assert((y + 1) * row_size == y * row_size + row_size) by (nonlinear_arith);
                        let q = p / (row_size as int);
                        if q == y {
                            lemma_line_index(p, y as int, row_size as int);
                            let x = p % (row_size as int);
                            assert(x == p - offset + x_start_int);
                            if x_start_int <= x < x_end_int {
                                assert(offset <= p < offset + count);
                                assert(setup_int(setup) == span_setup(
                                    eq,
                                    texture_info.size,
                                    line_inv_z(eq, q),
                                    line_tc(eq, 0, q),
                                    line_tc(eq, 1, q),
                                    span.0,
                                    span.1,
                                ));
                            } else {
                                assert(!(offset <= p < offset + count));
                            }
                        } else if q < y {
                            assert(p < offset);
                        } else {
                            assert(p >= offset + count);
                        }
                        assert(before[p] == if row_size > 0 && p / (row_size as int) < y {
                            part_pixel(
                                old_buf,
                                texture_data@,
                                part,
                                eq,
                                *texture_info,
                                width as int,
                                height as int,
                                row_size as int,
                                p,
                            )
                        } else {
                            old_buf[p]
                        });
                    }
                }
            } else {
                proof {
                    assert forall|p: int| 0 <= p < old_buf.len() implies #[trigger] self.color_buffer@[p] == if row_size
                        > 0 && p / (row_size as int) < y + 1 {
                        part_pixel(
                            old_buf,
                            texture_data@,
                            part,
                            eq,
                            *texture_info,
                            width as int,
                            height as int,
                            row_size as int,
                            p,
                        )
                    } else {
                        old_buf[p]
                    } by {
                        if row_size > 0 {
                            lemma_index_before_line(p, y as int, row_size as int);
                        }
                    }
                }
            }
            proof {
                assert((y + 1) * equations.d_inv_z_dy == y * equations.d_inv_z_dy + equations.d_inv_z_dy)
                    by (nonlinear_arith);
                assert((y + 1) * equations.d_tc_dy[0] == y * equations.d_tc_dy[0] + equations.d_tc_dy[0])
                    by (nonlinear_arith);
                assert((y + 1) * equations.d_tc_dy[1] == y * equations.d_tc_dy[1] + equations.d_tc_dy[1])
                    by (nonlinear_arith);
                assert(-0x80_0000_0000_0000 <= (y + 1) * equations.d_inv_z_dy <= 0x80_0000_0000_0000)
                    by (nonlinear_arith)
                    requires
                        0 <= y + 1 <= 0x8000,
                        -0x100_0000_0000 <= equations.d_inv_z_dy <= 0x100_0000_0000,
                ;
                assert(-0x80_0000_0000_0000 <= (y + 1) * equations.d_tc_dy[0] <= 0x80_0000_0000_0000)
                    by (nonlinear_arith)
                    requires
                        0 <= y + 1 <= 0x8000,
                        -0x100_0000_0000 <= equations.d_tc_dy[0] <= 0x100_0000_0000,
                ;
                assert(-0x80_0000_0000_0000 <= (y + 1) * equations.d_tc_dy[1] <= 0x80_0000_0000_0000)
                    by (nonlinear_arith)
                    requires
                        0 <= y + 1 <= 0x8000,
                        -0x100_0000_0000 <= equations.d_tc_dy[1] <= 0x100_0000_0000,
                ;
            }
            x_left = x_left.wrapping_add(left_side.dx_dy);
            x_right = x_right.wrapping_add(right_side.dx_dy);
            line_inv = line_inv + equations.d_inv_z_dy;
            line_tc0 = line_tc0 + equations.d_tc_dy[0];
            line_tc1 = line_tc1 + equations.d_tc_dy[1];
            y = y + 1;
        }
        proof {
            assert forall|p: int| 0 <= p < old_buf.len() implies #[trigger] self.color_buffer@[p] == part_pixel(
                old_buf,
                texture_data@,
                part,
                eq,
                *texture_info,
                width as int,
                height as int,
                row_size as int,
                p,
            ) by {}
            assert(self.color_buffer@ =~= part_fill(
                old_buf,
                texture_data@,
                part,
                eq,
                *texture_info,
                width as int,
                height as int,
                row_size as int,
            ));
        }
    }
    /// Fills a convex clockwise polygon from the texture, band after band from its lowest vertex.
    pub fn fill_polygon(
        &mut self,
        vertices: &Vec<PolygonPointProjected>,
        equations: &TexturingEquations,
        texture_info: &TextureInfo,
        texture_data: &[Color32],
    )
        requires
            old(self).wf(),
            vertices@.len() >= 1,
            vertices_in_range(vertices@),
            equations_in_range(*equations),
            texture_fits(*texture_info, texture_data@.len() as int),
        ensures
            final(self).wf(),
            final(self).frame_width() == old(self).frame_width(),
            final(self).frame_height() == old(self).frame_height(),
            final(self).frame_row_size() == old(self).frame_row_size(),
            final(self).pixels() == parts_fill(
                old(self).pixels(),
                texture_data@,
                polygon_bands(vertices@),
                *equations,
                *texture_info,
                old(self).frame_width(),
                old(self).frame_height(),
                old(self).frame_row_size(),
            ),
    {
        let ghost old_buf = self.pixels();
        let ghost w = self.frame_width();
        let ghost h = self.frame_height();
        let ghost row = self.frame_row_size();
        let parts = polygon_parts(vertices);
        let mut i: usize = 0;
        while i < parts.len()
            invariant
                self.wf(),
                self.frame_width() == w,
                self.frame_height() == h,
                self.frame_row_size() == row,
                i <= parts@.len(),
                parts@ == polygon_bands(vertices@),
                forall|j: int| 0 <= j < parts@.len() ==> part_rows_in_range(#[trigger] parts@[j]),
                equations_in_range(*equations),
                texture_fits(*texture_info, texture_data@.len() as int),
                self.pixels() == parts_fill(
                    old_buf,
                    texture_data@,
                    parts@.take(i as int),
                    *equations,
                    *texture_info,
                    w,
                    h,
                    row,
                ),
            decreases parts@.len() - i,
        {
            let part = parts[i];
            assert(part_rows_in_range(parts@[i as int]));
            self.fill_polygon_part(part.y_start, part.y_end, part.left, part.right, equations, texture_info, texture_data);
            proof {
                assert(parts@.take(i + 1).drop_last() =~= parts@.take(i as int));
                assert(parts@.take(i + 1).last() == part);
            }
            i = i + 1;
        }
        assert(parts@.take(parts@.len() as int) =~= parts@);
    }
}


/// The magnitude of `v`.
pub open spec fn magnitude(v: int) -> int {
    if v < 0 {
        -v
    } else {
        v
    }
}

/// How far the point `(x, y)` lies beside the line through vertices `a` and `b`, measured along x
/// and multiplied by the height of the edge: zero exactly on the line.
pub open spec fn edge_offset(vs: Seq<PolygonPointProjected>, a: int, b: int, x: int, y: int) -> int {
    (x - vs[a].x) * (vs[b].y - vs[a].y) - (vs[b].x - vs[a].x) * (y - vs[a].y)
}

/// The middle of the line of `y`, where a band one line high takes the x of its edges.
pub open spec fn thin_line_y(y: int) -> int {
    round16(y) * 65536 + FIXED16_HALF
}

proof fn lemma_trunc_div_parts(a: int, b: int)
    requires
        b > 0,
    ensures
        -b < a - trunc_div(a, b) * b < b,
        magnitude(trunc_div(a, b)) * b <= magnitude(a),
{
    if a >= 0 {
        vstd::arithmetic::div_mod::lemma_fundamental_div_mod(a, b);
        vstd::arithmetic::div_mod::lemma_mod_bound(a, b);
        vstd::arithmetic::div_mod::lemma_div_pos_is_pos(a, b);
        let q = a / b;
        assert(q * b == b * q) by (nonlinear_arith);
    } else {
        let na = -a;
        vstd::arithmetic::div_mod::lemma_fundamental_div_mod(na, b);
        vstd::arithmetic::div_mod::lemma_mod_bound(na, b);
        vstd::arithmetic::div_mod::lemma_div_pos_is_pos(na, b);
        let q = na / b;
        assert(q * b == b * q) by (nonlinear_arith);
        assert(-q * b == -(q * b)) by (nonlinear_arith);
    }
}

proof fn lemma_floor16_parts(p: int)
    ensures
        0 <= p - floor16(p) * 65536 < 65536,
{
    vstd::arithmetic::div_mod::lemma_fundamental_div_mod(p, 65536);
    vstd::arithmetic::div_mod::lemma_mod_bound(p, 65536);
    let q = p / 65536;
    assert(q * 65536 == 65536 * q) by (nonlinear_arith);
}

/// A side that starts at `cur_y` on an edge more than half a line high lies on the edge: its x there
/// is the edge's x within one unit plus the rounding of the slope over the height climbed, and its
/// slope is the edge's slope within rounding.
pub proof fn lemma_edge_side_on_edge(vs: Seq<PolygonPointProjected>, a: int, b: int, cur_y: i32)
    requires
        0 <= a < vs.len(),
        0 <= b < vs.len(),
        vertices_in_range(vs),
        vs[b].y - vs[a].y > FIXED16_HALF,
        vs[a].y <= cur_y <= vs[b].y,
    ensures
        ({
            let side = edge_side(vs, a, b, cur_y);
            let dy = vs[b].y - vs[a].y;
            &&& magnitude(edge_offset(vs, a, b, side.x_start as int, cur_y as int)) * 65536 < dy * (cur_y - vs[a].y
                + 65536)
            &&& magnitude(side.dx_dy * dy - (vs[b].x - vs[a].x) * 65536) < dy
        }),
{
    let xa = vs[a].x as int;
    let ya = vs[a].y as int;
    let dx = vs[b].x - vs[a].x;
    let dy = vs[b].y - vs[a].y;
    let t = cur_y - ya;
    assert(-0x4000_0000 <= dx <= 0x4000_0000);
    assert((dx as i32) as int == dx);
    assert((dy as i32) as int == dy);
    let num = dx * 65536;
    lemma_trunc_div_parts(num, dy);
    let q = trunc_div(num, dy);
    assert(magnitude(num) <= 0x4000_0000 * 65536) by (nonlinear_arith)
        requires
            num == dx * 65536,
            -0x4000_0000 <= dx <= 0x4000_0000,
    ;
    assert(magnitude(q) < 0x8000_0000) by (nonlinear_arith)
        requires
            magnitude(q) * dy <= magnitude(num),
            magnitude(num) <= 0x4000_0000 * 65536,
            dy > 32768,
            magnitude(q) >= 0,
    ;
    assert(((dx as i32) * 65536) == num);
    let dx_dy = fixed16_div_value(dx as i32, dy as i32);
    assert(dx_dy as int == q);
    assert((t as i32) as int == t);
    let p = q * t;
    lemma_floor16_parts(p);
    let m = floor16(p);
    assert(magnitude(p) <= magnitude(num)) by (nonlinear_arith)
        requires
            p == q * t,
            0 <= t <= dy,
            magnitude(q) * dy <= magnitude(num),
            magnitude(q) >= 0,
    ;
    assert(-0x4000_0001 <= m <= 0x4000_0000) by (nonlinear_arith)
        requires
            0 <= p - m * 65536 < 65536,
            magnitude(p) <= 0x4000_0000 * 65536,
    ;
    assert(fixed16_mul_value(dx_dy, t as i32) as int == m);
    let side = edge_side(vs, a, b, cur_y);
    assert(side.dx_dy == dx_dy);
    assert(side.x_start as int == xa + m);
    let e1 = num - q * dy;
    let e2 = p - m * 65536;
    let off = edge_offset(vs, a, b, side.x_start as int, cur_y as int);
    assert(off == m * dy - dx * t);
    assert(off * 65536 == -t * e1 - e2 * dy) by (nonlinear_arith)
        requires
            off == m * dy - dx * t,
            e1 == num - q * dy,
            e2 == p - m * 65536,
            num == dx * 65536,
            p == q * t,
    ;
    assert(magnitude(off) * 65536 < dy * (t + 65536)) by (nonlinear_arith)
        requires
            off * 65536 == -t * e1 - e2 * dy,
            -dy < e1 < dy,
            0 <= e2 < 65536,
            0 <= t,
            dy > 0,
    ;
    assert(side.dx_dy * dy - dx * 65536 == -e1) by (nonlinear_arith)
        requires
            side.dx_dy == q,
            e1 == num - q * dy,
            num == dx * 65536,
    ;
}

/// The vertical side of a band one line high lies on its edge: its x is the edge's x at the middle
/// of the line, within one unit.
pub proof fn lemma_thin_side_on_edge(vs: Seq<PolygonPointProjected>, a: int, b: int, cur_y: i32)
    requires
        0 <= a < vs.len(),
        0 <= b < vs.len(),
        vertices_in_range(vs),
        vs[b].y - vs[a].y > 0,
        vs[a].y <= thin_line_y(cur_y as int) <= vs[b].y,
    ensures
        ({
            let side = thin_side(vs, a, b, cur_y);
            &&& side.dx_dy == 0
            &&& magnitude(edge_offset(vs, a, b, side.x_start as int, thin_line_y(cur_y as int))) < vs[b].y
                - vs[a].y
        }),
{
    let xa = vs[a].x as int;
    let ya = vs[a].y as int;
    let dx = vs[b].x - vs[a].x;
    let dy = vs[b].y - vs[a].y;
    let ty = thin_line_y(cur_y as int);
    let t = ty - ya;
    assert((t as i32) as int == t);
    assert((dx as i32) as int == dx);
    assert((dy as i32) as int == dy);
    let num = t * dx;
    lemma_trunc_div_parts(num, dy);
    let q = trunc_div(num, dy);
    assert(magnitude(num) <= dy * magnitude(dx)) by (nonlinear_arith)
        requires
            num == t * dx,
            0 <= t <= dy,
    ;
    assert(magnitude(q) <= magnitude(dx)) by (nonlinear_arith)
        requires
            magnitude(q) * dy <= magnitude(num),
            magnitude(num) <= dy * magnitude(dx),
            dy > 0,
            magnitude(q) >= 0,
    ;
    assert(((t as i32) * (dx as i32)) == num);
    assert(fixed16_mul_div_value(t as i32, dx as i32, dy as i32) as int == q);
    let side = thin_side(vs, a, b, cur_y);
    assert(side.x_start as int == xa + q);
    let off = edge_offset(vs, a, b, side.x_start as int, ty);
    assert(off == q * dy - dx * t);
    assert(off == -(num - q * dy)) by (nonlinear_arith)
        requires
            off == q * dy - dx * t,
            num == t * dx,
    ;
}

/// A band lies between the edges it is cut from: starting at `cur_y` within the left edge (from
/// vertex `l` back to the vertex before it) and the right edge (from `r` on to the vertex after
/// it), a band that is drawn spans from `cur_y` to the lower of the two next vertices, and each of
/// its sides lies on its edge — at `cur_y` with the edge's slope for a band between edges more than
/// half a line high, at the middle of the line and upright for a band one line high.
pub proof fn lemma_band_sides_on_edges(vs: Seq<PolygonPointProjected>, l: int, r: int, cur_y: i32)
    requires
        0 <= l < vs.len(),
        0 <= r < vs.len(),
        vertices_in_range(vs),
        vs[l].y <= cur_y <= vs[prev_vertex(vs.len() as int, l)].y,
        vs[r].y <= cur_y <= vs[next_vertex(vs.len() as int, r)].y,
    ensures
        ({
            let n = vs.len() as int;
            let nl = prev_vertex(n, l);
            let nr = next_vertex(n, r);
            let dy_l = vs[nl].y - vs[l].y;
            let dy_r = vs[nr].y - vs[r].y;
            match band_at(vs, l, r, cur_y) {
                Some(part) => {
                    &&& part.y_start == cur_y
                    &&& part.y_end == if vs[nl].y < vs[nr].y {
                        vs[nl].y
                    } else {
                        vs[nr].y
                    }
                    &&& if dy_l > FIXED16_HALF && dy_r > FIXED16_HALF {
                        &&& magnitude(edge_offset(vs, l, nl, part.left.x_start as int, cur_y as int)) * 65536 < dy_l
                            * (cur_y - vs[l].y + 65536)
                        &&& magnitude(part.left.dx_dy * dy_l - (vs[nl].x - vs[l].x) * 65536) < dy_l
                        &&& magnitude(edge_offset(vs, r, nr, part.right.x_start as int, cur_y as int)) * 65536
                            < dy_r * (cur_y - vs[r].y + 65536)
                        &&& magnitude(part.right.dx_dy * dy_r - (vs[nr].x - vs[r].x) * 65536) < dy_r
                    } else {
                        &&& part.left.dx_dy == 0
                        &&& part.right.dx_dy == 0
                        &&& magnitude(edge_offset(vs, l, nl, part.left.x_start as int, thin_line_y(cur_y as int)))
                            < dy_l
                        &&& magnitude(edge_offset(vs, r, nr, part.right.x_start as int, thin_line_y(cur_y as int)))
                            < dy_r
                    }
                },
                None => true,
            }
        }),
{
    let n = vs.len() as int;
    let nl = prev_vertex(n, l);
    let nr = next_vertex(n, r);
    let dy_l = vs[nl].y - vs[l].y;
    let dy_r = vs[nr].y - vs[r].y;
    let next_y: int = if vs[nl].y < vs[nr].y {
        vs[nl].y as int
    } else {
        vs[nr].y as int
    };
    if dy_l > FIXED16_HALF && dy_r > FIXED16_HALF {
        lemma_edge_side_on_edge(vs, l, nl, cur_y);
        lemma_edge_side_on_edge(vs, r, nr, cur_y);
    } else if dy_l > 0 && dy_r > 0 && round16(cur_y as int) < round16(next_y) {
        let ty = thin_line_y(cur_y as int);
        vstd::arithmetic::div_mod::lemma_fundamental_div_mod(cur_y + FIXED16_HALF, 65536);
        vstd::arithmetic::div_mod::lemma_mod_bound(cur_y + FIXED16_HALF, 65536);
        vstd::arithmetic::div_mod::lemma_fundamental_div_mod(next_y + FIXED16_HALF, 65536);
        vstd::arithmetic::div_mod::lemma_mod_bound(next_y + FIXED16_HALF, 65536);
        let rc = round16(cur_y as int);
        let rn = round16(next_y);
        assert(rc * 65536 > cur_y - 65536 + FIXED16_HALF) by (nonlinear_arith)
            requires
                cur_y + FIXED16_HALF == 65536 * rc + (cur_y + FIXED16_HALF) % 65536,
                (cur_y + FIXED16_HALF) % 65536 < 65536,
        ;
        assert(rn * 65536 <= next_y + FIXED16_HALF) by (nonlinear_arith)
            requires
                next_y + FIXED16_HALF == 65536 * rn + (next_y + FIXED16_HALF) % 65536,
                0 <= (next_y + FIXED16_HALF) % 65536,
        ;
        assert(rc * 65536 + 65536 <= rn * 65536) by (nonlinear_arith)
            requires
                rc < rn,
        ;
        assert(cur_y <= ty <= next_y);
        lemma_thin_side_on_edge(vs, l, nl, cur_y);
        lemma_thin_side_on_edge(vs, r, nr, cur_y);
    }
}


/// The band cut at `y` from the edges at `l` and `r` is `part`.
pub open spec fn band_cut_from(vs: Seq<PolygonPointProjected>, part: PolygonPart) -> bool {
    exists|l: int, r: int| 0 <= l < vs.len() && 0 <= r < vs.len() && #[trigger] band_at(vs, l, r, part.y_start) == Some(part)
}

proof fn lemma_walk_bands_cut(vs: Seq<PolygonPointProjected>, l: int, r: int, cur_y: i32, fuel: nat)
    requires
        0 <= l < vs.len(),
        0 <= r < vs.len(),
    ensures
        forall|i: int| 0 <= i < walk_bands(vs, l, r, cur_y, fuel).len() ==> band_cut_from(
            vs,
            #[trigger] walk_bands(vs, l, r, cur_y, fuel)[i],
        ),
    decreases fuel,
{
    let n = vs.len() as int;
    let nl = prev_vertex(n, l);
    let nr = next_vertex(n, r);
    let here = band_seq(band_at(vs, l, r, cur_y));
    let w = walk_bands(vs, l, r, cur_y, fuel);
    if let Some(p) = band_at(vs, l, r, cur_y) {
        assert(band_at(vs, l, r, p.y_start) == Some(p));
        assert(band_cut_from(vs, p));
    }
    if fuel == 0 {
        reveal(walk_bands);
        assert(w == here);
    } else {
        lemma_walk_unfold(vs, l, r, cur_y, fuel);
        let next_y = if vs[nl].y < vs[nr].y {
            vs[nl].y
        } else {
            vs[nr].y
        };
        if nl == nr {
        } else if vs[nr].y < vs[nl].y {
            lemma_walk_bands_cut(vs, l, nr, next_y, (fuel - 1) as nat);
            let rest = walk_bands(vs, l, nr, next_y, (fuel - 1) as nat);
            assert forall|i: int| 0 <= i < w.len() implies band_cut_from(vs, #[trigger] w[i]) by {
                if i >= here.len() {
                    assert(w[i] == rest[i - here.len()]);
                }
            }
        } else {
            lemma_walk_bands_cut(vs, nl, r, next_y, (fuel - 1) as nat);
            let rest = walk_bands(vs, nl, r, next_y, (fuel - 1) as nat);
            assert forall|i: int| 0 <= i < w.len() implies band_cut_from(vs, #[trigger] w[i]) by {
                if i >= here.len() {
                    assert(w[i] == rest[i - here.len()]);
                }
            }
        }
    }
}

/// Every band of a polygon is cut from two of its edges: it is the band that two vertices' edges
/// give at its first row (so `lemma_band_sides_on_edges` places its sides on those edges).
pub proof fn lemma_polygon_bands_cut_from_edges(vs: Seq<PolygonPointProjected>)
    requires
        vs.len() >= 1,
    ensures
        forall|i: int| 0 <= i < polygon_bands(vs).len() ==> band_cut_from(vs, #[trigger] polygon_bands(vs)[i]),
{
    let low = lowest_vertex(vs, vs.len() as int);
    lemma_lowest_vertex_bounds(vs, vs.len() as int);
    lemma_walk_bands_cut(vs, low, low, vs[low].y, vs.len());
}

} // verus!
