use vstd::prelude::*;
use crate::color::Color32;
use crate::fixed_math::trunc_div;

verus! {

/// Inverse depth is kept at or above this (in units of 2^-29), so that the depth stays finite.
pub const INV_Z_MIN: i64 = 4096;

/// Inverse depth is kept at or below this (in units of 2^-29).
pub const INV_Z_MAX: i64 = 0x2000_0000;

/// Texture coordinates over depth are kept at or below this (in units of 2^-24).
pub const TC_MAX: i64 = 0x2000_0000;

/// The depth and texture coordinate equations of a polygon's plane in fixed point, as functions
/// of the pixel position: inverse depth in units of 2^-29 and texture coordinates over depth in
/// units of 2^-24, each constant term taken at the center of pixel (0, 0).
#[derive(Copy, Clone)]
pub struct TexturingEquations {
    pub d_inv_z_dx: i64,
    pub d_inv_z_dy: i64,
    pub inv_z_k: i64,
    pub d_tc_dx: [i64; 2],
    pub d_tc_dy: [i64; 2],
    pub tc_k: [i64; 2],
}

/// Size of the texture a polygon is filled from.
#[derive(Copy, Clone)]
pub struct TextureInfo {
    pub size: [i32; 2],
}

/// Each coefficient stays within 2^40 of zero, so that evaluating an equation over a screen of
/// less than 2^15 pixels each way fits in 64 bits.
pub open spec fn equations_in_range(eq: TexturingEquations) -> bool {
    let b = 0x100_0000_0000int;
    &&& -b <= eq.d_inv_z_dx <= b
    &&& -b <= eq.d_inv_z_dy <= b
    &&& -b <= eq.inv_z_k <= b
    &&& -b <= eq.d_tc_dx[0] <= b
    &&& -b <= eq.d_tc_dx[1] <= b
    &&& -b <= eq.d_tc_dy[0] <= b
    &&& -b <= eq.d_tc_dy[1] <= b
    &&& -b <= eq.tc_k[0] <= b
    &&& -b <= eq.tc_k[1] <= b
}

/// The texture is not empty and its texels are all in `len` colors.
pub open spec fn texture_fits(info: TextureInfo, len: int) -> bool {
    &&& info.size[0] >= 1
    &&& info.size[1] >= 1
    &&& info.size[0] * info.size[1] <= len
    &&& info.size[0] * info.size[1] <= u32::MAX
}

/// `v` brought into `[lo, hi]`: `max(lo, min(v, hi))`.
pub open spec fn clamp_int(v: int, lo: int, hi: int) -> int {
    let m = if v < hi {
        v
    } else {
        hi
    };
    if m < lo {
        lo
    } else {
        m
    }
}

/// Inverse depth at the start of screen line `y`.
pub open spec fn line_inv_z(eq: TexturingEquations, y: int) -> int {
    y * eq.d_inv_z_dy + eq.inv_z_k
}

/// Texture coordinate `i` over depth at the start of screen line `y`.
pub open spec fn line_tc(eq: TexturingEquations, i: int, y: int) -> int {
    y * eq.d_tc_dy[i] + eq.tc_k[i]
}

/// The greatest texture coordinate over depth kept where the inverse depth is `INV_Z_MIN + c`,
/// for a texture dimension of `size` texels.
pub open spec fn tc_limit(c: int, size: int) -> int {
    clamp_int(c * size / 32 - 1, 0, TC_MAX as int)
}

/// Start value and step per pixel of one texture coordinate over depth along the span
/// `[xs, xe)`, both ends clamped to `[0, tc_limit]` at their inverse depth; where the
/// coordinate falls, the span starts from its end so that no pixel goes below that end.
pub open spec fn span_tc(
    d_tc_dx: int,
    line_tc: int,
    size: int,
    inv_s: int,
    d_inv: int,
    xs: int,
    xe: int,
) -> (int, int) {
    let l = xe - 1 - xs;
    let c = inv_s - INV_Z_MIN;
    let ts = clamp_int(xs * d_tc_dx + line_tc, 0, tc_limit(c, size));
    if l > 0 {
        let te = clamp_int((xe - 1) * d_tc_dx + line_tc, 0, tc_limit(c + d_inv * l, size));
        let d = trunc_div(te - ts, l);
        if te > ts {
            (ts, d)
        } else {
            (te - d * l, d)
        }
    } else {
        (ts, 0)
    }
}

/// How the span `[xs, xe)` of a line is textured: inverse depth at its first pixel and its step,
/// then start and step of both texture coordinates over depth.
pub open spec fn span_setup(
    eq: TexturingEquations,
    size: [i32; 2],
    line_inv: int,
    line_tc0: int,
    line_tc1: int,
    xs: int,
    xe: int,
) -> (int, int, int, int, int, int) {
    let l = xe - 1 - xs;
    let inv_s = clamp_int(xs * eq.d_inv_z_dx + line_inv, INV_Z_MIN as int, INV_Z_MAX as int);
    let inv_e = clamp_int((xe - 1) * eq.d_inv_z_dx + line_inv, INV_Z_MIN as int, INV_Z_MAX as int);
    let d_inv = if l > 0 {
        trunc_div(inv_e - inv_s, l)
    } else {
        0
    };
    let t0 = span_tc(eq.d_tc_dx[0] as int, line_tc0, size[0] as int, inv_s, d_inv, xs, xe);
    let t1 = span_tc(eq.d_tc_dx[1] as int, line_tc1, size[1] as int, inv_s, d_inv, xs, xe);
    (inv_s, d_inv, t0.0, t0.1, t1.0, t1.1)
}

/// Inverse depth at pixel `k` of a span.
pub open spec fn pixel_inv_z(setup: (int, int, int, int, int, int), k: int) -> int {
    setup.0 + k * setup.1
}

/// Texture coordinate `i` over depth at pixel `k` of a span.
pub open spec fn pixel_tc(setup: (int, int, int, int, int, int), i: int, k: int) -> int {
    if i == 0 {
        setup.2 + k * setup.3
    } else {
        setup.4 + k * setup.5
    }
}

/// Depth (in units of 2^-19) of a pixel with the given inverse depth.
pub open spec fn pixel_depth(inv_z: int) -> int {
    0x8000_0000int / (inv_z / 4096)
}

/// Texture coordinate of a pixel of the given depth and coordinate over depth.
pub open spec fn texel_coord(z: int, tc: int) -> int {
    (z * tc) / 0x40_0000_0000int
}

/// Index of the texel that pixel `k` of a span is filled from, in a texture `width` texels wide.
pub open spec fn span_texel(setup: (int, int, int, int, int, int), width: int, k: int) -> int {
    let z = pixel_depth(pixel_inv_z(setup, k));
    texel_coord(z, pixel_tc(setup, 0, k)) + texel_coord(z, pixel_tc(setup, 1, k)) * width
}

/// Along the `count` pixels of a span, inverse depth and coordinates stay in their ranges, the
/// steps stay within 2^29, and every pixel is filled from a texel of the texture.
pub open spec fn setup_valid(setup: (int, int, int, int, int, int), size: [i32; 2], count: int) -> bool {
    &&& -TC_MAX <= setup.1 <= TC_MAX
    &&& -TC_MAX <= setup.3 <= TC_MAX
    &&& -TC_MAX <= setup.5 <= TC_MAX
    &&& forall|k: int|
        0 <= k < count ==> {
            &&& INV_Z_MIN <= #[trigger] pixel_inv_z(setup, k) <= INV_Z_MAX
            &&& 0 <= pixel_tc(setup, 0, k) <= TC_MAX
            &&& 0 <= pixel_tc(setup, 1, k) <= TC_MAX
            &&& 0 <= span_texel(setup, size[0] as int, k) < size[0] * size[1]
        }
}

proof fn lemma_trunc_div_sign(a: int, n: int)
    requires
        n > 0,
    ensures
        a >= 0 ==> 0 <= trunc_div(a, n) && 0 <= trunc_div(a, n) * n <= a,
        a < 0 ==> trunc_div(a, n) <= 0 && a <= trunc_div(a, n) * n <= 0,
        a >= 0 ==> trunc_div(a, n) <= a,
        a < 0 ==> a <= trunc_div(a, n),
{
    if a >= 0 {
        assert(0 <= (a / n) * n <= a && a / n <= a) by (nonlinear_arith)
            requires
                a >= 0,
                n > 0,
        ;
    } else {
        let q = (-a) / n;
        assert(0 <= q * n <= -a && q <= -a) by (nonlinear_arith)
            requires
                a < 0,
                n > 0,
                q == (-a) / n,
        ;
        assert(trunc_div(a, n) * n == -(q * n)) by (nonlinear_arith)
            requires
                trunc_div(a, n) == -q,
        ;
    }
}

/// Stepping from `s` by `trunc_div(e - s, l)` stays between `s` and `e` for `l` steps.
proof fn lemma_step_between(s: int, e: int, l: int, k: int)
    requires
        l > 0,
        0 <= k <= l,
    ensures
        ({
            let d = trunc_div(e - s, l);
            &&& s <= e ==> s <= s + k * d <= e
            &&& e < s ==> e <= s + k * d <= s
            &&& s <= e ==> d >= 0
            &&& e < s ==> d <= 0
        }),
{
    let d = trunc_div(e - s, l);
    lemma_trunc_div_sign(e - s, l);
    if s <= e {
        assert(0 <= k * d <= l * d) by (nonlinear_arith)
            requires
                d >= 0,
                0 <= k <= l,
        ;
        assert(l * d == d * l) by (nonlinear_arith);
    } else {
        assert(l * d <= k * d <= 0) by (nonlinear_arith)
            requires
                d <= 0,
                0 <= k <= l,
        ;
        assert(l * d == d * l) by (nonlinear_arith);
    }
}

proof fn lemma_tc_limit(c: int, size: int)
    requires
        c >= 0,
        size >= 1,
    ensures
        0 <= tc_limit(c, size) <= TC_MAX,
        32 * tc_limit(c, size) <= c * size,
{
    assert(c * size >= 0) by (nonlinear_arith)
        requires
            c >= 0,
            size >= 1,
    ;
    let q = c * size / 32;
    assert(32 * q <= c * size) by (nonlinear_arith)
        requires
            c * size >= 0,
            q == c * size / 32,
    ;
}

/// A coordinate interpolated between two ends bounded by a linear limit stays under it.
proof fn lemma_tc_interpolation(ts: int, te: int, l: int, k: int, c0: int, cl: int, size: int)
    requires
        l > 0,
        0 <= k <= l,
        0 <= ts <= TC_MAX,
        0 <= te <= TC_MAX,
        32 * ts <= size * c0,
        32 * te <= size * cl,
        size >= 1,
    ensures
        ({
            let d = trunc_div(te - ts, l);
            let t0 = if te > ts {
                ts
            } else {
                te - d * l
            };
            &&& 0 <= t0 + k * d <= TC_MAX
            &&& 32 * l * (t0 + k * d) <= size * ((l - k) * c0 + k * cl)
            &&& -TC_MAX <= d <= TC_MAX
        }),
{
    let d = trunc_div(te - ts, l);
    lemma_trunc_div_sign(te - ts, l);
    assert(d * l == l * d) by (nonlinear_arith);
    if te > ts {
        let t = ts + k * d;
        assert(0 <= k * d <= l * d) by (nonlinear_arith)
            requires
                d >= 0,
                0 <= k <= l,
        ;
        assert(l * t <= (l - k) * ts + k * te) by (nonlinear_arith)
            requires
                t == ts + k * d,
                d * l <= te - ts,
                0 <= k <= l,
                d >= 0,
        ;
        assert(32 * l * t <= size * ((l - k) * c0 + k * cl)) by (nonlinear_arith)
            requires
                l * t <= (l - k) * ts + k * te,
                32 * ts <= size * c0,
                32 * te <= size * cl,
                0 <= k <= l,
        ;
        assert(ts <= t <= te);
        assert(0 <= d <= TC_MAX);
    } else {
        let t = te - d * l + k * d;
        assert(t == te + (l - k) * (-d)) by (nonlinear_arith)
            requires
                t == te - d * l + k * d,
        ;
        assert(0 <= (l - k) * (-d) <= l * (-d)) by (nonlinear_arith)
            requires
                d <= 0,
                0 <= k <= l,
        ;
        assert(l * t <= (l - k) * ts + k * te) by (nonlinear_arith)
            requires
                t == te + (l - k) * (-d),
                te - ts <= d * l,
                0 <= k <= l,
                d <= 0,
        ;
        assert(32 * l * t <= size * ((l - k) * c0 + k * cl)) by (nonlinear_arith)
            requires
                l * t <= (l - k) * ts + k * te,
                32 * ts <= size * c0,
                32 * te <= size * cl,
                0 <= k <= l,
        ;
        assert(l * (-d) == -(d * l)) by (nonlinear_arith);
        assert(te <= t <= ts);
        assert(-TC_MAX <= d <= 0);
    }
}

/// The texture coordinate of a pixel stays inside a texture dimension of `size` texels while the
/// coordinate over depth stays under its limit.
proof fn lemma_texel_coord_bound(inv_z: int, tc: int, size: int)
    requires
        INV_Z_MIN <= inv_z <= INV_Z_MAX,
        0 <= tc,
        32 * tc <= size * (inv_z - INV_Z_MIN),
        size >= 1,
    ensures
        0 <= texel_coord(pixel_depth(inv_z), tc) < size,
{
    let q = inv_z / 4096;
    assert(1 <= q <= 0x20000 && 4096 * q <= inv_z < 4096 * q + 4096) by (nonlinear_arith)
        requires
            4096 <= inv_z <= 0x2000_0000,
            q == inv_z / 4096,
    ;
    let z = 0x8000_0000int / q;
    assert(1 <= z && z * q <= 0x8000_0000) by (nonlinear_arith)
        requires
            1 <= q <= 0x20000,
            z == 0x8000_0000int / q,
    ;
    assert(tc < size * 128 * q) by (nonlinear_arith)
        requires
            32 * tc <= size * (inv_z - 4096),
            inv_z < 4096 * q + 4096,
            size >= 1,
    ;
    assert(0 <= z * tc < 0x40_0000_0000int * size) by (nonlinear_arith)
        requires
            tc < size * 128 * q,
            0 <= tc,
            1 <= z,
            z * q <= 0x8000_0000,
            size >= 1,
    ;
    assert(0 <= (z * tc) / 0x40_0000_0000int < size) by (nonlinear_arith)
        requires
            0 <= z * tc < 0x40_0000_0000int * size,
    ;
}

/// Every pixel of a span is filled from a texel inside the texture, with inverse depth and
/// coordinates in their ranges, whatever the equations and the line: the clamps at both ends of
/// the span bound every pixel between them.
pub proof fn lemma_span_setup_valid(
    eq: TexturingEquations,
    size: [i32; 2],
    line_inv: int,
    line_tc0: int,
    line_tc1: int,
    xs: int,
    xe: int,
)
    requires
        size[0] >= 1,
        size[1] >= 1,
        xs < xe,
    ensures
        setup_valid(span_setup(eq, size, line_inv, line_tc0, line_tc1, xs, xe), size, xe - xs),
{
    let setup = span_setup(eq, size, line_inv, line_tc0, line_tc1, xs, xe);
    let l = xe - 1 - xs;
    let inv_s = setup.0;
    let d_inv = setup.1;
    let inv_e = clamp_int((xe - 1) * eq.d_inv_z_dx + line_inv, INV_Z_MIN as int, INV_Z_MAX as int);
    let c0 = inv_s - INV_Z_MIN;
    let cl = c0 + d_inv * l;
    if l > 0 {
        lemma_step_between(inv_s, inv_e, l, l);
        lemma_step_between(inv_s, inv_e, l, 0);
    }
    assert(0 <= c0 && 0 <= cl);
    lemma_tc_limit(c0, size[0] as int);
    lemma_tc_limit(c0, size[1] as int);
    lemma_tc_limit(cl, size[0] as int);
    lemma_tc_limit(cl, size[1] as int);
    if l > 0 {
        let ts0 = clamp_int(xs * eq.d_tc_dx[0] + line_tc0, 0, tc_limit(c0, size[0] as int));
        let te0 = clamp_int((xe - 1) * eq.d_tc_dx[0] + line_tc0, 0, tc_limit(cl, size[0] as int));
        let ts1 = clamp_int(xs * eq.d_tc_dx[1] + line_tc1, 0, tc_limit(c0, size[1] as int));
        let te1 = clamp_int((xe - 1) * eq.d_tc_dx[1] + line_tc1, 0, tc_limit(cl, size[1] as int));
        assert(32 * ts0 <= size[0] * c0 && 32 * te0 <= size[0] * cl) by (nonlinear_arith)
            requires
                0 <= ts0 <= tc_limit(c0, size[0] as int),
                0 <= te0 <= tc_limit(cl, size[0] as int),
                32 * tc_limit(c0, size[0] as int) <= c0 * size[0],
                32 * tc_limit(cl, size[0] as int) <= cl * size[0],
        ;
        assert(32 * ts1 <= size[1] * c0 && 32 * te1 <= size[1] * cl) by (nonlinear_arith)
            requires
                0 <= ts1 <= tc_limit(c0, size[1] as int),
                0 <= te1 <= tc_limit(cl, size[1] as int),
                32 * tc_limit(c0, size[1] as int) <= c0 * size[1],
                32 * tc_limit(cl, size[1] as int) <= cl * size[1],
        ;
        lemma_tc_interpolation(ts0, te0, l, 0, c0, cl, size[0] as int);
        lemma_tc_interpolation(ts1, te1, l, 0, c0, cl, size[1] as int);
        assert forall|k: int| 0 <= k < xe - xs implies {
            &&& INV_Z_MIN <= #[trigger] pixel_inv_z(setup, k) <= INV_Z_MAX
            &&& 0 <= pixel_tc(setup, 0, k) <= TC_MAX
            &&& 0 <= pixel_tc(setup, 1, k) <= TC_MAX
            &&& 0 <= span_texel(setup, size[0] as int, k) < size[0] * size[1]
        } by {
            lemma_step_between(inv_s, inv_e, l, k);
            lemma_tc_interpolation(ts0, te0, l, k, c0, cl, size[0] as int);
            lemma_tc_interpolation(ts1, te1, l, k, c0, cl, size[1] as int);
            let inv_k = pixel_inv_z(setup, k);
            assert((l - k) * c0 + k * cl == l * (inv_k - INV_Z_MIN)) by (nonlinear_arith)
                requires
                    cl == c0 + d_inv * l,
                    c0 == inv_s - INV_Z_MIN,
                    inv_k == inv_s + k * d_inv,
            ;
            let t0 = pixel_tc(setup, 0, k);
            let t1 = pixel_tc(setup, 1, k);
            assert(32 * t0 <= size[0] * (inv_k - INV_Z_MIN)) by (nonlinear_arith)
                requires
                    32 * l * t0 <= size[0] * (l * (inv_k - INV_Z_MIN)),
                    l > 0,
            ;
            assert(32 * t1 <= size[1] * (inv_k - INV_Z_MIN)) by (nonlinear_arith)
                requires
                    32 * l * t1 <= size[1] * (l * (inv_k - INV_Z_MIN)),
                    l > 0,
            ;
            lemma_texel_coord_bound(inv_k, t0, size[0] as int);
            lemma_texel_coord_bound(inv_k, t1, size[1] as int);
            lemma_texel_in_texture(
                texel_coord(pixel_depth(inv_k), t0),
                texel_coord(pixel_depth(inv_k), t1),
                size[0] as int,
                size[1] as int,
            );
        }
    } else {
        assert forall|k: int| 0 <= k < xe - xs implies {
            &&& INV_Z_MIN <= #[trigger] pixel_inv_z(setup, k) <= INV_Z_MAX
            &&& 0 <= pixel_tc(setup, 0, k) <= TC_MAX
            &&& 0 <= pixel_tc(setup, 1, k) <= TC_MAX
            &&& 0 <= span_texel(setup, size[0] as int, k) < size[0] * size[1]
        } by {
            assert(k == 0);
            let t0 = pixel_tc(setup, 0, k);
            let t1 = pixel_tc(setup, 1, k);
            assert(32 * t0 <= size[0] * c0) by (nonlinear_arith)
                requires
                    0 <= t0 <= tc_limit(c0, size[0] as int),
                    32 * tc_limit(c0, size[0] as int) <= c0 * size[0],
            ;
            assert(32 * t1 <= size[1] * c0) by (nonlinear_arith)
                requires
                    0 <= t1 <= tc_limit(c0, size[1] as int),
                    32 * tc_limit(c0, size[1] as int) <= c0 * size[1],
            ;
            lemma_texel_coord_bound(inv_s, t0, size[0] as int);
            lemma_texel_coord_bound(inv_s, t1, size[1] as int);
            lemma_texel_in_texture(
                texel_coord(pixel_depth(inv_s), t0),
                texel_coord(pixel_depth(inv_s), t1),
                size[0] as int,
                size[1] as int,
            );
        }
    }
}

fn clamp_i64(v: i64, lo: i64, hi: i64) -> (r: i64)
    ensures
        r == clamp_int(v as int, lo as int, hi as int),
{
    let m = if v < hi {
        v
    } else {
        hi
    };
    if m < lo {
        lo
    } else {
        m
    }
}

fn tc_limit_exec(c: i64, size: i32) -> (r: i64)
    requires
        0 <= c <= INV_Z_MAX,
        size >= 1,
    ensures
        r == tc_limit(c as int, size as int),
{
    assert(0 <= c * size <= 0x2000_0000 * 0x8000_0000) by (nonlinear_arith)
        requires
            0 <= c <= 0x2000_0000,
            1 <= size <= 0x7fff_ffff,
    ;
    let p = c * (size as i64);
    assert(p >> 5u64 == p / 32) by (bit_vector)
        requires
            p >= 0,
    ;
    clamp_i64((p >> 5u64) - 1, 0, TC_MAX)
}

/// Start value and step per pixel of one texture coordinate over depth along a span.
fn span_tc_exec(d_tc_dx: i64, line_tc: i64, size: i32, inv_s: i32, d_inv: i32, xs: i32, xe: i32) -> (r: (i32, i32))
    requires
        -0x100_0000_0000 <= d_tc_dx <= 0x100_0000_0000,
        -0x100_0000_0000_0000 <= line_tc <= 0x100_0000_0000_0000,
        size >= 1,
        0 <= xs < xe <= 0x8000,
        INV_Z_MIN <= inv_s <= INV_Z_MAX,
        INV_Z_MIN <= inv_s + d_inv * (xe - 1 - xs) <= INV_Z_MAX,
    ensures
        (r.0 as int, r.1 as int) == span_tc(
            d_tc_dx as int,
            line_tc as int,
            size as int,
            inv_s as int,
            d_inv as int,
            xs as int,
            xe as int,
        ),
{
    let l = xe - 1 - xs;
    let c = (inv_s as i64) - INV_Z_MIN;
    assert(-0x100_0000_0000_0000 <= (xs as int) * (d_tc_dx as int) <= 0x100_0000_0000_0000) by (nonlinear_arith)
        requires
            0 <= xs <= 0x8000,
            -0x100_0000_0000 <= d_tc_dx <= 0x100_0000_0000,
    ;
    assert(-0x100_0000_0000_0000 <= ((xe - 1) as int) * (d_tc_dx as int) <= 0x100_0000_0000_0000) by (nonlinear_arith)
        requires
            0 <= xe - 1 <= 0x8000,
            -0x100_0000_0000 <= d_tc_dx <= 0x100_0000_0000,
    ;
    let lim_s = tc_limit_exec(c, size);
    proof {
        lemma_tc_limit(c as int, size as int);
    }
    let ts = clamp_i64((xs as i64) * d_tc_dx + line_tc, 0, lim_s) as i32;
    if l > 0 {
        assert(-INV_Z_MAX <= d_inv * l <= INV_Z_MAX);
        let ce = c + ((d_inv * l) as i64);
        let lim_e = tc_limit_exec(ce, size);
        proof {
            lemma_tc_limit(ce as int, size as int);
        }
        let te = clamp_i64(((xe - 1) as i64) * d_tc_dx + line_tc, 0, lim_e) as i32;
        let d = (te - ts) / l;
        assert(d == trunc_div((te - ts) as int, l as int));
        proof {
            lemma_trunc_div_sign((te - ts) as int, l as int);
        }
        if te > ts {
            (ts, d)
        } else {
            proof {
                let a = (te - ts) as int;
                assert(a <= 0);
                assert(a <= (d as int) * (l as int));
                assert((d as int) * (l as int) <= 0);
            }
            proof {
                let a = (te - ts) as int;
                assert(a <= 0);
                assert(a <= (d as int) * (l as int));
                assert((d as int) * (l as int) <= 0);
            }
            (te - d * l, d)
        }
    } else {
        (ts, 0)
    }
}

/// How the span `[xs, xe)` of a line is textured, from the inverse depth and coordinates over
/// depth at the start of the line.
pub fn span_parameters(
    eq: &TexturingEquations,
    info: &TextureInfo,
    line_inv: i64,
    line_tc0: i64,
    line_tc1: i64,
    xs: i32,
    xe: i32,
) -> (r: (i32, i32, i32, i32, i32, i32))
    requires
        equations_in_range(*eq),
        info.size[0] >= 1,
        info.size[1] >= 1,
        0 <= xs < xe <= 0x8000,
        -0x100_0000_0000_0000 <= line_inv <= 0x100_0000_0000_0000,
        -0x100_0000_0000_0000 <= line_tc0 <= 0x100_0000_0000_0000,
        -0x100_0000_0000_0000 <= line_tc1 <= 0x100_0000_0000_0000,
    ensures
        (r.0 as int, r.1 as int, r.2 as int, r.3 as int, r.4 as int, r.5 as int) == span_setup(
            *eq,
            info.size,
            line_inv as int,
            line_tc0 as int,
            line_tc1 as int,
            xs as int,
            xe as int,
        ),
{
    let l = xe - 1 - xs;
    assert(-0x100_0000_0000_0000 <= (xs as int) * (eq.d_inv_z_dx as int) <= 0x100_0000_0000_0000)
        by (nonlinear_arith)
        requires
            0 <= xs <= 0x8000,
            -0x100_0000_0000 <= eq.d_inv_z_dx <= 0x100_0000_0000,
    ;
    assert(-0x100_0000_0000_0000 <= ((xe - 1) as int) * (eq.d_inv_z_dx as int) <= 0x100_0000_0000_0000)
        by (nonlinear_arith)
        requires
            0 <= xe - 1 <= 0x8000,
            -0x100_0000_0000 <= eq.d_inv_z_dx <= 0x100_0000_0000,
    ;
    let inv_s = clamp_i64((xs as i64) * eq.d_inv_z_dx + line_inv, INV_Z_MIN, INV_Z_MAX) as i32;
    let inv_e = clamp_i64(((xe - 1) as i64) * eq.d_inv_z_dx + line_inv, INV_Z_MIN, INV_Z_MAX) as i32;
    let d_inv = if l > 0 {
        (inv_e - inv_s) / l
    } else {
        0
    };
    proof {
        if l > 0 {
            assert(d_inv == trunc_div((inv_e - inv_s) as int, l as int));
            lemma_step_between(inv_s as int, inv_e as int, l as int, l as int);
            assert(d_inv * l == l * d_inv) by (nonlinear_arith);
        }
    }
    let t0 = span_tc_exec(eq.d_tc_dx[0], line_tc0, info.size[0], inv_s, d_inv, xs, xe);
    let t1 = span_tc_exec(eq.d_tc_dx[1], line_tc1, info.size[1], inv_s, d_inv, xs, xe);
    (inv_s, d_inv, t0.0, t0.1, t1.0, t1.1)
}

/// The integer form of a span's setup.
pub open spec fn setup_int(s: (i32, i32, i32, i32, i32, i32)) -> (int, int, int, int, int, int) {
    (s.0 as int, s.1 as int, s.2 as int, s.3 as int, s.4 as int, s.5 as int)
}

/// Fills the `count` pixels of `buffer` from `offset` on from the texture, pixel `k` from texel
/// `span_texel(setup, width, k)`.
pub fn fill_span(
    buffer: &mut Vec<Color32>,
    offset: usize,
    count: usize,
    setup: (i32, i32, i32, i32, i32, i32),
    info: &TextureInfo,
    texture: &[Color32],
)
    requires
        offset + count <= old(buffer)@.len(),
        setup_valid(setup_int(setup), info.size, count as int),
        texture_fits(*info, texture@.len() as int),
    ensures
        final(buffer)@.len() == old(buffer)@.len(),
        forall|i: int|
            0 <= i < old(buffer)@.len() ==> #[trigger] final(buffer)@[i] == if offset <= i < offset + count {
                texture@[span_texel(setup_int(setup), info.size[0] as int, i - offset)]
            } else {
                old(buffer)@[i]
            },
{
    let ghost s = setup_int(setup);
    let ghost old_buf = buffer@;
    let width = info.size[0] as u32;
    let mut inv_z: i32 = setup.0;
    let mut tc0: i32 = setup.2;
    let mut tc1: i32 = setup.4;
    let mut k: usize = 0;
    while k < count
        invariant
            offset + count <= old_buf.len(),
            buffer@.len() == old_buf.len(),
            setup_valid(s, info.size, count as int),
            s == setup_int(setup),
            texture_fits(*info, texture@.len() as int),
            width == info.size[0],
            k <= count,
            k < count ==> inv_z == pixel_inv_z(s, k as int),
            k < count ==> tc0 == pixel_tc(s, 0, k as int),
            k < count ==> tc1 == pixel_tc(s, 1, k as int),
            forall|i: int|
                0 <= i < old_buf.len() ==> #[trigger] buffer@[i] == if offset <= i < offset + k {
                    texture@[span_texel(s, info.size[0] as int, i - offset)]
                } else {
                    old_buf[i]
                },
        decreases count - k,
    {
        assert(INV_Z_MIN <= pixel_inv_z(s, k as int) <= INV_Z_MAX);
        let ghost texel_spec = span_texel(s, info.size[0] as int, k as int);
        let inv_u = inv_z as u32;
        assert(inv_u >> 12u32 == inv_u / 4096) by (bit_vector);
        let q = inv_u >> 12u32;
        let z = 0x8000_0000u32 / q;
        assert(z <= 0x8000_0000);
        assert(0 <= (z as int) * (tc0 as int) <= 0x8000_0000 * 0x2000_0000) by (nonlinear_arith)
            requires
                0 <= z <= 0x8000_0000,
                0 <= tc0 <= 0x2000_0000,
        ;
        assert(0 <= (z as int) * (tc1 as int) <= 0x8000_0000 * 0x2000_0000) by (nonlinear_arith)
            requires
                0 <= z <= 0x8000_0000,
                0 <= tc1 <= 0x2000_0000,
        ;
        let p0 = (z as u64) * (tc0 as u64);
        let p1 = (z as u64) * (tc1 as u64);
        assert(p0 >> 38u64 == p0 / 0x40_0000_0000) by (bit_vector);
        assert(p1 >> 38u64 == p1 / 0x40_0000_0000) by (bit_vector);
        let u = p0 >> 38u64;
        let v = p1 >> 38u64;
        assert(u as int == texel_coord(pixel_depth(inv_z as int), tc0 as int));
        assert(v as int == texel_coord(pixel_depth(inv_z as int), tc1 as int));
        assert(u + v * width == texel_spec);
        assert(0 <= v * width <= u + v * width < 0x1_0000_0000) by (nonlinear_arith)
            requires
                u + v * width == texel_spec,
                0 <= texel_spec < info.size[0] * info.size[1],
                info.size[0] * info.size[1] <= u32::MAX,
                u >= 0,
                v >= 0,
                width >= 0,
        ;
        let texel = (u as u32 + (v as u32) * width) as usize;
        let n = buffer.len();
        assert(offset + k < n);
        buffer.set(offset + k, texture[texel]);
        proof {
            assert((k + 1) * s.1 == k * s.1 + s.1) by (nonlinear_arith);
            assert((k + 1) * s.3 == k * s.3 + s.3) by (nonlinear_arith);
            assert((k + 1) * s.5 == k * s.5 + s.5) by (nonlinear_arith);
        }
        inv_z = inv_z + setup.1;
        tc0 = tc0 + setup.3;
        tc1 = tc1 + setup.5;
        k = k + 1;
    }
}

proof fn lemma_texel_in_texture(u: int, v: int, w: int, h: int)
    requires
        0 <= u < w,
        0 <= v < h,
    ensures
        0 <= u + v * w < w * h,
{
    assert(0 <= u + v * w < w * h) by (nonlinear_arith)
        requires
            0 <= u < w,
            0 <= v < h,
    ;
}

} // verus!
