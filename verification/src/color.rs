use vstd::prelude::*;

verus! {

/// A 32-bit color: blue in bits 0..8, green in 8..16, red in 16..24, alpha in 24..32.
#[derive(Copy, Clone, PartialEq, Eq, Structural, Debug)]
pub struct Color32(pub u32);

/// A 64-bit color: four 16-bit channels, alpha in the upper channel.
#[derive(Copy, Clone, PartialEq, Eq, Structural)]
pub struct Color64(pub u64);

/// Channel `c` (0 = blue .. 3 = alpha) of a 32-bit color.
pub open spec fn channel32(raw: u32, c: int) -> int {
    ((raw as int) / pow256(c)) % 256
}

pub open spec fn pow256(c: int) -> int {
    if c == 0 { 1 } else if c == 1 { 256 } else if c == 2 { 65536 } else { 16777216 }
}

/// Builds a raw 32-bit color from its four channels.
pub open spec fn pack32(b: int, g: int, r: int, a: int) -> int {
    b + g * 256 + r * 65536 + a * 16777216
}

impl Color32 {
    pub fn from_rgb(r: u8, g: u8, b: u8) -> (c: Color32)
        ensures
            c.0 == pack32(b as int, g as int, r as int, 0),
    {
        let (r32, g32, b32) = (r as u32, g as u32, b as u32);
        assert((r32 << 16u32) | (g32 << 8u32) | b32 == b32 + g32 * 256 + r32 * 65536) by (bit_vector)
            requires
                r32 < 256,
                g32 < 256,
                b32 < 256,
        ;
        Color32((r32 << 16u32) | (g32 << 8u32) | b32)
    }

    pub fn black() -> (c: Color32)
        ensures
            c.0 == 0,
    {
        Color32(0)
    }

    pub fn get_raw(self) -> (r: u32)
        ensures
            r == self.0,
    {
        self.0
    }
}


/// Channel `c` (0 = blue .. 3 = alpha) of a 64-bit color.
pub open spec fn channel64(raw: u64, c: int) -> int {
    ((raw as int) / pow65536(c)) % 65536
}

pub open spec fn pow65536(c: int) -> int {
    if c == 0 { 1 } else if c == 1 { 65536 } else if c == 2 { 0x1_0000_0000 } else { 0x1_0000_0000_0000 }
}

/// What colors of the renderer can do: average, add with saturation and blend by alpha, channel by
/// channel.
pub trait AbstractColor: Copy + Sized {
    /// Largest value of a channel.
    spec fn max_channel() -> int;

    /// Channel `c` of the color: 0 blue, 1 green, 2 red, 3 alpha.
    spec fn channel(self, c: int) -> int;

    /// Channel by channel, the mean of the two colors, rounded down.
    fn average(a: Self, b: Self) -> (r: Self)
        ensures
            forall|c: int| 0 <= c < 4 ==> #[trigger] r.channel(c) == (a.channel(c) + b.channel(c)) / 2;

    /// Channel by channel, the sum of the two colors, held at the largest channel value.
    fn saturated_sum(a: Self, b: Self) -> (r: Self)
        ensures
            forall|c: int|
                0 <= c < 4 ==> #[trigger] r.channel(c) == if a.channel(c) + b.channel(c) > Self::max_channel() {
                    Self::max_channel()
                } else {
                    a.channel(c) + b.channel(c)
                };

    /// The alpha channel.
    fn get_alpha(self) -> (r: i32)
        ensures
            r == self.channel(3);

    /// `src` drawn over `dst` with the alpha of `src` (0 to 255), channel by channel.
    fn alpha_blend(dst: Self, src: Self) -> (r: Self)
        requires
            src.channel(3) <= 255,
        ensures
            forall|c: int|
                0 <= c < 4 ==> #[trigger] r.channel(c) == (dst.channel(c) * (255 - src.channel(3)) + src.channel(c)
                    * src.channel(3)) / 256;

    /// The color is drawn by alpha testing: its alpha is above half of 255.
    fn test_alpha(self) -> (r: bool)
        ensures
            r == (self.channel(3) > 127);
}

proof fn lemma_unpack32(raw: u32)
    by (bit_vector)
    ensures
        raw & 0xFF == raw % 256,
        (raw >> 8u32) & 0xFF == (raw / 256) % 256,
        (raw >> 16u32) & 0xFF == (raw / 65536) % 256,
        raw >> 24u32 == (raw / 16777216) % 256,
{
}

proof fn lemma_pack32(b: u32, g: u32, r: u32, a: u32)
    by (bit_vector)
    requires
        b < 256,
        g < 256,
        r < 256,
        a < 256,
    ensures
        (b | (g << 8u32) | (r << 16u32) | (a << 24u32)) % 256 == b,
        ((b | (g << 8u32) | (r << 16u32) | (a << 24u32)) / 256) % 256 == g,
        ((b | (g << 8u32) | (r << 16u32) | (a << 24u32)) / 65536) % 256 == r,
        ((b | (g << 8u32) | (r << 16u32) | (a << 24u32)) / 16777216) % 256 == a,
{
}

proof fn lemma_unpack64(raw: u64)
    by (bit_vector)
    ensures
        raw & 0xFFFF == raw % 65536,
        (raw >> 16u64) & 0xFFFF == (raw / 65536) % 65536,
        (raw >> 32u64) & 0xFFFF == (raw / 0x1_0000_0000) % 65536,
        raw >> 48u64 == (raw / 0x1_0000_0000_0000) % 65536,
{
}

proof fn lemma_pack64(b: u64, g: u64, r: u64, a: u64)
    by (bit_vector)
    requires
        b < 65536,
        g < 65536,
        r < 65536,
        a < 65536,
    ensures
        (b | (g << 16u64) | (r << 32u64) | (a << 48u64)) % 65536 == b,
        ((b | (g << 16u64) | (r << 32u64) | (a << 48u64)) / 65536) % 65536 == g,
        ((b | (g << 16u64) | (r << 32u64) | (a << 48u64)) / 0x1_0000_0000) % 65536 == r,
        ((b | (g << 16u64) | (r << 32u64) | (a << 48u64)) / 0x1_0000_0000_0000) % 65536 == a,
{
}

/// The four channels of a 32-bit color.
pub(crate) fn unpack32(raw: u32) -> (r: [u32; 4])
    ensures
        r[0] == channel32(raw, 0),
        r[1] == channel32(raw, 1),
        r[2] == channel32(raw, 2),
        r[3] == channel32(raw, 3),
{
    proof {
        lemma_unpack32(raw);
    }
    [raw & 0xFF, (raw >> 8u32) & 0xFF, (raw >> 16u32) & 0xFF, raw >> 24u32]
}

/// The 32-bit color with the given channels.
pub(crate) fn pack32_channels(ch: [u32; 4]) -> (r: u32)
    requires
        ch[0] < 256,
        ch[1] < 256,
        ch[2] < 256,
        ch[3] < 256,
    ensures
        forall|c: int| 0 <= c < 4 ==> #[trigger] channel32(r, c) == ch[c],
{
    proof {
        lemma_pack32(ch[0], ch[1], ch[2], ch[3]);
    }
    let r = ch[0] | (ch[1] << 8u32) | (ch[2] << 16u32) | (ch[3] << 24u32);
    assert forall|c: int| 0 <= c < 4 implies #[trigger] channel32(r, c) == ch[c] by {
        if c == 0 {
        } else if c == 1 {
        } else if c == 2 {
        } else {
        }
    }
    r
}

/// The four channels of a 64-bit color.
fn unpack64(raw: u64) -> (r: [u64; 4])
    ensures
        r[0] == channel64(raw, 0),
        r[1] == channel64(raw, 1),
        r[2] == channel64(raw, 2),
        r[3] == channel64(raw, 3),
{
    proof {
        lemma_unpack64(raw);
    }
    [raw & 0xFFFF, (raw >> 16u64) & 0xFFFF, (raw >> 32u64) & 0xFFFF, raw >> 48u64]
}

/// The 64-bit color with the given channels.
fn pack64_channels(ch: [u64; 4]) -> (r: u64)
    requires
        ch[0] < 65536,
        ch[1] < 65536,
        ch[2] < 65536,
        ch[3] < 65536,
    ensures
        forall|c: int| 0 <= c < 4 ==> #[trigger] channel64(r, c) == ch[c],
{
    proof {
        lemma_pack64(ch[0], ch[1], ch[2], ch[3]);
    }
    let r = ch[0] | (ch[1] << 16u64) | (ch[2] << 32u64) | (ch[3] << 48u64);
    assert forall|c: int| 0 <= c < 4 implies #[trigger] channel64(r, c) == ch[c] by {
        if c == 0 {
        } else if c == 1 {
        } else if c == 2 {
        } else {
        }
    }
    r
}

proof fn lemma_channel32_bound(raw: u32, c: int)
    ensures
        0 <= channel32(raw, c) < 256,
{
}

proof fn lemma_channel64_bound(raw: u64, c: int)
    ensures
        0 <= channel64(raw, c) < 65536,
{
}

impl AbstractColor for Color32 {
    open spec fn max_channel() -> int {
        255
    }

    open spec fn channel(self, c: int) -> int {
        channel32(self.0, c)
    }

    fn average(a: Self, b: Self) -> (r: Self) {
        let x = unpack32(a.0);
        let y = unpack32(b.0);
        let ch: [u32; 4] = [(x[0] + y[0]) / 2, (x[1] + y[1]) / 2, (x[2] + y[2]) / 2, (x[3] + y[3]) / 2];
        let r = Color32(pack32_channels(ch));
        assert forall|c: int| 0 <= c < 4 implies #[trigger] r.channel(c) == (a.channel(c) + b.channel(c)) / 2 by {
            if c == 0 {
            } else if c == 1 {
            } else if c == 2 {
            } else {
            }
        }
        r
    }

    fn saturated_sum(a: Self, b: Self) -> (r: Self) {
        let x = unpack32(a.0);
        let y = unpack32(b.0);
        let mut ch: [u32; 4] = [0, 0, 0, 0];
        let mut c: usize = 0;
        while c < 4
            invariant
                c <= 4,
                forall|k: int| 0 <= k < 4 ==> #[trigger] x[k] == channel32(a.0, k) && y[k] == channel32(b.0, k),
                forall|k: int|
                    0 <= k < c ==> #[trigger] ch[k] == if x[k] + y[k] > 255 {
                        255
                    } else {
                        x[k] + y[k]
                    },
            decreases 4 - c,
        {
            proof {
                lemma_channel32_bound(a.0, c as int);
                lemma_channel32_bound(b.0, c as int);
            }
            let s = x[c] + y[c];
            ch[c] = if s > 255 {
                255
            } else {
                s
            };
            c = c + 1;
        }
        let r = Color32(pack32_channels(ch));
        r
    }

    fn get_alpha(self) -> (r: i32) {
        let x = unpack32(self.0);
        x[3] as i32
    }

    fn alpha_blend(dst: Self, src: Self) -> (r: Self) {
        let x = unpack32(dst.0);
        let y = unpack32(src.0);
        let alpha = y[3];
        let mut ch: [u32; 4] = [0, 0, 0, 0];
        let mut c: usize = 0;
        while c < 4
            invariant
                c <= 4,
                alpha == channel32(src.0, 3),
                alpha <= 255,
                forall|k: int| 0 <= k < 4 ==> #[trigger] x[k] == channel32(dst.0, k) && y[k] == channel32(src.0, k),
                forall|k: int|
                    0 <= k < c ==> #[trigger] ch[k] == (x[k] * (255 - alpha) + y[k] * alpha) / 256 && ch[k] < 256,
            decreases 4 - c,
        {
            proof {
                lemma_channel32_bound(dst.0, c as int);
                lemma_channel32_bound(src.0, c as int);
                let (d, s) = (x[c as int] as int, y[c as int] as int);
                assert(d * (255 - alpha) + s * alpha <= 255 * 255) by (nonlinear_arith)
                    requires
                        0 <= d < 256,
                        0 <= s < 256,
                        0 <= alpha <= 255,
                ;
                assert(0 <= d * (255 - alpha)) by (nonlinear_arith)
                    requires
                        0 <= d,
                        alpha <= 255,
                ;
                assert(0 <= s * alpha) by (nonlinear_arith)
                    requires
                        0 <= s,
                        0 <= alpha,
                ;
            }
            ch[c] = (x[c] * (255 - alpha) + y[c] * alpha) / 256;
            c = c + 1;
        }
        Color32(pack32_channels(ch))
    }

    fn test_alpha(self) -> (r: bool) {
        proof {
            lemma_unpack32(self.0);
        }
        let raw = self.0;
        let a = raw >> 24u32;
        assert(raw & 0xFF000000 > 0x7F000000 <==> a > 127) by (bit_vector)
            requires
                a == raw >> 24u32,
        ;
        raw & 0xFF000000 > 0x7F000000
    }
}

impl AbstractColor for Color64 {
    open spec fn max_channel() -> int {
        65535
    }

    open spec fn channel(self, c: int) -> int {
        channel64(self.0, c)
    }

    fn average(a: Self, b: Self) -> (r: Self) {
        let x = unpack64(a.0);
        let y = unpack64(b.0);
        let ch: [u64; 4] = [(x[0] + y[0]) / 2, (x[1] + y[1]) / 2, (x[2] + y[2]) / 2, (x[3] + y[3]) / 2];
        let r = Color64(pack64_channels(ch));
        assert forall|c: int| 0 <= c < 4 implies #[trigger] r.channel(c) == (a.channel(c) + b.channel(c)) / 2 by {
            if c == 0 {
            } else if c == 1 {
            } else if c == 2 {
            } else {
            }
        }
        r
    }

    fn saturated_sum(a: Self, b: Self) -> (r: Self) {
        let x = unpack64(a.0);
        let y = unpack64(b.0);
        let mut ch: [u64; 4] = [0, 0, 0, 0];
        let mut c: usize = 0;
        while c < 4
            invariant
                c <= 4,
                forall|k: int| 0 <= k < 4 ==> #[trigger] x[k] == channel64(a.0, k) && y[k] == channel64(b.0, k),
                forall|k: int|
                    0 <= k < c ==> #[trigger] ch[k] == if x[k] + y[k] > 65535 {
                        65535
                    } else {
                        x[k] + y[k]
                    },
            decreases 4 - c,
        {
            proof {
                lemma_channel64_bound(a.0, c as int);
                lemma_channel64_bound(b.0, c as int);
            }
            let s = x[c] + y[c];
            ch[c] = if s > 65535 {
                65535
            } else {
                s
            };
            c = c + 1;
        }
        Color64(pack64_channels(ch))
    }

    fn get_alpha(self) -> (r: i32) {
        let x = unpack64(self.0);
        x[3] as i32
    }

    fn alpha_blend(dst: Self, src: Self) -> (r: Self) {
        let x = unpack64(dst.0);
        let y = unpack64(src.0);
        let alpha = y[3];
        let mut ch: [u64; 4] = [0, 0, 0, 0];
        let mut c: usize = 0;
        while c < 4
            invariant
                c <= 4,
                alpha == channel64(src.0, 3),
                alpha <= 255,
                forall|k: int| 0 <= k < 4 ==> #[trigger] x[k] == channel64(dst.0, k) && y[k] == channel64(src.0, k),
                forall|k: int|
                    0 <= k < c ==> #[trigger] ch[k] == (x[k] * (255 - alpha) + y[k] * alpha) / 256 && ch[k] < 65536,
            decreases 4 - c,
        {
            proof {
                lemma_channel64_bound(dst.0, c as int);
                lemma_channel64_bound(src.0, c as int);
                let (d, s) = (x[c as int] as int, y[c as int] as int);
                assert(d * (255 - alpha) + s * alpha <= 65535 * 255) by (nonlinear_arith)
                    requires
                        0 <= d < 65536,
                        0 <= s < 65536,
                        0 <= alpha <= 255,
                ;
                assert(0 <= d * (255 - alpha)) by (nonlinear_arith)
                    requires
                        0 <= d,
                        alpha <= 255,
                ;
                assert(0 <= s * alpha) by (nonlinear_arith)
                    requires
                        0 <= s,
                        0 <= alpha,
                ;
            }
            ch[c] = (x[c] * (255 - alpha) + y[c] * alpha) / 256;
            c = c + 1;
        }
        Color64(pack64_channels(ch))
    }

    fn test_alpha(self) -> (r: bool) {
        let raw = self.0;
        let a = raw >> 48u64;
        proof {
            lemma_unpack64(raw);
        }
        assert(raw & 0xFFFF000000000000 > 0x007F000000000000 <==> a > 127) by (bit_vector)
            requires
                a == raw >> 48u64,
        ;
        raw & 0xFFFF000000000000 > 0x007F000000000000
    }
}

} // verus!
