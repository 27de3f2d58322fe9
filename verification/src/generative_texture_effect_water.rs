use vstd::prelude::*;
use crate::generative_texture_effect_fire::{heat_map_area, lemma_heat_map_sides};
use vstd::bits::{lemma_u32_shl_is_mul, lemma_u32_pow2_no_overflow};

verus! {

/// Wave field sizes the water effect accepts: at least 4 along each axis and fewer than `2^22` cells.
pub open spec fn water_resolution_accepted(log2: [u32; 2]) -> bool {
    log2[0] >= 2 && log2[1] >= 2 && log2[0] + log2[1] < 22
}

/// Tells whether the water effect accepts a wave field of `2^log2[0] x 2^log2[1]` cells.
pub fn water_resolution_valid(log2: [u32; 2]) -> (r: bool)
    ensures
        r == water_resolution_accepted(log2),
{
    log2[0] >= 2 && log2[1] >= 2 && log2[0] < 22 && log2[1] < 22 - log2[0]
}

/// Texels the water effect updates: its texture and its wave field buffers.
pub fn water_estimated_texel_count(log2: [u32; 2]) -> (r: u32)
    requires
        water_resolution_accepted(log2),
    ensures
        r == heat_map_area(log2) * 2,
{
    proof {
        lemma_heat_map_sides(log2);
        lemma_u32_pow2_no_overflow((log2[0] + log2[1]) as nat);
        lemma_u32_shl_is_mul(1, (log2[0] + log2[1]) as u32);
    }
    let area = 1u32 << (log2[0] + log2[1]);
    area * 2
}

} // verus!
