use vstd::prelude::*;

verus! {

/// A side of a cube shadow map.
#[derive(Copy, Clone, PartialEq, Eq, Structural)]
pub enum CubeMapSide {
    XPlus,
    XMinus,
    YPlus,
    YMinus,
    ZPlus,
    ZMinus,
}

/// Number of the side, in declaration order.
pub open spec fn cubemap_side_index(side: CubeMapSide) -> u32 {
    match side {
        CubeMapSide::XPlus => 0,
        CubeMapSide::XMinus => 1,
        CubeMapSide::YPlus => 2,
        CubeMapSide::YMinus => 3,
        CubeMapSide::ZPlus => 4,
        CubeMapSide::ZMinus => 5,
    }
}

/// The side with number `i`; none past the sixth.
pub fn int_to_cubemap_side(i: u32) -> (r: Option<CubeMapSide>)
    ensures
        i < 6 ==> (r matches Some(side) && cubemap_side_index(side) == i),
        i >= 6 ==> r is None,
{
    match i {
        0 => Some(CubeMapSide::XPlus),
        1 => Some(CubeMapSide::XMinus),
        2 => Some(CubeMapSide::YPlus),
        3 => Some(CubeMapSide::YMinus),
        4 => Some(CubeMapSide::ZPlus),
        5 => Some(CubeMapSide::ZMinus),
        _ => None,
    }
}

} // verus!
