use vstd::prelude::*;

verus! {

/// Counters of what the renderer drew in a frame.
pub struct RendererDebugStats {
    pub num_visible_leafs: usize,
    pub num_visible_submodels_parts: usize,
    pub num_visible_meshes: usize,
    pub num_visible_meshes_parts: usize,
    pub num_triangles: usize,
    pub num_triangle_vertices: usize,
    pub num_decals: usize,
    pub num_decals_leafs_parts: usize,
    pub num_sprites: usize,
    pub num_sprites_leafs_parts: usize,
    pub num_visible_lights: usize,
    pub num_visible_lights_with_shadow: usize,
    pub num_visible_portals: usize,
    pub num_visible_polygons: usize,
    pub num_surfaces_pixels: usize,
}

impl Default for RendererDebugStats {
    fn default() -> (r: Self)
        ensures
            r.num_visible_leafs == 0,
            r.num_visible_submodels_parts == 0,
            r.num_visible_meshes == 0,
            r.num_visible_meshes_parts == 0,
            r.num_triangles == 0,
            r.num_triangle_vertices == 0,
            r.num_decals == 0,
            r.num_decals_leafs_parts == 0,
            r.num_sprites == 0,
            r.num_sprites_leafs_parts == 0,
            r.num_visible_lights == 0,
            r.num_visible_lights_with_shadow == 0,
            r.num_visible_portals == 0,
            r.num_visible_polygons == 0,
            r.num_surfaces_pixels == 0,
    {
        RendererDebugStats {
            num_visible_leafs: 0,
            num_visible_submodels_parts: 0,
            num_visible_meshes: 0,
            num_visible_meshes_parts: 0,
            num_triangles: 0,
            num_triangle_vertices: 0,
            num_decals: 0,
            num_decals_leafs_parts: 0,
            num_sprites: 0,
            num_sprites_leafs_parts: 0,
            num_visible_lights: 0,
            num_visible_lights_with_shadow: 0,
            num_visible_portals: 0,
            num_visible_polygons: 0,
            num_surfaces_pixels: 0,
        }
    }
}

/// What a map polygon belongs to: a leaf or a submodel, by index.
#[derive(Copy, Clone, PartialEq, Eq, Structural)]
pub enum DrawPolygonParent {
    Leaf(u32),
    Submodel(u32),
}

/// Range of the visible meshes of a dynamic model.
#[derive(Copy, Clone, PartialEq, Eq, Structural)]
pub struct DynamicModelInfo {
    pub first_visible_mesh: u32,
    pub num_visible_meshes: u32,
}

impl Default for DynamicModelInfo {
    fn default() -> (r: Self)
        ensures
            r.first_visible_mesh == 0,
            r.num_visible_meshes == 0,
    {
        DynamicModelInfo { first_visible_mesh: 0, num_visible_meshes: 0 }
    }
}

/// Per-frame data of a dynamic light.
#[derive(Copy, Clone, PartialEq, Eq, Structural)]
pub struct DynamicLightInfo {
    /// Light is not visible if all leafs where it is located are not visible.
    pub visible: bool,
    pub shadow_map_data_offset: usize,
    /// Cubemap side size or projector shadowmap size.
    pub shadow_map_size: u32,
}

impl Default for DynamicLightInfo {
    fn default() -> (r: Self)
        ensures
            !r.visible,
            r.shadow_map_data_offset == 0,
            r.shadow_map_size == 0,
    {
        DynamicLightInfo { visible: false, shadow_map_data_offset: 0, shadow_map_size: 0 }
    }
}

} // verus!
