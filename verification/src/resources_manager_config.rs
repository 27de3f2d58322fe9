use vstd::prelude::*;

verus! {

/// Where the resources manager finds its files.
pub struct ResourcesManagerConfig {
    pub maps_path: String,
    pub materials_path: String,
    pub models_path: String,
    pub textures_path: String,
}

impl Default for ResourcesManagerConfig {
    fn default() -> (r: Self)
        ensures
            r.maps_path@.len() == 0,
            r.materials_path@.len() == 0,
            r.models_path@.len() == 0,
            r.textures_path@.len() == 0,
    {
        ResourcesManagerConfig {
            maps_path: String::new(),
            materials_path: String::new(),
            models_path: String::new(),
            textures_path: String::new(),
        }
    }
}

} // verus!
