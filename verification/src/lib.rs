//! Integer core of a software renderer: frame bookkeeping, pixel buffers,
//! texture effects, draw ordering, model file parsing and the console.

pub mod frame_number;
pub mod color;
pub mod grid;
pub mod fixed_math;
pub mod seq_util;
pub mod text;
pub mod number_text;
pub mod config_value;
pub mod commands_queue;
pub mod commands_processor;
pub mod console;
pub mod draw_ordering;
pub mod triangle_model_iqm;
pub mod triangle_model_md3;
pub mod frame_upscaler;
pub mod textures;
pub mod generative_texture_effects_common;
pub mod generative_texture_effect_fire;
pub mod generative_texture_effect_water;
pub mod map_materials_processor;
pub mod light;
pub mod shadow_map;
pub mod generative_texture_effect_turb;
pub mod triangle_models_rendering;
pub mod renderer_structs;
pub mod frame_info;
pub mod resources_manager_config;
pub mod generative_texture_effect_layered;
pub mod host;
pub mod perspective_span;
pub mod rasterizer;
pub mod dynamic_objects_index;
