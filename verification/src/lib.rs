//! Rendering-layer logic of the Burin GUI framework, with verified contracts.

mod strings;
pub mod grid;
pub mod text;
pub mod cursor;
pub mod geometry;
pub mod damage;
pub mod path;
pub mod svg;
pub mod resource;
pub mod mipmap;
pub mod downscale;
pub mod image_registry;
pub mod pixel;
pub mod blur;
pub mod atlas;
pub mod gpu;
pub mod ssr;
pub mod composite;
pub mod draw_order;
pub mod backdrop;
pub mod shaders;
pub mod pipeline;
pub mod paint_order;
pub mod text_cache;
pub mod gpu_state;
pub mod gpu_passes;
pub mod glyph_cache;
pub mod shadow_cache;
pub mod shadow;
pub mod cpu_image;
