pub mod bvh;
pub mod bvh_utils;
pub mod scene;
pub mod image_texture;
pub mod render;
