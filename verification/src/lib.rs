pub mod atlas;
pub mod batch;
pub mod draw_manager;
pub mod image_batch;
pub mod layer;
pub mod slots;
pub mod sort;
pub mod text;
pub mod texture_manager;
