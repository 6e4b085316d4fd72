pub mod gpu_handle;
pub mod sprite_batching;
