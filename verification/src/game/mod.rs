pub mod items;
pub mod terrain;
