pub mod common;
pub mod egui_map;
pub mod pipeline;
