pub mod compute_buildings;
pub mod compute_dfm;
pub mod compute_marsh;
pub mod grid;
pub mod persistence;
