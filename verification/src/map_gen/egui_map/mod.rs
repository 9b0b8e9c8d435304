pub mod map_laz;
pub mod regenerate_map_tile;
pub mod temp_map;
