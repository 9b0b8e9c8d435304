//! Verified core of OmapMaker: symbol tables, map-file text, raster-mask
//! morphology, component labelling, incremental-regeneration planning and the
//! per-tile artifact caches.

pub mod filled;
pub mod graph;
pub mod inference;
pub mod lidar;
pub mod map;
pub mod map_gen;
pub mod omap_specs;
