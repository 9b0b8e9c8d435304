# omapmaker

The verified core of an orienteering-map generator that works from LiDAR
data. The library in `src/` holds the parts of map generation that are
decisions over integers, masks and text, each with a contract proved by
Verus:

- `map`: the map symbols and their ISOM codes, tags, the text of area and
  line objects in the map file, and a union-find forest for grouping
  connected cliff lines.
- `lidar::connectivity` and `map_gen::egui_map::map_laz`: groups of
  touching LiDAR tiles.
- `map_gen::common::grid`: raster neighbourhoods, breadth-first region
  search, hole filling and minimum-area filtering of masks.
- `map_gen::common::compute_marsh`: disk morphology and the final marsh
  mask.
- `map_gen::common::compute_buildings`: the seeded random source of the
  plane sampler, sampling without replacement, candidate labelling, the
  nearest-candidate search and box closing.
- `map_gen::egui_map::regenerate_map_tile`: which pipeline steps an
  incremental preview regeneration runs.
- `map_gen::pipeline`: the per-tile artifact caches.
- `inference`: the model output contract and the reflect-padding index.

`app/` is a small command-line front end: it reads tile bounds from LAS
headers, measures distances between tiles, converts metric parameters to
cells and writes map-file text to disk.
