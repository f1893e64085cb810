//! Spawn markers and a "randoms" overlay for the baked lightmaps of a level.
//!
//! The library holds the logic of the tool: the bookkeeping of the level's
//! scenery palette and placements, the software rasterizer that draws the
//! overlay in lightmap space, the compositor that blends it onto the baked
//! pages, and the assembler that packs the pages into one bitmap.
pub mod placement;
pub mod bitmap;
pub mod color;
pub mod composite;
pub mod raster;
pub mod mesh;
pub mod renderer;
