//! A tile world cut into square chunks: seeded chunk generation, a fixed grid
//! of chunks, the bookkeeping of a background generation worker, and culling
//! of the chunks against a camera rectangle.

pub mod chunk;
pub mod cull;
pub mod entity;
pub mod tile;
pub mod worker;
pub mod world;

pub use chunk::{Chunk, ChunkView, CHUNK_SIZE, CHUNK_SIZE_PIXELS, CHUNK_TILES, MAX_CODE, TEMPLATE_CODE, TILE_SIZE};
pub use cull::{CameraRect, VisibleTile};
pub use entity::{Behavior, EntityType, KeyboardData, MoveKey};
pub use tile::{classify, TileKind};
pub use worker::generate_batch;
pub use world::{random_seed, world_pixel_extent, WorldError, WorldMap, WorldView, SEED_END, SEED_LOW};
