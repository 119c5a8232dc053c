//! Procedural tiled planets: the dual mesh of an icosphere as hexagonal and
//! pentagonal tiles, the graph of which tiles touch, biome classification from
//! bucketed noise, and chunked per-tile storage.
pub mod entries;
pub mod tessellation;
pub mod graph;
pub mod biome;
pub mod store;
pub mod board;
pub mod relations;

pub use biome::{Biome, BiomeRange, BiomeTable, Measure};
pub use board::{
    BoardBuilder, BoardInitializationType, BoardPlugin, CameraDebugPoint, FaceMaterialIdx,
    GeographicalParams, LayerChild, LayerLoadState, NeighbourOf, OldFaceMaterialIdx, OpState,
    Planet, PlanetDesc, PlanetLayerOf, SkyParams, TileData,
};
pub use graph::AdjacencyGraph;
pub use relations::LoadState;
pub use store::{ChunkedTileStore, TileRecord};
pub use tessellation::{Index, Tessellation, TessellationError};
