//! Terrain datasets for a moving-map display: the geographic grid, the
//! single-file tile store with its header and offset table, the per-cell
//! preparation done while building a store, and the residency manager that
//! keeps a texture atlas of tiles in step with what the renderer samples.

pub mod grid;
pub mod format;
pub mod dataset;
pub mod builder;
pub mod cell;
pub mod cache;
pub mod edit;
pub mod commands;

pub use builder::DatasetBuilder;
pub use cache::{TileCache, UploadStatus};
pub use dataset::Dataset;
pub use format::{LoadError, TileMetadata, FORMAT_VERSION};
pub use grid::{map_index_to_lat_lon, map_lat_lon_to_index};
