//! The options of the dataset tool's three commands.

use vstd::prelude::*;

use crate::format::{TileMetadata, FORMAT_VERSION};

verus! {

/// Generate a dataset from a raw source.
pub struct Generate {
    pub input: String,
    pub water: String,
    pub output: String,
    pub resolution: u16,
    pub height_resolution: u16,
}

impl Generate {
    /// The metadata of the dataset to generate.
    pub fn metadata(&self) -> (r: TileMetadata)
        ensures
            r == (TileMetadata {
                version: FORMAT_VERSION,
                resolution: self.resolution,
                height_resolution: self.height_resolution,
            }),
    {
        TileMetadata {
            version: FORMAT_VERSION,
            resolution: self.resolution,
            height_resolution: self.height_resolution,
        }
    }
}

/// Create a new dataset derived from another.
pub struct Edit {
    pub input: String,
    pub output: String,
    pub resolution: u16,
    pub height_resolution: u16,
}

impl Edit {
    /// The metadata of the dataset to write.
    pub fn metadata(&self) -> (r: TileMetadata)
        ensures
            r == (TileMetadata {
                version: FORMAT_VERSION,
                resolution: self.resolution,
                height_resolution: self.height_resolution,
            }),
    {
        TileMetadata {
            version: FORMAT_VERSION,
            resolution: self.resolution,
            height_resolution: self.height_resolution,
        }
    }
}

/// Give information about the dataset.
pub struct Info {
    pub input: String,
}

} // verus!
