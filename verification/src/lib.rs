//! Conversion between tile containers and tile-pyramid directory trees:
//! scheme-aware path codec, row-flip math, metadata and interactivity-grid
//! codecs, and the import/export pipelines over a verified container model.
pub mod container;
pub mod error;
pub mod grid;
pub mod json;
pub mod mbtiles;
pub mod num;
pub mod path;
pub mod scheme;
pub mod util;

pub use crate::container::{Container, Grid, GridDataEntry, MetadataEntry, Tile};
pub use crate::error::{InnerError, MBTileError};
pub use crate::mbtiles::{Entry, OutFile, export, import, metadata, parse_filename_and_insert};
pub use crate::path::{
    FileKind, decode_tile_path, encode_tile_path, parse_comp, parse_filename, parse_image_dir,
    parse_zoom_dir,
};
pub use crate::scheme::{Command, ImageFormat, Scheme, flip_y, get_extension, try_flip_y};
