//! Reconstruction of partition images from an update payload: extent
//! resolution, the literal-stream write, integrity checks and the
//! per-operation executor, each stated against a mathematical model.

pub mod error;
pub mod stream;
pub mod cmd;
pub mod manifest;
pub mod extent;
pub mod tiling;
pub mod integrity;
pub mod decompress;
pub mod kind;
pub mod plan;
pub mod payload;
