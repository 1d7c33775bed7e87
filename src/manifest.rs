//! The decoded manifest: plain values, with every field that the wire
//! format lets be absent held as an `Option`.

use vstd::prelude::*;

verus! {

/// A run of blocks of a partition image.
#[derive(Clone, Copy, Debug, PartialEq, Eq, Structural)]
pub struct Extent {
    pub start_block: Option<u64>,
    pub num_blocks: Option<u64>,
}

/// One operation: a kind tag, a source range of the data blob, an optional
/// digest of the source bytes, and the destination extents in order.
#[derive(Clone, Debug)]
pub struct InstallOperation {
    pub op_type: i32,
    pub data_offset: Option<u64>,
    pub data_length: Option<u64>,
    pub dst_extents: Vec<Extent>,
    pub data_sha256_hash: Option<Vec<u8>>,
}

/// One output partition: its name, declared size, and operations.
#[derive(Clone, Debug)]
pub struct PartitionUpdate {
    pub partition_name: String,
    pub new_partition_size: Option<u64>,
    pub operations: Vec<InstallOperation>,
}

/// The whole manifest.
#[derive(Clone, Debug)]
pub struct DeltaArchiveManifest {
    pub block_size: Option<u32>,
    pub partitions: Vec<PartitionUpdate>,
}

} // verus!
