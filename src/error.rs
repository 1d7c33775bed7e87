use vstd::prelude::*;

verus! {

/// A manifest field that the engine needs and that was absent.
#[derive(Clone, Copy, Debug, PartialEq, Eq, Structural)]
pub enum ManifestField {
    BlockSize,
    StartBlock,
    NumBlocks,
    DataOffset,
    DataLength,
}

/// Every way an extraction run can fail inside the engine.
#[derive(Clone, Debug)]
pub enum ExtractError {
    /// A field that the engine reads was absent from the manifest.
    MalformedManifest(ManifestField),
    /// The payload does not start with the expected magic tag.
    InvalidMagic,
    /// The container header is shorter than its declared sizes.
    TruncatedPayload,
    /// An extent reaches past the end of its partition.
    ExtentOutOfBounds,
    /// The operation's source range reaches past the end of the data blob.
    SourceRangeOutOfBounds,
    /// The digest of the source bytes differs from the declared one.
    HashMismatch { expected: Vec<u8>, computed: Vec<u8> },
    /// A known operation kind that this engine does not implement.
    UnimplementedOperation(i32),
    /// An operation kind tag that the format does not define.
    InvalidOperation(i32),
    /// The source stream holds more bytes than the destination extents.
    ExcessSourceData,
    /// The source stream, even padded to a block, does not fill the extents.
    InsufficientSourceData,
    /// The compressed source could not be decoded.
    DecompressFailed,
    /// A requested partition is absent from the manifest.
    PartitionNotFound(String),
    /// A partition's destination extents overlap, leave a gap, or reach
    /// past its end.
    ExtentsDoNotTile,
    /// A partition does not declare its output size.
    SizeUnspecified,
}

} // verus!
