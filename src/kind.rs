//! Operation kinds, as the wire format tags them.

use vstd::prelude::*;

verus! {

/// What the engine does with an operation of a given tag.
#[derive(Clone, Copy, Debug, PartialEq, Eq, Structural)]
pub enum OpKind {
    /// The source bytes are the literal stream.
    Replace,
    /// The source bytes are a bzip2 stream of the literal stream.
    ReplaceBz,
    /// The source bytes are an xz stream of the literal stream.
    ReplaceXz,
    /// The destination is left zero.
    Zero,
    /// A kind the format defines and this engine does not implement.
    Unsupported,
    /// A tag the format does not define.
    Invalid,
}

/// Tags of the wire format.
pub const TYPE_REPLACE: i32 = 0;
pub const TYPE_REPLACE_BZ: i32 = 1;
pub const TYPE_ZERO: i32 = 6;
pub const TYPE_REPLACE_XZ: i32 = 8;
/// The largest tag the format defines.
pub const TYPE_MAX: i32 = 13;

pub open spec fn op_kind_spec(t: i32) -> OpKind {
    if t == TYPE_REPLACE {
        OpKind::Replace
    } else if t == TYPE_REPLACE_BZ {
        OpKind::ReplaceBz
    } else if t == TYPE_REPLACE_XZ {
        OpKind::ReplaceXz
    } else if t == TYPE_ZERO {
        OpKind::Zero
    } else if 0 <= t <= TYPE_MAX {
        OpKind::Unsupported
    } else {
        OpKind::Invalid
    }
}

/// Classify an operation tag.
pub fn op_kind(t: i32) -> (k: OpKind)
    ensures
        k == op_kind_spec(t),
{
    if t == TYPE_REPLACE {
        OpKind::Replace
    } else if t == TYPE_REPLACE_BZ {
        OpKind::ReplaceBz
    } else if t == TYPE_REPLACE_XZ {
        OpKind::ReplaceXz
    } else if t == TYPE_ZERO {
        OpKind::Zero
    } else if 0 <= t && t <= TYPE_MAX {
        OpKind::Unsupported
    } else {
        OpKind::Invalid
    }
}

} // verus!
