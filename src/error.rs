use vstd::prelude::*;

verus! {

/// Why a patch could not be applied.
#[derive(Debug, Clone, Copy, PartialEq, Eq, Structural)]
pub enum PatchError {
    /// A variable-length integer is truncated, over-long, or wider than 32 bits.
    MalformedVarint,
    /// A section, or the length or count field of its header, is not where a
    /// section descriptor says it is.
    MissingSectionField,
    /// An import or call site has no matching lowered signature or trampoline.
    UnresolvedSignatureMapping,
    /// A position falls outside the buffer, or the edits do not follow the
    /// order of the buffer.
    PositionOutOfBounds,
}

} // verus!
