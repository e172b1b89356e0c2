//! What the scanner and the generator hand to the patcher, as plain data.
//! Every position is a byte offset into the module as it was before patching.
use vstd::prelude::*;

verus! {

/// The kind of a top-level section of a module.
#[derive(Debug, Clone, Copy, PartialEq, Eq, Structural)]
pub enum WasmSectionCode {
    Custom,
    Type,
    Import,
    Function,
    Table,
    Memory,
    Global,
    Export,
    Start,
    Element,
    Code,
    Data,
    DataCount,
}

/// Where a section lies: `start_position` is its one-byte id, which its
/// length field follows; `end_position` is the first byte after it.
#[derive(Debug, Clone, Copy, PartialEq, Eq, Structural)]
pub struct WasmSection {
    pub code: WasmSectionCode,
    pub start_position: usize,
    pub end_position: usize,
}

/// An imported function whose signature needs lowering. `position` is the
/// start of its import entry.
#[derive(Debug, Clone, Copy, PartialEq, Eq, Structural)]
pub struct WasmFunction {
    pub function_index: usize,
    pub signature_index: usize,
    pub position: usize,
}

/// A signature of the type section, known by its index there.
#[derive(Debug, Clone, Copy, PartialEq, Eq, Structural)]
pub struct WasmTypeSignature {
    pub index: usize,
}

/// A call instruction: `position` is the start of its target-index operand,
/// `function_body_position` the size field of the body that holds it.
#[derive(Debug, Clone, Copy, PartialEq, Eq, Structural)]
pub struct WasmCall {
    pub function_index: usize,
    pub position: usize,
    pub function_body_position: usize,
}

/// A new signature that stands in for `original_signature_index` on imports;
/// `bytes` is its encoded type-section entry.
#[derive(Debug, Clone)]
pub struct LoweredSignature {
    pub original_signature_index: usize,
    pub bytes: Vec<u8>,
}

/// A new function with signature `signature_index` that forwards to a lowered
/// import; `bytes` is its encoded code-section entry, size field included.
#[derive(Debug, Clone)]
pub struct TrampolineFunction {
    pub signature_index: usize,
    pub bytes: Vec<u8>,
}

} // verus!
