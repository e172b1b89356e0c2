//! Patches a WebAssembly module so that imports whose signature carries a
//! 64-bit integer are reached through trampoline functions.
pub mod calls;
pub mod error;
pub mod varint;
pub mod surgery;
pub mod laws;
pub mod patch;
pub mod redirect;
pub mod section;
pub mod wasm;

pub use error::PatchError;
pub use patch::apply_transformations_to_wasm_binary_vec;
pub use wasm::{
    LoweredSignature, TrampolineFunction, WasmCall, WasmFunction, WasmSection, WasmSectionCode,
    WasmTypeSignature,
};
