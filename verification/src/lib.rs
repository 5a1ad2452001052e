//! Guest-side half of a synchronous foreign-call bridge between a sandboxed
//! scripting runtime inside a WebAssembly module and its host.
//!
//! The crate models the guest's linear memory and the boundary allocator that
//! the host drives through the canonical ABI (`canonical_abi_realloc` /
//! `canonical_abi_free`), the fixed-size wide-pointer descriptor that carries a
//! variable-length response across the boundary, and the marshaller that
//! stages argument strings, decodes a response, and releases every buffer
//! exactly once on every path.

pub mod config;
pub mod heap;
pub mod marshal;
pub mod wide;
