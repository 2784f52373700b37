//! # Extism kernel
//!
//! - Isolated memory from both host and plugin
//! - An allocator for managing that memory
//! - Input/output handling
//! - Error message handling
//!
//! ## Allocator
//!
//! The allocator is a bump allocator that tracks the `length` of the total number
//! of bytes available to the allocator and `position` to track how much of the
//! data has been used. Blocks that were freed are used again. When a new
//! allocation that is larger than the remaining size is made, the allocator asks
//! for the memory to grow; if that fails a `0` offset is returned, which should be
//! interpreted as a failed allocation.
//!
//! ## Input/Output
//!
//! Input and output are just allocated blocks of memory that are marked as either
//! input or output using the `input_set` or `output_set` functions. The
//! `MemoryRoot` field `input_offset` contains the offset in memory to the input
//! data and `input_length` contains the size of the input data. `output_offset`
//! and `output_length` are used for the output data.
//!
//! ## Error handling
//!
//! The `error` field is used to track the current error message. If it is set to
//! `0` then there is no error. The length of the error message can be retrieved
//! using `length`.
//!
//! ## Memory offsets
//!
//! An offset of `0` is similar to a `NULL` pointer in C - it implies an allocation
//! failure or memory error of some kind.
//!
//! ## Modules
//!
//! - `bytes`: little-endian numbers inside a sequence of bytes
//! - `memory`: the linear memory
//! - `layout`: the root and the block headers as they lie in memory
//! - `heap`: the blocks that fill the heap, and what an allocation does to them
//! - `root`: initialization and allocation
//! - `exports`: the functions that runtimes and plugins call
//! - `effects`: what each of them does, in bytes and numbers
//! - `laws`: what holds across these functions
pub mod bytes;
pub mod effects;
pub mod exports;
pub mod heap;
pub mod laws;
pub mod layout;
pub mod memory;
pub mod root;

pub use exports::{allocate, can_access, can_access_input, error_get, error_set, free};
pub use exports::{input_length, input_load_u64, input_load_u8, input_offset, input_set, length};
pub use exports::{load_u64, load_u8, memory_bytes, output_length, output_offset, output_set};
pub use exports::{reset, store_u64, store_u8};
pub use layout::{MemoryBlock, MemoryRoot, MemoryStatus};
pub use memory::{num_pages, Length, LinearMemory, Pointer};
