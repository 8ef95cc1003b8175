//! A lossless compressor for 64-bit little-endian x86-64 object files: the
//! reversible transforms, the byte router, the per-category filters and the
//! container format.

pub mod bytes;
pub mod category;
pub mod coder;
pub mod container;
pub mod container_laws;
pub mod eh;
pub mod elf_tables;
pub mod error;
pub mod image;
pub mod jump;
pub mod names;
pub mod pipeline;
pub mod pipeline_laws;
pub mod rebase;
pub mod rebase_laws;
pub mod router;
pub mod router_laws;
pub mod shuffle;
pub mod stage_facts;
pub mod stage_laws;
pub mod table_laws;
pub mod tables;
pub mod text;
pub mod varint;
pub mod zigzag;

pub use error::DecodeError;
pub use pipeline::{compare, compress, decompress, CompareError};
