//! A reader and writer for USTAR tape archives held in memory.
//!
//! An archive is a sequence of 512-byte blocks. Each member is a header block
//! followed by its content, zero-padded to whole blocks; two all-zero blocks
//! end the archive.
pub mod archive;
pub mod block;
pub mod cli;
pub mod header;
pub mod octal;
pub mod properties;
pub mod text;
