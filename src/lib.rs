//! Compressed-block container codec with random access through virtual
//! positions, together with a few small record helpers that sit on top of it.

pub mod block;
pub mod block_cursor;
pub mod cigar;
pub mod deflate;
pub mod error;
pub mod fastq;
pub mod info_type;
pub mod read_name;
pub mod reader;
pub mod virtual_position;
pub mod writer;
