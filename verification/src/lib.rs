//! Reading and writing MAME compressed hunks of data (CHD) images.

pub mod bitstream;
pub mod bytes;
pub mod cd;
pub mod cd_laws;
pub mod cdrom;
pub mod chdfile;
pub mod codec;
pub mod compression;
pub mod copy;
pub mod creation_laws;
pub mod cue;
pub mod cue_laws;
pub mod detail_laws;
pub mod diff_laws;
pub mod digest_laws;
pub mod disk_laws;
pub mod dvd;
pub mod entry_laws;
pub mod error;
pub mod format_laws;
pub mod function_laws;
pub mod hash;
pub mod hd;
pub mod header;
pub mod huffman;
pub mod huffman_encode;
pub mod huffman_laws;
pub mod huffman_tree;
pub mod hunk_index;
pub mod map;
pub mod map_laws;
pub mod metadata;
pub mod metadata_laws;
pub mod operation_laws;
pub mod overall_laws;
pub mod product_laws;
pub mod read_back;
pub mod read_laws;
pub mod refusal_laws;
pub mod report;
pub mod shape_laws;
pub mod text;
pub mod write;
pub mod write_laws;
