//! A library for reading and writing Nintendo DOL executables, as used on the
//! GameCube and Wii.
//!
//! The codec works on plain bytes: decoding takes a byte slice holding the
//! whole file, encoding appends the file's bytes to a byte sink. Streaming a
//! file in or out of memory is left to the caller.

mod endian;
mod error;
mod file;
mod header;
pub mod laws;
mod sections;

pub use endian::be32_at;
pub use endian::be32_bytes;
pub use endian::be32_seq_bytes;
pub use endian::zero_bytes;
pub use error::Error;
pub use file::encodable;
pub use file::file_bytes;
pub use file::kind_sections;
pub use file::layout_header;
pub use file::ordered_sections;
pub use file::parse_file;
pub use file::sections_bytes;
pub use file::slot_index;
pub use file::total_len;
pub use file::DolFile;
pub use file::FileModel;
pub use file::DATA_CAPACITY;
pub use file::TEXT_CAPACITY;
pub use header::header_bytes;
pub use header::parse_header;
pub use header::DolHeader;
pub use header::HeaderModel;
pub use header::HEADER_SIZE;
pub use header::SLOT_COUNT;
pub use sections::count_used;
pub use sections::load_slots;
pub use sections::Section;
pub use sections::SectionKind;
pub use sections::SectionModel;
