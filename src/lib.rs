//! A compact, schema-less binary encoding.
//!
//! Values are written to the front of a caller-owned byte buffer through a
//! write cursor (`&mut &mut [u8]`) and read back through a read cursor
//! (`&mut &[u8]`); every call moves its cursor past the bytes it handled.
//! Unsigned integers use a base-128 varint, signed ones a zigzag varint,
//! fixed-width scalars their little-endian bytes, strings and byte buffers a
//! varint length prefix, and sequences and mappings a varint count followed by
//! the elements and a four-byte terminator.
//!
//! Each codec comes with a spec-level description of its bytes (`*_bytes`)
//! and of what decoding a buffer gives (`parse_*`); the contracts of the
//! executable functions are stated over those.

pub mod error;
pub mod cursor;
pub mod varint;
pub mod fixed;
pub mod text;
pub mod container;
pub mod time;
pub mod laws;

pub use error::Error;
pub use varint::{size_uint, marshal_uint, unmarshal_uint, skip_uint, encode_zigzag, decode_zigzag,
    size_int, marshal_int, unmarshal_int, skip_int, size_usize, marshal_usize, unmarshal_usize,
    skip_usize, size_isize, marshal_isize, unmarshal_isize, skip_isize};
pub use fixed::{size_u8, marshal_u8, unmarshal_u8, skip_u8, size_i8, marshal_i8, unmarshal_i8,
    skip_i8, size_bool, marshal_bool, unmarshal_bool, skip_bool, size_u16, marshal_u16,
    unmarshal_u16, skip_u16, size_u32, marshal_u32, unmarshal_u32, skip_u32, size_u64, marshal_u64,
    unmarshal_u64, skip_u64, size_i16, marshal_i16, unmarshal_i16, skip_i16, size_i32, marshal_i32,
    unmarshal_i32, skip_i32, size_i64, marshal_i64, unmarshal_i64, skip_i64};
pub use text::{size_string, marshal_string, unmarshal_string, skip_string, size_bytes,
    marshal_bytes, unmarshal_bytes_cropped, unmarshal_bytes_copied, skip_bytes};
pub use container::{unmarshal_slice, skip_slice, marshal_slice, size_slice, size_fixed_slice,
    size_option, marshal_option, unmarshal_option, skip_option, unmarshal_map, skip_map, size_map,
    marshal_map};
pub use time::{Timestamp, size_time, marshal_time, unmarshal_time, skip_time};
