//! Reading primitive values out of the sections of a debug-information
//! format, whatever holds the bytes.
//!
//! A [`Reader`] is a cursor over the bytes of a section: it reads integers
//! of fixed and of variable length, strings that end in a null byte, and
//! words, offsets and addresses whose size the format or the target
//! decides, and it splits off parts of itself to be read later. Positions
//! and lengths are of a [`ReaderOffset`] type, which fixes the size of the
//! address space, and bytes are grouped in the order that an
//! [`Endianity`] names. [`EndianSlice`] is the reader over a slice in
//! memory.
//!
//! Every operation has a contract over [`ReaderView`], the mathematical
//! model of a reader, and is proved to meet it.

pub mod endian_slice;
pub mod endianity;
pub mod error;
pub mod format;
pub mod leb128;
pub mod reader;
pub mod text;

pub use crate::endian_slice::EndianSlice;
pub use crate::endianity::{BigEndian, Endianity, LittleEndian, RunTimeEndian};
pub use crate::error::Error;
pub use crate::format::Format;
pub use crate::reader::{Reader, ReaderOffset, ReaderView};
