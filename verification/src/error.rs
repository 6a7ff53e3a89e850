//! The ways in which a read can fail.

use vstd::prelude::*;

verus! {

/// Why a read did not produce a value.
#[derive(Debug, Clone, Copy, PartialEq, Eq, Structural)]
pub enum Error {
    /// More bytes were needed than remain.
    UnexpectedEof,
    /// A length passed to `truncate`, `skip` or `split` exceeds what remains.
    OutOfBounds,
    /// A 64-bit value does not fit the offset type in use.
    UnsupportedOffset,
    /// An address size other than 1, 2, 4 or 8 bytes was asked for.
    UnsupportedAddressSize(u8),
    /// The bytes are not valid UTF-8.
    BadUtf8,
    /// An unsigned LEB128 number is longer than ten bytes or does not fit
    /// in 64 bits.
    BadUnsignedLeb128,
    /// A signed LEB128 number is longer than ten bytes or does not fit in
    /// 64 bits.
    BadSignedLeb128,
}

} // verus!
