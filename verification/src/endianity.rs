//! Byte order: which number a group of bytes spells.

use core::fmt::Debug;
use vstd::arithmetic::power2::{lemma2_to64, pow2};
use vstd::prelude::*;

verus! {

/// The number that `bytes` spell when the first byte counts least.
pub open spec fn le_value(bytes: Seq<u8>) -> nat
    decreases bytes.len(),
{
    if bytes.len() == 0 {
        0
    } else {
        bytes[0] as nat + 256 * le_value(bytes.drop_first())
    }
}

/// The number that `bytes` spell when the first byte counts most.
pub open spec fn be_value(bytes: Seq<u8>) -> nat
    decreases bytes.len(),
{
    if bytes.len() == 0 {
        0
    } else {
        256 * be_value(bytes.drop_last()) + bytes.last() as nat
    }
}

/// The unsigned number that `bytes` spell in the given byte order.
pub open spec fn unsigned_value(big_endian: bool, bytes: Seq<u8>) -> nat {
    if big_endian {
        be_value(bytes)
    } else {
        le_value(bytes)
    }
}

/// The two's-complement number that `bytes` spell in the given byte order:
/// the unsigned number, less `2^(8 * bytes.len())` where the top bit is set.
pub open spec fn signed_value(big_endian: bool, bytes: Seq<u8>) -> int {
    let unsigned = unsigned_value(big_endian, bytes);
    let modulus = pow2(8 * bytes.len());
    if 2 * unsigned >= modulus {
        unsigned - modulus
    } else {
        unsigned as int
    }
}

/// What one byte spells: itself, in either byte order.
pub proof fn lemma_value_of_one(big_endian: bool, bytes: Seq<u8>)
    requires
        bytes.len() == 1,
    ensures
        unsigned_value(big_endian, bytes) == bytes[0],
{
    assert(be_value(bytes.drop_last()) == 0);
    assert(le_value(bytes.drop_first()) == 0);
}

/// What two bytes spell, written out.
pub proof fn lemma_value_of_two(big_endian: bool, bytes: Seq<u8>)
    requires
        bytes.len() == 2,
    ensures
        unsigned_value(big_endian, bytes) == if big_endian {
            bytes[0] * 0x100 + bytes[1]
        } else {
            bytes[0] + bytes[1] * 0x100
        },
        unsigned_value(big_endian, bytes) < 0x1_0000,
{
    if big_endian {
        let head = bytes.drop_last();
        assert(head.drop_last().len() == 0);
        assert(be_value(head.drop_last()) == 0);
        assert(be_value(head) == bytes[0]);
    } else {
        let tail = bytes.drop_first();
        assert(tail.drop_first().len() == 0);
        assert(le_value(tail.drop_first()) == 0);
        assert(le_value(tail) == bytes[1]);
    }
}

/// What four bytes spell, written out.
pub proof fn lemma_value_of_four(big_endian: bool, bytes: Seq<u8>)
    requires
        bytes.len() == 4,
    ensures
        unsigned_value(big_endian, bytes) == if big_endian {
            bytes[0] * 0x100_0000 + bytes[1] * 0x1_0000 + bytes[2] * 0x100 + bytes[3]
        } else {
            bytes[0] + bytes[1] * 0x100 + bytes[2] * 0x1_0000 + bytes[3] * 0x100_0000
        },
        unsigned_value(big_endian, bytes) < 0x1_0000_0000,
{
    if big_endian {
        let b3 = bytes.drop_last();
        let b2 = b3.drop_last();
        assert(b2[0] == bytes[0] && b2[1] == bytes[1]);
        lemma_value_of_two(true, b2);
        assert(be_value(b3) == 256 * be_value(b2) + bytes[2]);
        assert(be_value(bytes) == 256 * be_value(b3) + bytes[3]);
    } else {
        let b1 = bytes.drop_first();
        let b2 = b1.drop_first();
        assert(b2[0] == bytes[2] && b2[1] == bytes[3]);
        lemma_value_of_two(false, b2);
        assert(le_value(b1) == bytes[1] + 256 * le_value(b2));
        assert(le_value(bytes) == bytes[0] + 256 * le_value(b1));
    }
}

/// What eight bytes spell, written out.
pub proof fn lemma_value_of_eight(big_endian: bool, bytes: Seq<u8>)
    requires
        bytes.len() == 8,
    ensures
        unsigned_value(big_endian, bytes) == if big_endian {
            bytes[0] * 0x100_0000_0000_0000 + bytes[1] * 0x1_0000_0000_0000 + bytes[2]
                * 0x100_0000_0000 + bytes[3] * 0x1_0000_0000 + bytes[4] * 0x100_0000 + bytes[5]
                * 0x1_0000 + bytes[6] * 0x100 + bytes[7]
        } else {
            bytes[0] + bytes[1] * 0x100 + bytes[2] * 0x1_0000 + bytes[3] * 0x100_0000 + bytes[4]
                * 0x1_0000_0000 + bytes[5] * 0x100_0000_0000 + bytes[6] * 0x1_0000_0000_0000
                + bytes[7] * 0x100_0000_0000_0000
        },
        unsigned_value(big_endian, bytes) < 0x1_0000_0000_0000_0000,
{
    if big_endian {
        let b7 = bytes.drop_last();
        let b6 = b7.drop_last();
        let b5 = b6.drop_last();
        let b4 = b5.drop_last();
        assert(b4[0] == bytes[0] && b4[1] == bytes[1] && b4[2] == bytes[2] && b4[3] == bytes[3]);
        lemma_value_of_four(true, b4);
        assert(be_value(b5) == 256 * be_value(b4) + bytes[4]);
        assert(be_value(b6) == 256 * be_value(b5) + bytes[5]);
        assert(be_value(b7) == 256 * be_value(b6) + bytes[6]);
        assert(be_value(bytes) == 256 * be_value(b7) + bytes[7]);
    } else {
        let b1 = bytes.drop_first();
        let b2 = b1.drop_first();
        let b3 = b2.drop_first();
        let b4 = b3.drop_first();
        assert(b4[0] == bytes[4] && b4[1] == bytes[5] && b4[2] == bytes[6] && b4[3] == bytes[7]);
        lemma_value_of_four(false, b4);
        assert(le_value(b3) == bytes[3] + 256 * le_value(b4));
        assert(le_value(b2) == bytes[2] + 256 * le_value(b3));
        assert(le_value(b1) == bytes[1] + 256 * le_value(b2));
        assert(le_value(bytes) == bytes[0] + 256 * le_value(b1));
    }
}


/// The 16-bit number whose bytes are these, the first counting most.
fn join_u16(b0: u8, b1: u8) -> (value: u16)
    ensures
        value == b0 * 0x100 + b1,
{
    assert(((b0 as u16) << 8) | (b1 as u16) == b0 * 0x100 + b1) by (bit_vector);
    ((b0 as u16) << 8) | (b1 as u16)
}

/// The 32-bit number whose bytes are these, the first counting most.
fn join_u32(b0: u8, b1: u8, b2: u8, b3: u8) -> (value: u32)
    ensures
        value == b0 * 0x100_0000 + b1 * 0x1_0000 + b2 * 0x100 + b3,
{
    let high = join_u16(b0, b1);
    let low = join_u16(b2, b3);
    assert(((high as u32) << 16) | (low as u32) == high * 0x1_0000 + low) by (bit_vector);
    ((high as u32) << 16) | (low as u32)
}

/// The 64-bit number whose bytes are these, the first counting most.
fn join_u64(b0: u8, b1: u8, b2: u8, b3: u8, b4: u8, b5: u8, b6: u8, b7: u8) -> (value: u64)
    ensures
        value == b0 * 0x100_0000_0000_0000 + b1 * 0x1_0000_0000_0000 + b2 * 0x100_0000_0000 + b3
            * 0x1_0000_0000 + b4 * 0x100_0000 + b5 * 0x1_0000 + b6 * 0x100 + b7,
{
    let high = join_u32(b0, b1, b2, b3);
    let low = join_u32(b4, b5, b6, b7);
    assert(((high as u64) << 32) | (low as u64) == high * 0x1_0000_0000 + low) by (bit_vector);
    ((high as u64) << 32) | (low as u64)
}

/// A byte order, as a value that a reader carries along.
///
/// A byte order is either big-endian or little-endian, and says which
/// number a group of two, four or eight bytes spells.
pub trait Endianity: Debug + Clone + Copy + PartialEq + Eq + Send + Sync {
    /// Whether the first byte of a group counts most.
    spec fn spec_is_big_endian(self) -> bool;

    /// Return true for big endian byte order.
    fn is_big_endian(self) -> (big: bool)
        ensures
            big == self.spec_is_big_endian(),
    ;

    /// Return true for little endian byte order.
    fn is_little_endian(self) -> (little: bool)
        ensures
            little == !self.spec_is_big_endian(),
    {
        !self.is_big_endian()
    }

    /// Reads an unsigned 16 bit integer from the first two bytes of `buf`.
    fn read_u16(self, buf: &[u8]) -> (value: u16)
        requires
            buf@.len() >= 2,
        ensures
            value == unsigned_value(self.spec_is_big_endian(), buf@.take(2)),
    {
        proof {
            lemma_value_of_two(self.spec_is_big_endian(), buf@.take(2));
        }
        if self.is_big_endian() {
            join_u16(buf[0], buf[1])
        } else {
            join_u16(buf[1], buf[0])
        }
    }

    /// Reads an unsigned 32 bit integer from the first four bytes of `buf`.
    fn read_u32(self, buf: &[u8]) -> (value: u32)
        requires
            buf@.len() >= 4,
        ensures
            value == unsigned_value(self.spec_is_big_endian(), buf@.take(4)),
    {
        proof {
            lemma_value_of_four(self.spec_is_big_endian(), buf@.take(4));
        }
        if self.is_big_endian() {
            join_u32(buf[0], buf[1], buf[2], buf[3])
        } else {
            join_u32(buf[3], buf[2], buf[1], buf[0])
        }
    }

    /// Reads an unsigned 64 bit integer from the first eight bytes of `buf`.
    fn read_u64(self, buf: &[u8]) -> (value: u64)
        requires
            buf@.len() >= 8,
        ensures
            value == unsigned_value(self.spec_is_big_endian(), buf@.take(8)),
    {
        proof {
            lemma_value_of_eight(self.spec_is_big_endian(), buf@.take(8));
        }
        if self.is_big_endian() {
            join_u64(buf[0], buf[1], buf[2], buf[3], buf[4], buf[5], buf[6], buf[7])
        } else {
            join_u64(buf[7], buf[6], buf[5], buf[4], buf[3], buf[2], buf[1], buf[0])
        }
    }

    /// Reads a signed 16 bit integer from the first two bytes of `buf`.
    fn read_i16(self, buf: &[u8]) -> (value: i16)
        requires
            buf@.len() >= 2,
        ensures
            value == signed_value(self.spec_is_big_endian(), buf@.take(2)),
    {
        let unsigned = self.read_u16(buf);
        proof {
            lemma2_to64();
            assert(unsigned < 0x8000 ==> unsigned as i16 == unsigned) by (bit_vector);
            assert(unsigned >= 0x8000 ==> unsigned as i16 == unsigned - 0x1_0000) by (bit_vector);
        }
        #[verifier::truncate]
        (unsigned as i16)
    }

    /// Reads a signed 32 bit integer from the first four bytes of `buf`.
    fn read_i32(self, buf: &[u8]) -> (value: i32)
        requires
            buf@.len() >= 4,
        ensures
            value == signed_value(self.spec_is_big_endian(), buf@.take(4)),
    {
        let unsigned = self.read_u32(buf);
        proof {
            lemma2_to64();
            assert(unsigned < 0x8000_0000 ==> unsigned as i32 == unsigned) by (bit_vector);
            assert(unsigned >= 0x8000_0000 ==> unsigned as i32 == unsigned - 0x1_0000_0000)
                by (bit_vector);
        }
        #[verifier::truncate]
        (unsigned as i32)
    }

    /// Reads a signed 64 bit integer from the first eight bytes of `buf`.
    fn read_i64(self, buf: &[u8]) -> (value: i64)
        requires
            buf@.len() >= 8,
        ensures
            value == signed_value(self.spec_is_big_endian(), buf@.take(8)),
    {
        let unsigned = self.read_u64(buf);
        proof {
            lemma2_to64();
            assert(unsigned < 0x8000_0000_0000_0000 ==> unsigned as i64 == unsigned)
                by (bit_vector);
            assert(unsigned >= 0x8000_0000_0000_0000 ==> unsigned as i64 == unsigned
                - 0x1_0000_0000_0000_0000) by (bit_vector);
        }
        #[verifier::truncate]
        (unsigned as i64)
    }
}

/// Byte order that is selectable at run time.
#[derive(Debug, Clone, Copy, PartialEq, Eq, Hash, Structural)]
pub enum RunTimeEndian {
    /// Little endian byte order.
    Little,
    /// Big endian byte order.
    Big,
}

impl Endianity for RunTimeEndian {
    open spec fn spec_is_big_endian(self) -> bool {
        self == RunTimeEndian::Big
    }

    #[inline]
    fn is_big_endian(self) -> bool {
        self == RunTimeEndian::Big
    }
}

/// Little endian byte order.
#[derive(Debug, Clone, Copy, PartialEq, Eq, Hash, Structural)]
pub struct LittleEndian;

impl Endianity for LittleEndian {
    open spec fn spec_is_big_endian(self) -> bool {
        false
    }

    #[inline]
    fn is_big_endian(self) -> bool {
        false
    }
}

/// Big endian byte order.
#[derive(Debug, Clone, Copy, PartialEq, Eq, Hash, Structural)]
pub struct BigEndian;

impl Endianity for BigEndian {
    open spec fn spec_is_big_endian(self) -> bool {
        true
    }

    #[inline]
    fn is_big_endian(self) -> bool {
        true
    }
}

} // verus!
