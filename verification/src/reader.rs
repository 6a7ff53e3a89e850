//! Offsets into a section, and the cursor that reads a section's bytes.

use crate::endianity::{signed_value, unsigned_value, Endianity};
use crate::error::Error;
use crate::format::Format;
use crate::leb128;
use crate::text::replaced_text;
use core::fmt::Debug;
use core::ops::{Add, Sub};
use std::borrow::Cow;
use vstd::arithmetic::power2::{
    lemma2_to64, lemma2_to64_rest, lemma_pow2_adds, lemma_pow2_strictly_increases, pow2,
};
use vstd::prelude::*;
use vstd::std_specs::cmp::{
    OrdSpec, PartialEqIs, PartialEqSpec, PartialOrdIs, PartialOrdSpec,
};
use vstd::std_specs::ops::{AddSpec, SubSpec};
use vstd::utf8::{decode_utf8, valid_utf8};

verus! {

/// An unsigned integer type that can hold every position and length within
/// a section.
///
/// Choosing the type chooses the size of the address space: `u32`, `u64`
/// and `usize` are offsets. An offset stands for the natural number
/// [`value`](ReaderOffset::value), and the offsets of one type stand for
/// exactly the numbers up to [`max_value`](ReaderOffset::max_value).
pub trait ReaderOffset: Debug + Copy + Eq + Ord + Add<Output = Self> + Sub<Output = Self> {
    /// The number that this offset stands for.
    spec fn value(self) -> nat;

    /// The largest number that an offset of this type can stand for.
    spec fn max_value() -> nat;

    /// The offset that stands for `value`, where there is one.
    spec fn from_value(value: nat) -> Self;

    /// The type is at least 32 and at most 64 bits wide.
    proof fn lemma_max_value()
        ensures
            u32::MAX <= Self::max_value() <= u64::MAX,
    ;

    /// Every offset stands for a number in range, and for no other offset's
    /// number.
    proof fn lemma_value(self)
        ensures
            self.value() <= Self::max_value(),
            Self::from_value(self.value()) == self,
    ;

    /// Every number in range has its offset.
    proof fn lemma_from_value(value: nat)
        requires
            value <= Self::max_value(),
        ensures
            Self::from_value(value).value() == value,
    ;

    /// Offsets compare as the numbers that they stand for: `==`, `<`, `<=`,
    /// `>` and `>=` on offsets say what they say on the numbers, and the
    /// total order is that same order.
    proof fn lemma_order(self, other: Self)
        ensures
            Self::obeys_eq_spec(),
            Self::obeys_partial_cmp_spec(),
            Self::obeys_cmp_spec(),
            self.partial_cmp_spec(&other) == Some(self.cmp_spec(&other)),
            self.is_eq(&other) <==> self.value() == other.value(),
            self.is_lt(&other) <==> self.value() < other.value(),
            self.is_le(&other) <==> self.value() <= other.value(),
            self.is_gt(&other) <==> self.value() > other.value(),
            self.is_ge(&other) <==> self.value() >= other.value(),
    ;

    /// Ordinary addition, `self + other`, is defined where the sum is in
    /// range, and is then the offset that stands for the sum.
    proof fn lemma_add(self, other: Self)
        ensures
            Self::obeys_add_spec(),
            self.value() + other.value() <= Self::max_value() ==> self.add_req(other)
                && self.add_spec(other).value() == self.value() + other.value(),
    ;

    /// Ordinary subtraction, `self - other`, is defined where `other` is
    /// not the larger, and is then the offset that stands for the
    /// difference.
    proof fn lemma_sub(self, other: Self)
        ensures
            Self::obeys_sub_spec(),
            self.value() >= other.value() ==> self.sub_req(other) && self.sub_spec(other).value()
                == self.value() - other.value(),
    ;

    /// Convert a u8 to an offset.
    fn from_u8(offset: u8) -> (r: Self)
        ensures
            r.value() == offset,
    ;

    /// Convert a u16 to an offset.
    fn from_u16(offset: u16) -> (r: Self)
        ensures
            r.value() == offset,
    ;

    /// Convert an i16 to an offset. A negative number wraps around, as in a
    /// cast to an unsigned type: it lands as far below the type's number of
    /// values as it lies below zero.
    fn from_i16(offset: i16) -> (r: Self)
        ensures
            offset >= 0 ==> r.value() == offset,
            offset < 0 ==> r.value() == Self::max_value() + 1 + offset,
    ;

    /// Convert a u32 to an offset.
    fn from_u32(offset: u32) -> (r: Self)
        ensures
            r.value() == offset,
    ;

    /// Convert a u64 to an offset.
    ///
    /// Returns `Error::UnsupportedOffset` if the value is too large.
    fn from_u64(offset: u64) -> (r: Result<Self, Error>)
        ensures
            offset <= Self::max_value() ==> (r matches Ok(made) && made == Self::from_value(
                offset as nat,
            ) && made.value() == offset),
            offset > Self::max_value() ==> r == Err::<Self, Error>(Error::UnsupportedOffset),
    ;

    /// Convert an offset to a u64.
    fn into_u64(self) -> (r: u64)
        ensures
            r == self.value(),
    ;

    /// Wrapping (modular) addition. Computes `self + other`: the sum, less
    /// the type's number of values where the sum is out of range.
    fn wrapping_add(self, other: Self) -> (r: Self)
        ensures
            self.value() + other.value() <= Self::max_value() ==> r.value() == self.value()
                + other.value(),
            self.value() + other.value() > Self::max_value() ==> r.value() == self.value()
                + other.value() - (Self::max_value() + 1),
    ;

    /// Checked subtraction. Computes `self - other`, and returns `None`
    /// where `other` is the larger.
    fn checked_sub(self, other: Self) -> (r: Option<Self>)
        ensures
            self.value() >= other.value() ==> (r matches Some(difference) && difference.value()
                == self.value() - other.value()),
            self.value() < other.value() ==> r.is_none(),
    ;
}

/// An offset can be made of a 64-bit value exactly when the value is no
/// larger than the type's largest, and the offset that is made stands for
/// that value: turned into a `u64` again, it is the value.
pub proof fn lemma_from_u64_into_u64<O: ReaderOffset>(value: u64)
    ensures
        value <= O::max_value() ==> O::from_value(value as nat).value() == value,
        value > O::max_value() ==> forall|offset: O| offset.value() != value,
{
    if value <= O::max_value() {
        O::lemma_from_value(value as nat);
    } else {
        assert forall|offset: O| offset.value() != value by {
            offset.lemma_value();
        }
    }
}

impl ReaderOffset for u64 {
    open spec fn value(self) -> nat {
        self as nat
    }

    open spec fn max_value() -> nat {
        u64::MAX as nat
    }

    open spec fn from_value(value: nat) -> Self {
        value as u64
    }

    proof fn lemma_max_value() {
    }

    proof fn lemma_value(self) {
    }

    proof fn lemma_from_value(value: nat) {
    }

    proof fn lemma_order(self, other: Self) {
    }

    proof fn lemma_add(self, other: Self) {
    }

    proof fn lemma_sub(self, other: Self) {
    }

    #[inline]
    fn from_u8(offset: u8) -> Self {
        offset as u64
    }

    #[inline]
    fn from_u16(offset: u16) -> Self {
        offset as u64
    }

    #[inline]
    fn from_i16(offset: i16) -> Self {
        assert(offset >= 0 ==> offset as u64 == offset) by (bit_vector);
        assert(offset < 0 ==> offset as u64 == 0x1_0000_0000_0000_0000 + offset) by (bit_vector);
        #[verifier::truncate]
        (offset as u64)
    }

    #[inline]
    fn from_u32(offset: u32) -> Self {
        offset as u64
    }

    #[inline]
    fn from_u64(offset: u64) -> Result<Self, Error> {
        Ok(offset)
    }

    #[inline]
    fn into_u64(self) -> u64 {
        self
    }

    #[inline]
    fn wrapping_add(self, other: Self) -> Self {
        self.wrapping_add(other)
    }

    #[inline]
    fn checked_sub(self, other: Self) -> Option<Self> {
        self.checked_sub(other)
    }
}

impl ReaderOffset for u32 {
    open spec fn value(self) -> nat {
        self as nat
    }

    open spec fn max_value() -> nat {
        u32::MAX as nat
    }

    open spec fn from_value(value: nat) -> Self {
        value as u32
    }

    proof fn lemma_max_value() {
    }

    proof fn lemma_value(self) {
    }

    proof fn lemma_from_value(value: nat) {
    }

    proof fn lemma_order(self, other: Self) {
    }

    proof fn lemma_add(self, other: Self) {
    }

    proof fn lemma_sub(self, other: Self) {
    }

    #[inline]
    fn from_u8(offset: u8) -> Self {
        offset as u32
    }

    #[inline]
    fn from_u16(offset: u16) -> Self {
        offset as u32
    }

    #[inline]
    fn from_i16(offset: i16) -> Self {
        assert(offset >= 0 ==> offset as u32 == offset) by (bit_vector);
        assert(offset < 0 ==> offset as u32 == 0x1_0000_0000 + offset) by (bit_vector);
        #[verifier::truncate]
        (offset as u32)
    }

    #[inline]
    fn from_u32(offset: u32) -> Self {
        offset
    }

    #[inline]
    fn from_u64(offset64: u64) -> Result<Self, Error> {
        if offset64 <= u32::MAX as u64 {
            Ok(offset64 as u32)
        } else {
            Err(Error::UnsupportedOffset)
        }
    }

    #[inline]
    fn into_u64(self) -> u64 {
        self as u64
    }

    #[inline]
    fn wrapping_add(self, other: Self) -> Self {
        self.wrapping_add(other)
    }

    #[inline]
    fn checked_sub(self, other: Self) -> Option<Self> {
        self.checked_sub(other)
    }
}

impl ReaderOffset for usize {
    open spec fn value(self) -> nat {
        self as nat
    }

    open spec fn max_value() -> nat {
        usize::MAX as nat
    }

    open spec fn from_value(value: nat) -> Self {
        value as usize
    }

    proof fn lemma_max_value() {
    }

    proof fn lemma_value(self) {
    }

    proof fn lemma_from_value(value: nat) {
    }

    proof fn lemma_order(self, other: Self) {
    }

    proof fn lemma_add(self, other: Self) {
    }

    proof fn lemma_sub(self, other: Self) {
    }

    #[inline]
    fn from_u8(offset: u8) -> Self {
        offset as usize
    }

    #[inline]
    fn from_u16(offset: u16) -> Self {
        offset as usize
    }

    #[inline]
    fn from_i16(offset: i16) -> Self {
        if offset >= 0 {
            offset as usize
        } else {
            usize::MAX - (-(offset + 1)) as usize
        }
    }

    #[inline]
    fn from_u32(offset: u32) -> Self {
        offset as usize
    }

    #[inline]
    fn from_u64(offset64: u64) -> Result<Self, Error> {
        if offset64 <= usize::MAX as u64 {
            Ok(offset64 as usize)
        } else {
            Err(Error::UnsupportedOffset)
        }
    }

    #[inline]
    fn into_u64(self) -> u64 {
        self as u64
    }

    #[inline]
    fn wrapping_add(self, other: Self) -> Self {
        self.wrapping_add(other)
    }

    #[inline]
    fn checked_sub(self, other: Self) -> Option<Self> {
        self.checked_sub(other)
    }
}

/// What a reader is to its callers: a run of bytes within a section, and
/// the byte order in which to read them.
pub struct ReaderView {
    /// The bytes of the whole section that the reader was made over.
    pub section: Seq<u8>,
    /// Where in the section the reader's first byte lies.
    pub position: nat,
    /// The bytes that the reader has yet to read.
    pub bytes: Seq<u8>,
    /// Whether groups of bytes are read with the first byte counting most.
    pub big_endian: bool,
}

impl ReaderView {
    /// The number of bytes that remain.
    pub open spec fn len(self) -> nat {
        self.bytes.len()
    }

    /// Whether the remaining bytes are the section's bytes from `position`
    /// on.
    pub open spec fn well_formed(self) -> bool {
        &&& self.position + self.bytes.len() <= self.section.len()
        &&& self.bytes == self.section.subrange(
            self.position as int,
            self.position + self.bytes.len() as int,
        )
    }

    /// The reader once it has read `count` bytes.
    pub open spec fn advance(self, count: nat) -> ReaderView {
        ReaderView {
            position: self.position + count,
            bytes: self.bytes.skip(count as int),
            ..self
        }
    }

    /// The reader cut back to its next `count` bytes.
    pub open spec fn truncate(self, count: nat) -> ReaderView {
        ReaderView { bytes: self.bytes.take(count as int), ..self }
    }

    /// Whether `inner` reads a part of what this reader reads: the same
    /// section, and no byte before this reader's first or after its last.
    pub open spec fn contains(self, inner: ReaderView) -> bool {
        &&& inner.section == self.section
        &&& self.position <= inner.position
        &&& inner.position + inner.bytes.len() <= self.position + self.bytes.len()
    }

    /// Reading `first` bytes and then `second` bytes is reading them all at
    /// once.
    pub proof fn lemma_advance_twice(self, first: nat, second: nat)
        requires
            first + second <= self.len(),
        ensures
            self.advance(first).advance(second) == self.advance(first + second),
    {
        assert(self.bytes.skip(first as int).skip(second as int) =~= self.bytes.skip(
            (first + second) as int,
        ));
    }

    /// The next `count` bytes and the bytes after them are the reader's
    /// bytes, none lost and none twice.
    pub proof fn lemma_split(self, count: nat)
        requires
            count <= self.len(),
        ensures
            self.truncate(count).len() == count,
            self.advance(count).len() == self.len() - count,
            self.truncate(count).bytes + self.advance(count).bytes == self.bytes,
    {
        assert(self.bytes.take(count as int) + self.bytes.skip(count as int) =~= self.bytes);
    }

    /// A well-formed reader stays so when it reads on, and when it is cut
    /// back.
    pub proof fn lemma_well_formed(self, count: nat)
        requires
            self.well_formed(),
            count <= self.len(),
        ensures
            self.advance(count).well_formed(),
            self.truncate(count).well_formed(),
    {
        assert(self.advance(count).bytes =~= self.section.subrange(
            (self.position + count) as int,
            self.position + self.bytes.len() as int,
        ));
        assert(self.truncate(count).bytes =~= self.section.subrange(
            self.position as int,
            (self.position + count) as int,
        ));
    }

    /// The unsigned number that the next `size` bytes spell.
    pub open spec fn unsigned(self, size: nat) -> nat {
        unsigned_value(self.big_endian, self.bytes.take(size as int))
    }

    /// The two's-complement number that the next `size` bytes spell.
    pub open spec fn signed(self, size: nat) -> int {
        signed_value(self.big_endian, self.bytes.take(size as int))
    }
}

/// Whether `index` is where `byte` first occurs in `bytes`.
pub open spec fn first_occurrence(bytes: Seq<u8>, byte: u8, index: nat) -> bool {
    &&& index < bytes.len()
    &&& bytes[index as int] == byte
    &&& forall|earlier: int| 0 <= earlier < index ==> bytes[earlier] != byte
}

/// A cursor over the bytes of a section.
///
/// A reader stands for a [`ReaderView`]. All read operations advance the
/// reader past the bytes they have read, unless specified otherwise, and a
/// read that fails for want of bytes leaves the reader as it was.
pub trait Reader: Debug + Clone + Send + Sync {
    /// The endianity of bytes that are read.
    type Endian: Endianity;

    /// The type used for offsets and lengths.
    type Offset: ReaderOffset;

    /// What the reader stands for.
    spec fn view(&self) -> ReaderView;

    /// A clone of a reader stands for what the reader stands for: the same
    /// bytes of the same section, which are not copied.
    proof fn lemma_clone(&self, copy: &Self)
        requires
            cloned(*self, *copy),
        ensures
            copy@ == self@,
    ;

    /// Return the endianity of bytes that are read.
    fn endian(&self) -> (endian: Self::Endian)
        ensures
            endian.spec_is_big_endian() == self@.big_endian,
    ;

    /// Return the number of bytes remaining.
    fn len(&self) -> (len: Self::Offset)
        ensures
            len.value() == self@.len(),
    ;

    /// Return true if the number of bytes remaining is zero.
    fn is_empty(&self) -> (empty: bool)
        ensures
            empty == (self@.len() == 0),
    ;

    /// Set the number of bytes remaining to zero.
    fn empty(&mut self)
        ensures
            final(self)@ == old(self)@.truncate(0),
    ;

    /// Set the number of bytes remaining to the specified length.
    ///
    /// Fails with `Error::OutOfBounds` if fewer bytes remain.
    fn truncate(&mut self, len: Self::Offset) -> (r: Result<(), Error>)
        ensures
            len.value() <= old(self)@.len() ==> r is Ok && final(self)@ == old(self)@.truncate(
                len.value(),
            ),
            len.value() > old(self)@.len() ==> r == Err::<(), Error>(Error::OutOfBounds)
                && final(self)@ == old(self)@,
    ;

    /// Return the offset of this reader's data relative to the start of
    /// the given base reader's data.
    ///
    /// This reader's data must lie within the given base reader's data.
    fn offset_from(&self, base: &Self) -> (offset: Self::Offset)
        requires
            base@.contains(self@),
        ensures
            offset.value() == self@.position - base@.position,
    ;

    /// Find the index of the first occurrence of the given byte.
    /// The offset of the reader is not changed.
    ///
    /// Fails with `Error::UnexpectedEof` if the byte does not occur.
    fn find(&self, byte: u8) -> (r: Result<Self::Offset, Error>)
        ensures
            match r {
                Ok(index) => first_occurrence(self@.bytes, byte, index.value()),
                Err(e) => e == Error::UnexpectedEof && !self@.bytes.contains(byte),
            },
    ;

    /// Discard the specified number of bytes.
    ///
    /// Fails with `Error::OutOfBounds` if fewer bytes remain.
    fn skip(&mut self, len: Self::Offset) -> (r: Result<(), Error>)
        ensures
            len.value() <= old(self)@.len() ==> r is Ok && final(self)@ == old(self)@.advance(
                len.value(),
            ),
            len.value() > old(self)@.len() ==> r == Err::<(), Error>(Error::OutOfBounds)
                && final(self)@ == old(self)@,
    ;

    /// Split a reader in two.
    ///
    /// A new reader is returned that can be used to read the next
    /// `len` bytes, and `self` is advanced so that it reads the remainder.
    /// The two together hold the bytes that `self` held, in order.
    ///
    /// Fails with `Error::OutOfBounds` if fewer bytes remain.
    fn split(&mut self, len: Self::Offset) -> (r: Result<Self, Error>)
        ensures
            len.value() <= old(self)@.len() ==> (r matches Ok(part) && part@ == old(
                self,
            )@.truncate(len.value()) && final(self)@ == old(self)@.advance(len.value())
                && part@.bytes + final(self)@.bytes == old(self)@.bytes && final(self)@.len()
                == old(self)@.len() - len.value()),
            len.value() > old(self)@.len() ==> (r matches Err(e) && e == Error::OutOfBounds
                && final(self)@ == old(self)@),
    ;

    /// Return all remaining data as a clone-on-write slice.
    ///
    /// The slice will be borrowed where possible, but some readers may
    /// always return an owned vector.
    ///
    /// Does not advance the reader.
    fn to_slice(&self) -> (r: Result<Cow<'_, [u8]>, Error>)
        ensures
            r matches Ok(slice) && slice@ == self@.bytes,
    ;

    /// Convert all remaining data to a clone-on-write string.
    ///
    /// The string will be borrowed where possible, but some readers may
    /// always return an owned string.
    ///
    /// Does not advance the reader.
    ///
    /// Fails with `Error::BadUtf8` if the data is not valid UTF-8.
    fn to_string(&self) -> (r: Result<Cow<'_, str>, Error>)
        ensures
            valid_utf8(self@.bytes) ==> (r matches Ok(text) && text@ == decode_utf8(self@.bytes)),
            !valid_utf8(self@.bytes) ==> (r matches Err(e) && e == Error::BadUtf8),
    ;

    /// Convert all remaining data to a clone-on-write string, including
    /// invalid characters.
    ///
    /// The string will be borrowed where possible, but some readers may
    /// always return an owned string.
    ///
    /// Does not advance the reader.
    fn to_string_lossy(&self) -> (r: Result<Cow<'_, str>, Error>)
        ensures
            r is Ok,
            valid_utf8(self@.bytes) ==> (r matches Ok(text) && text@ == decode_utf8(self@.bytes)),
            !valid_utf8(self@.bytes) ==> (r matches Ok(text) && text@ == replaced_text(
                self@.bytes,
            )),
    ;

    /// Read a u8 array.
    fn read_u8_array<const N: usize>(&mut self) -> (r: Result<[u8; N], Error>)
        ensures
            N <= old(self)@.len() ==> (r matches Ok(array) && array@ == old(self)@.bytes.take(
                N as int,
            ) && final(self)@ == old(self)@.advance(N as nat)),
            N > old(self)@.len() ==> (r matches Err(e) && e == Error::UnexpectedEof && final(self)@
                == old(self)@),
    ;

    /// Read a u8.
    fn read_u8(&mut self) -> (r: Result<u8, Error>)
        ensures
            1 <= old(self)@.len() ==> (r matches Ok(value) && value == old(self)@.bytes[0]
                && value == old(self)@.unsigned(1) && final(self)@ == old(self)@.advance(1)),
            1 > old(self)@.len() ==> r == Err::<u8, Error>(Error::UnexpectedEof) && final(self)@
                == old(self)@,
    ;

    /// Read an i8.
    fn read_i8(&mut self) -> (r: Result<i8, Error>)
        ensures
            1 <= old(self)@.len() ==> (r matches Ok(value) && value == old(self)@.signed(1)
                && final(self)@ == old(self)@.advance(1)),
            1 > old(self)@.len() ==> r == Err::<i8, Error>(Error::UnexpectedEof) && final(self)@
                == old(self)@,
    ;

    /// Read a u16.
    fn read_u16(&mut self) -> (r: Result<u16, Error>)
        ensures
            2 <= old(self)@.len() ==> (r matches Ok(value) && value == old(self)@.unsigned(2)
                && final(self)@ == old(self)@.advance(2)),
            2 > old(self)@.len() ==> r == Err::<u16, Error>(Error::UnexpectedEof) && final(self)@
                == old(self)@,
    ;

    /// Read an i16.
    fn read_i16(&mut self) -> (r: Result<i16, Error>)
        ensures
            2 <= old(self)@.len() ==> (r matches Ok(value) && value == old(self)@.signed(2)
                && final(self)@ == old(self)@.advance(2)),
            2 > old(self)@.len() ==> r == Err::<i16, Error>(Error::UnexpectedEof) && final(self)@
                == old(self)@,
    ;

    /// Read a u32.
    fn read_u32(&mut self) -> (r: Result<u32, Error>)
        ensures
            4 <= old(self)@.len() ==> (r matches Ok(value) && value == old(self)@.unsigned(4)
                && final(self)@ == old(self)@.advance(4)),
            4 > old(self)@.len() ==> r == Err::<u32, Error>(Error::UnexpectedEof) && final(self)@
                == old(self)@,
    ;

    /// Read an i32.
    fn read_i32(&mut self) -> (r: Result<i32, Error>)
        ensures
            4 <= old(self)@.len() ==> (r matches Ok(value) && value == old(self)@.signed(4)
                && final(self)@ == old(self)@.advance(4)),
            4 > old(self)@.len() ==> r == Err::<i32, Error>(Error::UnexpectedEof) && final(self)@
                == old(self)@,
    ;

    /// Read a u64.
    fn read_u64(&mut self) -> (r: Result<u64, Error>)
        ensures
            8 <= old(self)@.len() ==> (r matches Ok(value) && value == old(self)@.unsigned(8)
                && final(self)@ == old(self)@.advance(8)),
            8 > old(self)@.len() ==> r == Err::<u64, Error>(Error::UnexpectedEof) && final(self)@
                == old(self)@,
    ;

    /// Read an i64.
    fn read_i64(&mut self) -> (r: Result<i64, Error>)
        ensures
            8 <= old(self)@.len() ==> (r matches Ok(value) && value == old(self)@.signed(8)
                && final(self)@ == old(self)@.advance(8)),
            8 > old(self)@.len() ==> r == Err::<i64, Error>(Error::UnexpectedEof) && final(self)@
                == old(self)@,
    ;

    /// Read a null-terminated slice, and return it (excluding the null).
    ///
    /// Fails with `Error::UnexpectedEof`, and reads nothing, if no null
    /// byte remains.
    fn read_null_terminated_slice(&mut self) -> (r: Result<Self, Error>)
        ensures
            match r {
                Ok(part) => {
                    &&& first_occurrence(old(self)@.bytes, 0, part@.len())
                    &&& part@ == old(self)@.truncate(part@.len())
                    &&& final(self)@ == old(self)@.advance(part@.len() + 1)
                },
                Err(e) => {
                    &&& e == Error::UnexpectedEof
                    &&& !old(self)@.bytes.contains(0u8)
                    &&& final(self)@ == old(self)@
                },
            },
            forall|index: nat| #[trigger]
                first_occurrence(old(self)@.bytes, 0, index) ==> (r matches Ok(part) && part@
                    == old(self)@.truncate(index) && final(self)@ == old(self)@.advance(
                    index + 1,
                )),
    {
        let idx = self.find(0)?;
        let val = self.split(idx)?;
        proof {
            old(self)@.lemma_advance_twice(idx.value(), 1);
        }
        self.skip(Self::Offset::from_u8(1))?;
        Ok(val)
    }

    /// Read an unsigned LEB128 encoded integer.
    ///
    /// Fails with `Error::UnexpectedEof` if the bytes end before the number
    /// does, and with `Error::BadUnsignedLeb128` if the number does not end
    /// within ten bytes or does not fit in 64 bits. The bytes that were
    /// looked at are read in either case.
    fn read_uleb128(&mut self) -> (r: Result<u64, Error>)
        ensures
            r == leb128::unsigned_result(old(self)@.bytes),
            final(self)@ == old(self)@.advance(leb128::consumed(old(self)@.bytes)),
    {
        let ghost start = self@;
        let ghost bytes = self@.bytes;
        let ghost mut count: nat = 0;
        let mut result: u64 = 0;
        let mut shift: u32 = 0;
        assert(start.advance(0) == start) by {
            assert(start.bytes.skip(0) =~= start.bytes);
        }
        loop
            invariant
                count <= 9,
                shift == 7 * count,
                count <= bytes.len(),
                start == old(self)@,
                bytes == start.bytes,
                self@ == start.advance(count),
                result == leb128::payload_value(bytes, count),
                forall|i: int| 0 <= i < count ==> leb128::continues(#[trigger] bytes[i]),
            decreases 70 - shift,
        {
            proof {
                leb128::lemma_continuation_run(bytes, count);
                leb128::lemma_payload_value_bound(bytes, count);
                leb128::lemma_payload_value_bound(bytes, count + 1);
                lemma2_to64();
                lemma2_to64_rest();
                if count < 9 {
                    if count < 8 {
                        lemma_pow2_strictly_increases(7 * (count + 1), 63);
                    }
                } else {
                    lemma_pow2_adds(63, 7);
                }
                if count < bytes.len() {
                    start.lemma_advance_twice(count, 1);
                }
            }
            let byte = self.read_u8()?;
            assert(byte == bytes[count as int]);
            let low = leb128::low_bits_of_byte(byte);
            let more = leb128::has_continuation(byte);
            if shift == 63 && byte != 0x00 && byte != 0x01 {
                proof {
                    if more {
                        leb128::lemma_continuation_run(bytes, count + 1);
                    } else {
                        assert(low * pow2(63) >= 2 * pow2(63)) by (nonlinear_arith)
                            requires
                                low >= 2,
                        ;
                    }
                }
                return Err(Error::BadUnsignedLeb128);
            }
            proof {
                if shift == 63 {
                    assert(low * pow2(63) <= pow2(63)) by (nonlinear_arith)
                        requires
                            low <= 1,
                    ;
                }
            }
            result = leb128::with_payload(result, shift, low);
            if !more {
                return Ok(result);
            }
            shift += 7;
            proof {
                count = count + 1;
            }
        }
    }

    /// Read a signed LEB128 encoded integer.
    ///
    /// Fails with `Error::UnexpectedEof` if the bytes end before the number
    /// does, and with `Error::BadSignedLeb128` if the number does not end
    /// within ten bytes or does not fit in 64 bits. The bytes that were
    /// looked at are read in either case.
    fn read_sleb128(&mut self) -> (r: Result<i64, Error>)
        ensures
            r == leb128::signed_result(old(self)@.bytes),
            final(self)@ == old(self)@.advance(leb128::consumed(old(self)@.bytes)),
    {
        let ghost start = self@;
        let ghost bytes = self@.bytes;
        let ghost mut count: nat = 0;
        let mut result: u64 = 0;
        let mut shift: u32 = 0;
        assert(start.advance(0) == start) by {
            assert(start.bytes.skip(0) =~= start.bytes);
        }
        loop
            invariant
                count <= 9,
                shift == 7 * count,
                count <= bytes.len(),
                start == old(self)@,
                bytes == start.bytes,
                self@ == start.advance(count),
                result == leb128::payload_value(bytes, count),
                forall|i: int| 0 <= i < count ==> leb128::continues(#[trigger] bytes[i]),
            decreases 70 - shift,
        {
            proof {
                leb128::lemma_continuation_run(bytes, count);
                leb128::lemma_payload_value_bound(bytes, count);
                leb128::lemma_payload_value_bound(bytes, count + 1);
                lemma2_to64();
                lemma2_to64_rest();
                if count < 9 {
                    if count < 8 {
                        lemma_pow2_strictly_increases(7 * (count + 1), 63);
                    }
                } else {
                    lemma_pow2_adds(63, 7);
                }
                if count < bytes.len() {
                    start.lemma_advance_twice(count, 1);
                }
            }
            let byte = self.read_u8()?;
            assert(byte == bytes[count as int]);
            let low = leb128::low_bits_of_byte(byte);
            let more = leb128::has_continuation(byte);
            if shift == 63 && byte != 0x00 && byte != 0x7f {
                proof {
                    if more {
                        leb128::lemma_continuation_run(bytes, count + 1);
                    } else {
                        assert(low >= 0x40 ==> low * pow2(63) <= 126 * pow2(63))
                            by (nonlinear_arith)
                            requires
                                low <= 126,
                        ;
                        assert(low * pow2(63) >= pow2(63)) by (nonlinear_arith)
                            requires
                                low >= 1,
                        ;
                    }
                }
                return Err(Error::BadSignedLeb128);
            }
            if !more {
                return Ok(leb128::signed_from(result, shift, low));
            }
            result = leb128::with_payload(result, shift, low);
            shift += 7;
            proof {
                count = count + 1;
            }
        }
    }

    /// Read an address-sized integer, and return it as a `u64`.
    ///
    /// An address is 1, 2, 4 or 8 bytes long and is read as `read_u8`,
    /// `read_u16`, `read_u32` or `read_u64` reads. Any other size fails with
    /// `Error::UnsupportedAddressSize`, and nothing is read.
    fn read_address(&mut self, address_size: u8) -> (r: Result<u64, Error>)
        ensures
            address_size == 1 || address_size == 2 || address_size == 4 || address_size == 8 ==> {
                &&& address_size <= old(self)@.len() ==> (r matches Ok(value) && value == old(
                    self,
                )@.unsigned(address_size as nat) && final(self)@ == old(self)@.advance(
                    address_size as nat,
                ))
                &&& address_size > old(self)@.len() ==> r == Err::<u64, Error>(
                    Error::UnexpectedEof,
                ) && final(self)@ == old(self)@
            },
            address_size != 1 && address_size != 2 && address_size != 4 && address_size != 8 ==> r
                == Err::<u64, Error>(Error::UnsupportedAddressSize(address_size)) && final(self)@
                == old(self)@,
    {
        match address_size {
            1 => match self.read_u8() {
                Ok(v) => Ok(v as u64),
                Err(e) => Err(e),
            },
            2 => match self.read_u16() {
                Ok(v) => Ok(v as u64),
                Err(e) => Err(e),
            },
            4 => match self.read_u32() {
                Ok(v) => Ok(v as u64),
                Err(e) => Err(e),
            },
            8 => self.read_u64(),
            otherwise => Err(Error::UnsupportedAddressSize(otherwise)),
        }
    }

    /// Parse a word-sized integer according to the format, and return it
    /// as a `u64`.
    ///
    /// A word is read as `read_u32` reads in the 32-bit format, and as
    /// `read_u64` reads in the 64-bit format.
    fn read_word(&mut self, format: Format) -> (r: Result<u64, Error>)
        ensures
            format.word_size() <= old(self)@.len() ==> (r matches Ok(value) && value == old(
                self,
            )@.unsigned(format.word_size() as nat) && final(self)@ == old(self)@.advance(
                format.word_size() as nat,
            )),
            format.word_size() > old(self)@.len() ==> r == Err::<u64, Error>(Error::UnexpectedEof)
                && final(self)@ == old(self)@,
    {
        match format {
            Format::Dwarf32 => match self.read_u32() {
                Ok(v) => Ok(v as u64),
                Err(e) => Err(e),
            },
            Format::Dwarf64 => self.read_u64(),
        }
    }

    /// Parse a word-sized integer according to the format, and return it
    /// as an offset.
    ///
    /// Fails with `Error::UnsupportedOffset` if the word is larger than the
    /// offset type can hold; the word has then been read.
    fn read_offset(&mut self, format: Format) -> (r: Result<Self::Offset, Error>)
        ensures
            format.word_size() <= old(self)@.len() ==> {
                let word = old(self)@.unsigned(format.word_size() as nat);
                &&& final(self)@ == old(self)@.advance(format.word_size() as nat)
                &&& word <= Self::Offset::max_value() ==> (r matches Ok(offset) && offset.value()
                    == word)
                &&& word > Self::Offset::max_value() ==> r == Err::<Self::Offset, Error>(
                    Error::UnsupportedOffset,
                )
            },
            format.word_size() > old(self)@.len() ==> r == Err::<Self::Offset, Error>(
                Error::UnexpectedEof,
            ) && final(self)@ == old(self)@,
    {
        match self.read_word(format) {
            Ok(word) => Self::Offset::from_u64(word),
            Err(e) => Err(e),
        }
    }
}

} // verus!
