//! A reader over a section that lies in memory.

use crate::endianity::{lemma_value_of_one, Endianity};
use crate::error::Error;
use crate::reader::{Reader, ReaderOffset, ReaderView};
use core::marker::PhantomData;
use std::borrow::Cow;
use vstd::arithmetic::power2::lemma2_to64;
use vstd::pervasive::unreached;
use vstd::prelude::*;
use vstd::string::StringSliceAdditionalSpecFns;
use vstd::utf8::encode_utf8_decode_utf8;

verus! {

/// A reader over a byte slice, which borrows the slice and copies nothing.
///
/// The reader keeps the whole section and the two ends of the part that it
/// has yet to read, so that a part split off it still knows where in the
/// section it lies.
#[derive(Debug, Copy)]
pub struct EndianSlice<'input, Endian: Endianity, Offset: ReaderOffset> {
    section: &'input [u8],
    start: usize,
    end: usize,
    endian: Endian,
    offset: PhantomData<Offset>,
}

impl<'input, Endian: Endianity, Offset: ReaderOffset> Clone for EndianSlice<
    'input,
    Endian,
    Offset,
> {
    fn clone(&self) -> (copy: Self)
        ensures
            copy == *self,
    {
        *self
    }
}

/// The offset that stands for a length known to be in range.
fn offset_of<Offset: ReaderOffset>(len: usize) -> (offset: Offset)
    requires
        len <= Offset::max_value(),
    ensures
        offset.value() == len,
{
    match Offset::from_u64(len as u64) {
        Ok(offset) => offset,
        Err(_) => unreached(),
    }
}

impl<'input, Endian: Endianity, Offset: ReaderOffset> EndianSlice<'input, Endian, Offset> {
    /// The part to read lies within the section, and its length is one that
    /// the offset type can hold.
    #[verifier::type_invariant]
    spec fn in_bounds(self) -> bool {
        &&& self.start <= self.end <= self.section@.len()
        &&& self.end - self.start <= Offset::max_value()
    }

    /// What the reader stands for: the bytes of the section between its two
    /// ends.
    pub closed spec fn view(&self) -> ReaderView {
        ReaderView {
            section: self.section@,
            position: self.start as nat,
            bytes: self.section@.subrange(self.start as int, self.end as int),
            big_endian: self.endian.spec_is_big_endian(),
        }
    }

    /// What `new` makes of a section: a reader at its start, with all of it
    /// to read.
    pub open spec fn spec_new(section: Seq<u8>, endian: Endian) -> ReaderView {
        ReaderView {
            section,
            position: 0,
            bytes: section,
            big_endian: endian.spec_is_big_endian(),
        }
    }

    /// Make a reader of the whole of `section`, to be read in the byte
    /// order `endian`.
    ///
    /// Fails with `Error::UnsupportedOffset` if the section is longer than
    /// the offset type can say.
    pub fn new(section: &'input [u8], endian: Endian) -> (r: Result<Self, Error>)
        ensures
            section.len() <= Offset::max_value() ==> (r matches Ok(reader) && reader@
                == Self::spec_new(section@, endian) && reader@.well_formed()),
            section.len() > Offset::max_value() ==> (r matches Err(e) && e
                == Error::UnsupportedOffset),
    {
        match Offset::from_u64(section.len() as u64) {
            Ok(_) => {
                let reader = EndianSlice {
                    section,
                    start: 0,
                    end: section.len(),
                    endian,
                    offset: PhantomData,
                };
                assert(reader@.bytes =~= section@);
                Ok(reader)
            },
            Err(e) => Err(e),
        }
    }

    /// The bytes that remain, as a slice of the section.
    pub fn slice(&self) -> (bytes: &'input [u8])
        ensures
            bytes@ == self@.bytes,
    {
        proof {
            use_type_invariant(self);
        }
        &self.section[self.start..self.end]
    }
}

impl<'input, Endian, Offset> Reader for EndianSlice<'input, Endian, Offset> where
    Endian: Endianity,
    Offset: ReaderOffset + Send + Sync,
 {
    type Endian = Endian;

    type Offset = Offset;

    open spec fn view(&self) -> ReaderView {
        EndianSlice::view(self)
    }

    proof fn lemma_clone(&self, copy: &Self) {
    }

    #[inline]
    fn endian(&self) -> Endian {
        self.endian
    }

    #[inline]
    fn len(&self) -> Offset {
        proof {
            use_type_invariant(self);
        }
        offset_of(self.end - self.start)
    }

    #[inline]
    fn is_empty(&self) -> bool {
        proof {
            use_type_invariant(self);
        }
        self.start == self.end
    }

    #[inline]
    fn empty(&mut self) {
        proof {
            use_type_invariant(&*self);
        }
        self.end = self.start;
        assert(self@.bytes =~= old(self)@.bytes.take(0));
    }

    #[inline]
    fn truncate(&mut self, len: Offset) -> Result<(), Error> {
        proof {
            use_type_invariant(&*self);
        }
        let count = len.into_u64();
        if count > (self.end - self.start) as u64 {
            Err(Error::OutOfBounds)
        } else {
            self.end = self.start + count as usize;
            assert(self@.bytes =~= old(self)@.bytes.take(count as int));
            Ok(())
        }
    }

    #[inline]
    fn offset_from(&self, base: &Self) -> Offset {
        proof {
            use_type_invariant(self);
            use_type_invariant(base);
        }
        offset_of(self.start - base.start)
    }

    fn find(&self, byte: u8) -> Result<Offset, Error> {
        proof {
            use_type_invariant(self);
        }
        let bytes = self.slice();
        let mut index: usize = 0;
        while index < bytes.len()
            invariant
                index <= bytes@.len() <= Offset::max_value(),
                bytes@ == self@.bytes,
                forall|earlier: int| 0 <= earlier < index ==> bytes@[earlier] != byte,
            decreases bytes@.len() - index,
        {
            if bytes[index] == byte {
                return Ok(offset_of(index));
            }
            index += 1;
        }
        Err(Error::UnexpectedEof)
    }

    #[inline]
    fn skip(&mut self, len: Offset) -> Result<(), Error> {
        proof {
            use_type_invariant(&*self);
        }
        let count = len.into_u64();
        if count > (self.end - self.start) as u64 {
            Err(Error::OutOfBounds)
        } else {
            self.start = self.start + count as usize;
            assert(self@.bytes =~= old(self)@.bytes.skip(count as int));
            Ok(())
        }
    }

    #[inline]
    fn split(&mut self, len: Offset) -> Result<Self, Error> {
        proof {
            use_type_invariant(&*self);
        }
        let count = len.into_u64();
        if count > (self.end - self.start) as u64 {
            Err(Error::OutOfBounds)
        } else {
            let middle = self.start + count as usize;
            let part = EndianSlice {
                section: self.section,
                start: self.start,
                end: middle,
                endian: self.endian,
                offset: PhantomData,
            };
            self.start = middle;
            assert(part@.bytes =~= old(self)@.bytes.take(count as int));
            assert(self@.bytes =~= old(self)@.bytes.skip(count as int));
            assert(part@.bytes + self@.bytes =~= old(self)@.bytes);
            Ok(part)
        }
    }

    /// The slice is always borrowed.
    #[inline]
    fn to_slice(&self) -> (r: Result<Cow<'_, [u8]>, Error>)
        ensures
            r matches Ok(slice) && slice is Borrowed,
    {
        Ok(Cow::Borrowed(self.slice()))
    }

    /// The string, where there is one, is always borrowed.
    #[inline]
    fn to_string(&self) -> (r: Result<Cow<'_, str>, Error>)
        ensures
            r matches Ok(text) ==> text is Borrowed,
    {
        match core::str::from_utf8(self.slice()) {
            Ok(text) => {
                proof {
                    encode_utf8_decode_utf8(text@);
                }
                Ok(Cow::Borrowed(text))
            },
            Err(_) => Err(Error::BadUtf8),
        }
    }

    #[inline]
    fn to_string_lossy(&self) -> Result<Cow<'_, str>, Error> {
        Ok(String::from_utf8_lossy(self.slice()))
    }

    fn read_u8_array<const N: usize>(&mut self) -> Result<[u8; N], Error> {
        proof {
            use_type_invariant(&*self);
        }
        if N > self.end - self.start {
            return Err(Error::UnexpectedEof);
        }
        let bytes = self.slice();
        let mut array = [0u8;N];
        let mut index: usize = 0;
        while index < N
            invariant
                index <= N <= bytes@.len(),
                forall|copied: int| 0 <= copied < index ==> array@[copied] == bytes@[copied],
            decreases N - index,
        {
            array[index] = bytes[index];
            index += 1;
        }
        self.start = self.start + N;
        assert(array@ =~= old(self)@.bytes.take(N as int));
        assert(self@.bytes =~= old(self)@.bytes.skip(N as int));
        Ok(array)
    }

    #[inline]
    fn read_u8(&mut self) -> Result<u8, Error> {
        proof {
            use_type_invariant(&*self);
        }
        if self.start == self.end {
            return Err(Error::UnexpectedEof);
        }
        let value = self.section[self.start];
        self.start = self.start + 1;
        proof {
            lemma_value_of_one(self@.big_endian, old(self)@.bytes.take(1));
            assert(self@.bytes =~= old(self)@.bytes.skip(1));
        }
        Ok(value)
    }

    #[inline]
    fn read_i8(&mut self) -> Result<i8, Error> {
        proof {
            use_type_invariant(&*self);
        }
        if self.start == self.end {
            return Err(Error::UnexpectedEof);
        }
        let unsigned = self.section[self.start];
        self.start = self.start + 1;
        proof {
            lemma_value_of_one(self@.big_endian, old(self)@.bytes.take(1));
            lemma2_to64();
            assert(unsigned < 0x80 ==> unsigned as i8 == unsigned) by (bit_vector);
            assert(unsigned >= 0x80 ==> unsigned as i8 == unsigned - 0x100) by (bit_vector);
            assert(self@.bytes =~= old(self)@.bytes.skip(1));
        }
        Ok(
            #[verifier::truncate]
            (unsigned as i8),
        )
    }

    #[inline]
    fn read_u16(&mut self) -> Result<u16, Error> {
        proof {
            use_type_invariant(&*self);
        }
        if self.end - self.start < 2 {
            return Err(Error::UnexpectedEof);
        }
        let value = self.endian.read_u16(self.slice());
        self.start = self.start + 2;
        assert(self@.bytes =~= old(self)@.bytes.skip(2));
        Ok(value)
    }

    #[inline]
    fn read_i16(&mut self) -> Result<i16, Error> {
        proof {
            use_type_invariant(&*self);
        }
        if self.end - self.start < 2 {
            return Err(Error::UnexpectedEof);
        }
        let value = self.endian.read_i16(self.slice());
        self.start = self.start + 2;
        assert(self@.bytes =~= old(self)@.bytes.skip(2));
        Ok(value)
    }

    #[inline]
    fn read_u32(&mut self) -> Result<u32, Error> {
        proof {
            use_type_invariant(&*self);
        }
        if self.end - self.start < 4 {
            return Err(Error::UnexpectedEof);
        }
        let value = self.endian.read_u32(self.slice());
        self.start = self.start + 4;
        assert(self@.bytes =~= old(self)@.bytes.skip(4));
        Ok(value)
    }

    #[inline]
    fn read_i32(&mut self) -> Result<i32, Error> {
        proof {
            use_type_invariant(&*self);
        }
        if self.end - self.start < 4 {
            return Err(Error::UnexpectedEof);
        }
        let value = self.endian.read_i32(self.slice());
        self.start = self.start + 4;
        assert(self@.bytes =~= old(self)@.bytes.skip(4));
        Ok(value)
    }

    #[inline]
    fn read_u64(&mut self) -> Result<u64, Error> {
        proof {
            use_type_invariant(&*self);
        }
        if self.end - self.start < 8 {
            return Err(Error::UnexpectedEof);
        }
        let value = self.endian.read_u64(self.slice());
        self.start = self.start + 8;
        assert(self@.bytes =~= old(self)@.bytes.skip(8));
        Ok(value)
    }

    #[inline]
    fn read_i64(&mut self) -> Result<i64, Error> {
        proof {
            use_type_invariant(&*self);
        }
        if self.end - self.start < 8 {
            return Err(Error::UnexpectedEof);
        }
        let value = self.endian.read_i64(self.slice());
        self.start = self.start + 8;
        assert(self@.bytes =~= old(self)@.bytes.skip(8));
        Ok(value)
    }
}

} // verus!
