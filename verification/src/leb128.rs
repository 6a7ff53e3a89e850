//! LEB128: integers in as many bytes as they need, seven bits to a byte,
//! lowest bits first. The top bit of a byte says whether another follows.

use crate::error::Error;
use vstd::arithmetic::power2::{
    lemma2_to64, lemma2_to64_rest, lemma_pow2_adds, lemma_pow2_pos, pow2,
};
use vstd::bits::lemma_u64_shl_is_mul;
use vstd::prelude::*;

verus! {

/// The most bytes that a 64-bit number takes.
pub const MAX_LEN: usize = 10;

/// Whether a further byte of the same number follows `byte`.
pub open spec fn continues(byte: u8) -> bool {
    byte >= 0x80
}

/// The seven bits of the number that `byte` carries.
pub open spec fn payload(byte: u8) -> nat {
    (byte % 0x80) as nat
}

/// How many bytes at the start of `bytes` say that another follows.
pub open spec fn continuation_run(bytes: Seq<u8>) -> nat
    decreases bytes.len(),
{
    if bytes.len() > 0 && continues(bytes[0]) {
        1 + continuation_run(bytes.drop_first())
    } else {
        0
    }
}

/// The number that the payloads of the first `count` bytes spell in base
/// 128, lowest digit first.
pub open spec fn payload_value(bytes: Seq<u8>, count: nat) -> nat
    decreases count,
{
    if count == 0 {
        0
    } else {
        payload_value(bytes, (count - 1) as nat) + payload(bytes[count - 1]) * pow2(
            (7 * (count - 1)) as nat,
        )
    }
}

/// The two's-complement number that the payloads of the first `count` bytes
/// spell: the top bit of the last payload is the sign.
pub open spec fn signed_payload_value(bytes: Seq<u8>, count: nat) -> int {
    if count > 0 && payload(bytes[count - 1]) >= 0x40 {
        payload_value(bytes, count) - pow2(7 * count)
    } else {
        payload_value(bytes, count) as int
    }
}

/// How many bytes a read takes: the number's bytes up to the one that ends
/// it, but no more than there are and no more than ten.
pub open spec fn consumed(bytes: Seq<u8>) -> nat {
    let run = continuation_run(bytes);
    if run >= MAX_LEN {
        MAX_LEN as nat
    } else if run >= bytes.len() {
        bytes.len()
    } else {
        run + 1
    }
}

/// What reading an unsigned number from the start of `bytes` gives.
///
/// The bytes may end before the number does. Otherwise the number has to
/// end within ten bytes and fit in 64 bits.
pub open spec fn unsigned_result(bytes: Seq<u8>) -> Result<u64, Error> {
    let run = continuation_run(bytes);
    if run < MAX_LEN && run >= bytes.len() {
        Err(Error::UnexpectedEof)
    } else if run >= MAX_LEN || payload_value(bytes, run + 1) > u64::MAX {
        Err(Error::BadUnsignedLeb128)
    } else {
        Ok(payload_value(bytes, run + 1) as u64)
    }
}

/// What reading a signed number from the start of `bytes` gives.
///
/// The bytes may end before the number does. Otherwise the number has to
/// end within ten bytes and fit in 64 bits.
pub open spec fn signed_result(bytes: Seq<u8>) -> Result<i64, Error> {
    let run = continuation_run(bytes);
    if run < MAX_LEN && run >= bytes.len() {
        Err(Error::UnexpectedEof)
    } else if run >= MAX_LEN || !(i64::MIN <= signed_payload_value(bytes, run + 1) <= i64::MAX) {
        Err(Error::BadSignedLeb128)
    } else {
        Ok(signed_payload_value(bytes, run + 1) as i64)
    }
}

/// A run of continuation bytes is at least as long as any stretch of them
/// at the start, and ends at the first byte that is none or with the bytes.
pub proof fn lemma_continuation_run(bytes: Seq<u8>, count: nat)
    requires
        count <= bytes.len(),
        forall|i: int| 0 <= i < count ==> continues(#[trigger] bytes[i]),
    ensures
        continuation_run(bytes) >= count,
        count == bytes.len() ==> continuation_run(bytes) == count,
        count < bytes.len() && !continues(bytes[count as int]) ==> continuation_run(bytes)
            == count,
    decreases count,
{
    if count > 0 {
        let rest = bytes.drop_first();
        assert forall|i: int| 0 <= i < count - 1 implies continues(#[trigger] rest[i]) by {
            assert(rest[i] == bytes[i + 1]);
        }
        if count < bytes.len() {
            assert(rest[count - 1] == bytes[count as int]);
        }
        lemma_continuation_run(rest, (count - 1) as nat);
    }
}

/// The payloads of `count` bytes spell a number of `7 * count` bits.
pub proof fn lemma_payload_value_bound(bytes: Seq<u8>, count: nat)
    ensures
        payload_value(bytes, count) < pow2(7 * count),
    decreases count,
{
    if count == 0 {
        lemma2_to64();
    } else {
        let below = (count - 1) as nat;
        lemma_payload_value_bound(bytes, below);
        lemma_pow2_adds(7 * below, 7);
        lemma2_to64();
        let low = payload(bytes[count - 1]);
        let unit = pow2(7 * below);
        assert(low * unit <= 127 * unit) by (nonlinear_arith)
            requires
                low <= 127,
        ;
        assert(pow2(7 * count) == unit * 128);
    }
}

/// The low seven bits of a byte: its payload.
pub fn low_bits_of_byte(byte: u8) -> (low: u8)
    ensures
        low == payload(byte),
{
    assert(byte & 0x7f == byte % 0x80) by (bit_vector);
    byte & 0x7f
}

/// Whether the top bit of a byte is set: another byte follows.
pub fn has_continuation(byte: u8) -> (more: bool)
    ensures
        more == continues(byte),
{
    assert((byte & 0x80 != 0) == (byte >= 0x80)) by (bit_vector);
    byte & 0x80 != 0
}

/// Puts the bits `low` above the `shift` bits gathered so far.
pub(crate) fn with_payload(gathered: u64, shift: u32, low: u8) -> (joined: u64)
    requires
        shift < 64,
        gathered < pow2(shift as nat),
        gathered + low * pow2(shift as nat) <= u64::MAX,
    ensures
        joined == gathered + low * pow2(shift as nat),
{
    proof {
        let unit = pow2(shift as nat);
        lemma_pow2_pos(shift as nat);
        assert(1 * unit <= u64::MAX) by {
            vstd::bits::lemma_u64_pow2_no_overflow(shift as nat);
        }
        lemma_u64_shl_is_mul(1, shift as u64);
        lemma_u64_shl_is_mul(low as u64, shift as u64);
        let wide = low as u64;
        assert(gathered < (1u64 << shift) ==> gathered | (wide << shift) == gathered + (wide
            << shift)) by (bit_vector)
            requires
                shift < 64,
        ;
    }
    gathered | ((low as u64) << shift)
}

/// Ends a signed number: puts the last payload `low` above the `shift` bits
/// gathered so far, and reads the whole as two's complement, with the top
/// bit of `low` for the sign.
pub(crate) fn signed_from(gathered: u64, shift: u32, low: u8) -> (value: i64)
    requires
        shift <= 63,
        gathered < pow2(shift as nat),
        low < 0x80,
        shift > 56 ==> shift == 63 && (low == 0 || low == 0x7f),
    ensures
        low < 0x40 ==> value == gathered + low * pow2(shift as nat),
        low >= 0x40 ==> value == gathered + low * pow2(shift as nat) - pow2((shift + 7) as nat),
{
    proof {
        lemma2_to64();
        lemma2_to64_rest();
        lemma_pow2_adds(shift as nat, 7);
    }
    if shift == 63 {
        let top = low & 1;
        proof {
            assert(low == 0 ==> low & 1 == 0) by (bit_vector);
            assert(low == 0x7f ==> low & 1 == 1) by (bit_vector);
        }
        let joined = with_payload(gathered, shift, top);
        proof {
            assert(joined < 0x8000_0000_0000_0000 ==> joined as i64 == joined) by (bit_vector);
            assert(joined >= 0x8000_0000_0000_0000 ==> joined as i64 == joined
                - 0x1_0000_0000_0000_0000) by (bit_vector);
        }
        #[verifier::truncate]
        (joined as i64)
    } else {
        let bits = shift + 7;
        proof {
            let unit = pow2(shift as nat);
            assert(low * unit <= 127 * unit) by (nonlinear_arith)
                requires
                    low <= 127,
            ;
            assert(low >= 0x40 ==> low * unit >= 64 * unit) by (nonlinear_arith);
            assert(low < 0x40 ==> low * unit <= 63 * unit) by (nonlinear_arith);
            vstd::arithmetic::power2::lemma_pow2_strictly_increases(bits as nat, 64);
            if bits < 63 {
                vstd::arithmetic::power2::lemma_pow2_strictly_increases(bits as nat, 63);
            }
        }
        let joined = with_payload(gathered, shift, low);
        let negative = low & 0x40 != 0;
        proof {
            assert((low & 0x40 != 0) == (low >= 0x40)) by (bit_vector)
                requires
                    low < 0x80,
            ;
            lemma_u64_shl_is_mul(1, bits as u64);
            assert(joined < (1u64 << bits) ==> (joined | (!0u64 << bits)) == joined
                + 0x1_0000_0000_0000_0000 - (1u64 << bits)) by (bit_vector)
                requires
                    bits < 64,
            ;
            let extended = joined | (!0u64 << bits);
            assert(extended >= 0x8000_0000_0000_0000 ==> extended as i64 == extended
                - 0x1_0000_0000_0000_0000) by (bit_vector);
            assert(joined < 0x8000_0000_0000_0000 ==> joined as i64 == joined) by (bit_vector);
        }
        if negative {
            #[verifier::truncate]
            ((joined | (!0u64 << bits)) as i64)
        } else {
            #[verifier::truncate]
            (joined as i64)
        }
    }
}

/// The bytes that spell `value` as an unsigned number, with no byte to
/// spare.
pub open spec fn unsigned_encoding(value: nat) -> Seq<u8>
    decreases value,
{
    if value < 0x80 {
        seq![value as u8]
    } else {
        seq![(0x80 + value % 0x80) as u8] + unsigned_encoding(value / 0x80)
    }
}

/// The bytes that spell `value` as a signed number, with no byte to spare.
pub open spec fn signed_encoding(value: int) -> Seq<u8>
    decreases vstd::math::abs(value),
{
    if -0x40 <= value < 0x40 {
        seq![(value % 0x80) as u8]
    } else {
        seq![(0x80 + value % 0x80) as u8] + signed_encoding(value / 0x80)
    }
}

/// The number that `count` payloads spell depends on the first `count`
/// bytes alone.
pub proof fn lemma_payload_value_prefix(bytes: Seq<u8>, others: Seq<u8>, count: nat)
    requires
        forall|i: int| 0 <= i < count ==> bytes[i] == others[i],
    ensures
        payload_value(bytes, count) == payload_value(others, count),
    decreases count,
{
    if count > 0 {
        lemma_payload_value_prefix(bytes, others, (count - 1) as nat);
    }
}

/// A byte in front of `count` payloads counts once, and the others 128
/// times what they counted.
pub proof fn lemma_payload_value_shift(first: u8, rest: Seq<u8>, count: nat)
    requires
        count <= rest.len(),
    ensures
        payload_value(seq![first] + rest, count + 1) == payload(first) + 128 * payload_value(
            rest,
            count,
        ),
    decreases count,
{
    let bytes = seq![first] + rest;
    lemma2_to64();
    assert(bytes[0] == first);
    if count == 0 {
        assert(payload_value(bytes, 0) == 0);
        assert(payload_value(rest, 0) == 0);
        assert(payload_value(bytes, 1) == payload_value(bytes, 0) + payload(bytes[0]) * pow2(0));
    } else {
        let below = (count - 1) as nat;
        lemma_payload_value_shift(first, rest, below);
        lemma_pow2_adds(7, 7 * below);
        assert(bytes[count as int] == rest[count - 1]);
        let digit = payload(rest[count - 1]);
        let unit = pow2(7 * below);
        assert(pow2(7 * count) == 128 * unit);
        assert(digit * (128 * unit) == 128 * (digit * unit)) by (nonlinear_arith);
        assert(payload_value(rest, count) == payload_value(rest, below) + digit * unit);
        assert(payload_value(bytes, count + 1) == payload_value(bytes, count) + digit * pow2(
            7 * count,
        ));
    }
}

/// The shape of an unsigned number's bytes: every byte but the last says
/// that another follows, there are no more of them than the number has
/// groups of seven bits, and their payloads spell the number.
pub proof fn lemma_unsigned_encoding(value: nat, groups: nat)
    requires
        groups >= 1,
        value < pow2(7 * groups),
    ensures
        1 <= unsigned_encoding(value).len() <= groups,
        forall|i: int|
            0 <= i < unsigned_encoding(value).len() - 1 ==> continues(
                #[trigger] unsigned_encoding(value)[i],
            ),
        !continues(unsigned_encoding(value).last()),
        payload_value(unsigned_encoding(value), unsigned_encoding(value).len()) == value,
    decreases groups,
{
    let bytes = unsigned_encoding(value);
    lemma2_to64();
    if value < 0x80 {
        assert(bytes.len() == 1 && bytes[0] == value);
        assert(payload_value(bytes, 0) == 0);
        assert(payload_value(bytes, 1) == payload_value(bytes, 0) + payload(bytes[0]) * pow2(0));
    } else {
        let first = (0x80 + value % 0x80) as u8;
        let higher = value / 0x80;
        let rest = unsigned_encoding(higher);
        assert(bytes == seq![first] + rest);
        assert(payload(first) == value % 0x80);
        assert(bytes.len() == rest.len() + 1);
        if groups == 1 {
            assert(false);
        }
        lemma_pow2_adds(7, (7 * (groups - 1)) as nat);
        assert(higher < pow2((7 * (groups - 1)) as nat)) by (nonlinear_arith)
            requires
                value < 128 * pow2((7 * (groups - 1)) as nat),
                higher == value / 128,
        ;
        lemma_unsigned_encoding(higher, (groups - 1) as nat);
        lemma_payload_value_shift(first, rest, rest.len());
        assert forall|i: int| 0 <= i < bytes.len() - 1 implies continues(#[trigger] bytes[i]) by {
            if i > 0 {
                assert(bytes[i] == rest[i - 1]);
            }
        }
        assert(bytes.last() == rest.last());
    }
}

/// An unsigned number read from its own bytes is the number again, whatever
/// follows them, and the read takes those bytes and no more.
pub proof fn lemma_unsigned_round_trip(value: u64, rest: Seq<u8>)
    ensures
        unsigned_result(unsigned_encoding(value as nat) + rest) == Ok::<u64, Error>(value),
        consumed(unsigned_encoding(value as nat) + rest) == unsigned_encoding(value as nat).len(),
{
    let number = unsigned_encoding(value as nat);
    let bytes = number + rest;
    lemma2_to64();
    lemma2_to64_rest();
    lemma_pow2_adds(64, 6);
    lemma_unsigned_encoding(value as nat, 10);
    let last = (number.len() - 1) as nat;
    assert forall|i: int| 0 <= i < last implies continues(#[trigger] bytes[i]) by {
        assert(bytes[i] == number[i]);
    }
    assert(bytes[last as int] == number.last());
    lemma_continuation_run(bytes, last);
    lemma_payload_value_prefix(number, bytes, number.len());
}

/// The shape of a signed number's bytes: every byte but the last says that
/// another follows, there are no more of them than the number has groups of
/// seven bits, sign included, and their payloads spell the number.
pub proof fn lemma_signed_encoding(value: int, groups: nat)
    requires
        groups >= 1,
        -pow2((7 * groups - 1) as nat) <= value < pow2((7 * groups - 1) as nat),
    ensures
        1 <= signed_encoding(value).len() <= groups,
        forall|i: int|
            0 <= i < signed_encoding(value).len() - 1 ==> continues(
                #[trigger] signed_encoding(value)[i],
            ),
        !continues(signed_encoding(value).last()),
        signed_payload_value(signed_encoding(value), signed_encoding(value).len()) == value,
    decreases groups,
{
    let bytes = signed_encoding(value);
    lemma2_to64();
    if -0x40 <= value < 0x40 {
        assert(bytes.len() == 1 && bytes[0] == value % 0x80);
        assert(payload_value(bytes, 0) == 0);
        assert(payload_value(bytes, 1) == payload_value(bytes, 0) + payload(bytes[0]) * pow2(0));
    } else {
        let first = (0x80 + value % 0x80) as u8;
        let higher = value / 0x80;
        let rest = signed_encoding(higher);
        assert(bytes == seq![first] + rest);
        assert(payload(first) == value % 0x80);
        assert(bytes.len() == rest.len() + 1);
        if groups == 1 {
            assert(false);
        }
        let unit = pow2((7 * (groups - 1) - 1) as nat);
        lemma_pow2_adds(7, (7 * (groups - 1) - 1) as nat);
        assert(pow2((7 * groups - 1) as nat) == 128 * unit);
        assert(-unit <= higher < unit) by (nonlinear_arith)
            requires
                -(128 * unit) <= value < 128 * unit,
                higher == value / 128,
        ;
        lemma_signed_encoding(higher, (groups - 1) as nat);
        lemma_payload_value_shift(first, rest, rest.len());
        lemma_pow2_adds(7, 7 * rest.len());
        assert(pow2(7 * bytes.len()) == 128 * pow2(7 * rest.len()));
        assert forall|i: int| 0 <= i < bytes.len() - 1 implies continues(#[trigger] bytes[i]) by {
            if i > 0 {
                assert(bytes[i] == rest[i - 1]);
            }
        }
        assert(bytes.last() == rest.last());
        assert(bytes[bytes.len() - 1] == rest[rest.len() - 1]);
    }
}

/// A signed number read from its own bytes is the number again, whatever
/// follows them, and the read takes those bytes and no more.
pub proof fn lemma_signed_round_trip(value: i64, rest: Seq<u8>)
    ensures
        signed_result(signed_encoding(value as int) + rest) == Ok::<i64, Error>(value),
        consumed(signed_encoding(value as int) + rest) == signed_encoding(value as int).len(),
{
    let number = signed_encoding(value as int);
    let bytes = number + rest;
    lemma2_to64();
    lemma2_to64_rest();
    lemma_pow2_adds(64, 5);
    lemma_signed_encoding(value as int, 10);
    let last = (number.len() - 1) as nat;
    assert forall|i: int| 0 <= i < last implies continues(#[trigger] bytes[i]) by {
        assert(bytes[i] == number[i]);
    }
    assert(bytes[last as int] == number.last());
    lemma_continuation_run(bytes, last);
    lemma_payload_value_prefix(number, bytes, number.len());
}

} // verus!
