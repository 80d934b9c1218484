//! The fixed-size fields of the format: big-endian integers and UTF-8 text.

use byteorder::BigEndian;
use byteorder::ByteOrder;
use vstd::prelude::*;
use vstd::utf8::decode_utf8;
use vstd::utf8::valid_utf8;

verus! {

/// The number that `bytes` spell, most significant byte first.
pub open spec fn be_value(bytes: Seq<u8>) -> nat
    decreases bytes.len(),
{
    if bytes.len() == 0 {
        0
    } else {
        be_value(bytes.drop_last()) * 256 + bytes.last() as nat
    }
}

/// The `width` bytes that spell `value`, most significant byte first. Where
/// `value` needs more than `width` bytes, its low bytes.
pub open spec fn be_bytes(value: nat, width: nat) -> Seq<u8>
    decreases width,
{
    if width == 0 {
        Seq::empty()
    } else {
        be_bytes(value / 256, (width - 1) as nat).push((value % 256) as u8)
    }
}

/// `256` to the power of `width`: one more than the largest number that
/// `width` bytes spell.
pub open spec fn be_limit(width: nat) -> nat
    decreases width,
{
    if width == 0 {
        1
    } else {
        256 * be_limit((width - 1) as nat)
    }
}

/// The number that a 16-bit pattern stands for when read as two's complement.
pub open spec fn signed16(pattern: nat) -> int {
    if pattern < 0x8000 {
        pattern as int
    } else {
        pattern - 0x1_0000
    }
}

/// The length of the longest prefix of `bytes`, no longer than `limit`, that
/// is valid UTF-8.
pub open spec fn valid_prefix_within(bytes: Seq<u8>, limit: nat) -> nat
    decreases limit,
{
    if limit == 0 || valid_utf8(bytes.take(limit as int)) {
        limit
    } else {
        valid_prefix_within(bytes, (limit - 1) as nat)
    }
}

/// The length of the longest prefix of `bytes` that is valid UTF-8.
pub open spec fn valid_prefix(bytes: Seq<u8>) -> nat {
    valid_prefix_within(bytes, bytes.len())
}

/// What `bytes` say as text: their characters, or the length of their longest
/// valid prefix where they are not UTF-8.
pub open spec fn utf8_text(bytes: Seq<u8>) -> Result<Seq<char>, nat> {
    if valid_utf8(bytes) {
        Ok(decode_utf8(bytes))
    } else {
        Err(valid_prefix(bytes))
    }
}

/// The limits of the widths that the format uses.
pub proof fn lemma_be_limits()
    ensures
        be_limit(0) == 1,
        be_limit(1) == 0x100,
        be_limit(2) == 0x1_0000,
        be_limit(4) == 0x1_0000_0000,
        be_limit(8) == 0x1_0000_0000_0000_0000,
{
    reveal_with_fuel(be_limit, 9);
}

/// Spelling a number and reading it back gives the number.
pub proof fn lemma_be_round_trip(value: nat, width: nat)
    requires
        value < be_limit(width),
    ensures
        be_bytes(value, width).len() == width,
        be_value(be_bytes(value, width)) == value,
    decreases width,
{
    if width > 0 {
        let high = be_bytes(value / 256, (width - 1) as nat);
        lemma_be_round_trip(value / 256, (width - 1) as nat);
        assert(be_bytes(value, width).drop_last() =~= high);
    }
}

/// `byteorder::BigEndian::read_u16`: the number that the first two bytes of
/// `buf` spell, most significant byte first. It panics on a shorter `buf`.
#[verifier::external_body]
pub(crate) fn be_u16(buf: &[u8]) -> (n: u16)
    requires
        buf@.len() >= 2,
    ensures
        n == be_value(buf@.take(2)),
{
    BigEndian::read_u16(buf)
}

/// `byteorder::BigEndian::read_i16`: the first two bytes of `buf`, most
/// significant byte first, read as a two's complement number. It panics on
/// a shorter `buf`.
#[verifier::external_body]
pub(crate) fn be_i16(buf: &[u8]) -> (n: i16)
    requires
        buf@.len() >= 2,
    ensures
        n == signed16(be_value(buf@.take(2))),
{
    BigEndian::read_i16(buf)
}

/// `byteorder::BigEndian::read_u32`: the number that the first four bytes of
/// `buf` spell, most significant byte first. It panics on a shorter `buf`.
#[verifier::external_body]
pub(crate) fn be_u32(buf: &[u8]) -> (n: u32)
    requires
        buf@.len() >= 4,
    ensures
        n == be_value(buf@.take(4)),
{
    BigEndian::read_u32(buf)
}

/// `byteorder::BigEndian::read_u64`: the number that the first eight bytes of
/// `buf` spell, most significant byte first. It panics on a shorter `buf`.
#[verifier::external_body]
pub(crate) fn be_u64(buf: &[u8]) -> (n: u64)
    requires
        buf@.len() >= 8,
    ensures
        n == be_value(buf@.take(8)),
{
    BigEndian::read_u64(buf)
}

/// `String::from_utf8`: the text that `bytes` encode, where they are valid
/// UTF-8. Where they are not, what `valid_up_to` says of the `utf8_error` of
/// the error returned: the greatest length at which a prefix of `bytes` is
/// valid.
#[verifier::external_body]
pub(crate) fn text_from_utf8(bytes: Vec<u8>) -> (text: Result<String, usize>)
    ensures
        match text {
            Ok(t) => utf8_text(bytes@) == Ok::<Seq<char>, nat>(t@),
            Err(valid_up_to) => utf8_text(bytes@) == Err::<Seq<char>, nat>(valid_up_to as nat),
        },
{
    match String::from_utf8(bytes) {
        Ok(t) => Ok(t),
        Err(e) => Err(e.utf8_error().valid_up_to()),
    }
}

} // verus!
