//! Reading the fields of the format off a byte source.

use crate::error::DecodeError;
use crate::error::DecodeResult;
use crate::error::IoFault;
use crate::grammar;
use crate::grammar::Scan;
use crate::source::ByteSource;
use crate::wire::be_i16;
use crate::wire::be_u16;
use crate::wire::be_u32;
use crate::wire::be_u64;
use crate::wire::text_from_utf8;
use vstd::prelude::*;

verus! {

/// Whether a read that returned `result` and left the source with `after`
/// did what `scan` prescribes.
pub open spec fn scanned<T>(
    scan: Scan<T>,
    result: DecodeResult<T>,
    after: Option<Seq<u8>>,
) -> bool {
    match scan {
        Ok((value, rest)) => result == Ok::<T, DecodeError>(value) && after == Some(rest),
        Err((error, rest)) => result == Err::<T, DecodeError>(error) && after == Some(rest),
    }
}

/// The bytes that were read, or the error.
pub open spec fn bytes_read(result: DecodeResult<Vec<u8>>) -> DecodeResult<Seq<u8>> {
    match result {
        Ok(bytes) => Ok(bytes@),
        Err(error) => Err(error),
    }
}

/// The characters that were read, or the error.
pub open spec fn text_read(result: DecodeResult<String>) -> DecodeResult<Seq<char>> {
    match result {
        Ok(text) => Ok(text@),
        Err(error) => Err(error),
    }
}

/// Reads `len` bytes. A source that hands over another number of bytes than
/// it was asked for is taken to have failed.
pub fn take<R: ByteSource>(source: &mut R, len: usize) -> (taken: DecodeResult<Vec<u8>>)
    ensures
        taken matches Ok(bytes) ==> bytes@.len() == len,
        old(source).pending() matches Some(before) ==> scanned(
            grammar::field(before, len as nat),
            bytes_read(taken),
            final(source).pending(),
        ),
{
    match source.read_exact(len) {
        Ok(bytes) => {
            if bytes.len() == len {
                Ok(bytes)
            } else {
                Err(DecodeError::Io(IoFault::Other))
            }
        },
        Err(fault) => Err(DecodeError::Io(fault)),
    }
}

/// Reads one byte.
pub fn read_u8<R: ByteSource>(source: &mut R) -> (byte: DecodeResult<u8>)
    ensures
        old(source).pending() matches Some(before) ==> match grammar::field(before, 1) {
            Ok((first, rest)) => byte == Ok::<u8, DecodeError>(first[0])
                && final(source).pending() == Some(rest),
            Err((error, rest)) => byte == Err::<u8, DecodeError>(error)
                && final(source).pending() == Some(rest),
        },
{
    match source.read_u8() {
        Ok(byte) => Ok(byte),
        Err(fault) => Err(DecodeError::Io(fault)),
    }
}

/// Reads a big-endian unsigned 16-bit integer.
pub fn read_u16<R: ByteSource>(source: &mut R) -> (n: DecodeResult<u16>)
    ensures
        old(source).pending() matches Some(before) ==> scanned(
            grammar::u16_field(before),
            n,
            final(source).pending(),
        ),
{
    match take(source, 2) {
        Ok(bytes) => {
            assert(bytes@.take(2) =~= bytes@);
            Ok(be_u16(bytes.as_slice()))
        },
        Err(error) => Err(error),
    }
}

/// Reads a big-endian signed 16-bit integer.
pub fn read_i16<R: ByteSource>(source: &mut R) -> (n: DecodeResult<i16>)
    ensures
        old(source).pending() matches Some(before) ==> scanned(
            grammar::i16_field(before),
            n,
            final(source).pending(),
        ),
{
    match take(source, 2) {
        Ok(bytes) => {
            assert(bytes@.take(2) =~= bytes@);
            Ok(be_i16(bytes.as_slice()))
        },
        Err(error) => Err(error),
    }
}

/// Reads a big-endian unsigned 32-bit integer.
pub fn read_u32<R: ByteSource>(source: &mut R) -> (n: DecodeResult<u32>)
    ensures
        old(source).pending() matches Some(before) ==> scanned(
            grammar::u32_field(before),
            n,
            final(source).pending(),
        ),
{
    match take(source, 4) {
        Ok(bytes) => {
            assert(bytes@.take(4) =~= bytes@);
            Ok(be_u32(bytes.as_slice()))
        },
        Err(error) => Err(error),
    }
}

/// Reads a big-endian unsigned 64-bit integer.
pub fn read_u64<R: ByteSource>(source: &mut R) -> (n: DecodeResult<u64>)
    ensures
        old(source).pending() matches Some(before) ==> scanned(
            grammar::u64_field(before),
            n,
            final(source).pending(),
        ),
{
    match take(source, 8) {
        Ok(bytes) => {
            assert(bytes@.take(8) =~= bytes@);
            Ok(be_u64(bytes.as_slice()))
        },
        Err(error) => Err(error),
    }
}

/// Reads a text of `len` bytes of UTF-8.
pub fn read_utf8<R: ByteSource>(source: &mut R, len: usize) -> (text: DecodeResult<String>)
    ensures
        old(source).pending() matches Some(before) ==> scanned(
            grammar::text(before, len as nat),
            text_read(text),
            final(source).pending(),
        ),
{
    match take(source, len) {
        Ok(bytes) => match text_from_utf8(bytes) {
            Ok(text) => Ok(text),
            Err(valid_up_to) => Err(DecodeError::String { valid_up_to }),
        },
        Err(error) => Err(error),
    }
}

} // verus!
