//! The format, as a function from bytes to values.
//!
//! Each function here takes the bytes that stand at the front of the input
//! and says what they decode to and which bytes are left. The functions for
//! values that can hold other values also take the reference table and return
//! it as the decoding leaves it, and the depth at which the value stands:
//! the number of objects and arrays around it.
//!
//! Where a function goes on with the bytes that a value has left, it first
//! asks that they are fewer than it began with. That is what lets the
//! definition end; [`crate::progress`] shows that it is always so.

use crate::double::is_valid_millis;
use crate::double::whole_millis;
use crate::error::DecodeError;
use crate::error::IoFault;
use crate::marker;
use crate::sibling::Model;
use crate::sibling::SiblingDecoder;
use crate::table::resolve;
use crate::table::SlotView;
use crate::value::Pair;
use crate::value::ValueView;
use crate::wire::be_value;
use crate::wire::signed16;
use crate::wire::utf8_text;
use vstd::prelude::*;

verus! {

/// How deeply objects and arrays may be nested. A top-level value with
/// `MAX_DEPTH` objects or arrays around its innermost one is the deepest that
/// is decoded. The objects and arrays of a value that a reference stands for
/// count like those that are written out.
pub const MAX_DEPTH: usize = 128;

/// What a scalar decodes to, or the error that it fails with; either with
/// the bytes that are left: on a failure, those that had not been read when
/// the error was met.
pub type Scan<T> = Result<(T, Seq<u8>), (DecodeError, Seq<u8>)>;

/// The outcome of decoding something that may hold nested values.
pub enum Outcome<T, E> {
    /// It decoded to `value`, leaving `rest` of the bytes and the table in
    /// the state `table`.
    Done { value: T, rest: Seq<u8>, table: Seq<SlotView<E>> },
    /// It failed with `error`, leaving `rest` of the bytes and the table in
    /// the state `table`.
    Failed { error: DecodeError, rest: Seq<u8>, table: Seq<SlotView<E>> },
    /// Nothing is said of it: it came upon an embedded value, and the
    /// sibling decoder does not say what it makes of it.
    Unknown,
}

/// The outcome of decoding a value with the sibling decoder `F`.
pub type Decoded<F> = Outcome<ValueView<Model<F>>, Model<F>>;

/// The kinds of value that take a slot of the reference table.
#[derive(Clone, Copy, Debug, PartialEq, Eq)]
pub enum Complex {
    Object,
    TypedObject,
    EcmaArray,
    StrictArray,
}

/// The kind of complex value that `marker` opens, if any.
pub open spec fn complex_kind(marker: u8) -> Option<Complex> {
    if marker == marker::OBJECT {
        Some(Complex::Object)
    } else if marker == marker::TYPED_OBJECT {
        Some(Complex::TypedObject)
    } else if marker == marker::ECMA_ARRAY {
        Some(Complex::EcmaArray)
    } else if marker == marker::STRICT_ARRAY {
        Some(Complex::StrictArray)
    } else {
        None
    }
}

/// The first `width` bytes: the source ends early where fewer are there,
/// and none of them is read.
pub open spec fn field(bytes: Seq<u8>, width: nat) -> Scan<Seq<u8>> {
    if bytes.len() < width {
        Err((DecodeError::Io(IoFault::UnexpectedEof), bytes))
    } else {
        Ok((bytes.take(width as int), bytes.skip(width as int)))
    }
}

/// A big-endian unsigned 16-bit integer.
pub open spec fn u16_field(bytes: Seq<u8>) -> Scan<u16> {
    match field(bytes, 2) {
        Ok((spelled, rest)) => Ok((be_value(spelled) as u16, rest)),
        Err(error) => Err(error),
    }
}

/// A big-endian signed 16-bit integer.
pub open spec fn i16_field(bytes: Seq<u8>) -> Scan<i16> {
    match field(bytes, 2) {
        Ok((spelled, rest)) => Ok((signed16(be_value(spelled)) as i16, rest)),
        Err(error) => Err(error),
    }
}

/// A big-endian unsigned 32-bit integer.
pub open spec fn u32_field(bytes: Seq<u8>) -> Scan<u32> {
    match field(bytes, 4) {
        Ok((spelled, rest)) => Ok((be_value(spelled) as u32, rest)),
        Err(error) => Err(error),
    }
}

/// A big-endian unsigned 64-bit integer.
pub open spec fn u64_field(bytes: Seq<u8>) -> Scan<u64> {
    match field(bytes, 8) {
        Ok((spelled, rest)) => Ok((be_value(spelled) as u64, rest)),
        Err(error) => Err(error),
    }
}

/// A text of `len` bytes of UTF-8.
pub open spec fn text(bytes: Seq<u8>, len: nat) -> Scan<Seq<char>> {
    match field(bytes, len) {
        Ok((encoded, rest)) => match utf8_text(encoded) {
            Ok(chars) => Ok((chars, rest)),
            Err(valid_up_to) => Err(
                (DecodeError::String { valid_up_to: valid_up_to as usize }, rest),
            ),
        },
        Err(error) => Err(error),
    }
}

/// A text behind a 16-bit length.
#[verifier::opaque]
pub open spec fn short_text(bytes: Seq<u8>) -> Scan<Seq<char>> {
    match u16_field(bytes) {
        Ok((len, rest)) => text(rest, len as nat),
        Err(error) => Err(error),
    }
}

/// A text behind a 32-bit length.
#[verifier::opaque]
pub open spec fn long_text(bytes: Seq<u8>) -> Scan<Seq<char>> {
    match u32_field(bytes) {
        Ok((len, rest)) => text(rest, len as nat),
        Err(error) => Err(error),
    }
}

/// A number: the eight bytes of a double, kept bit for bit.
pub open spec fn number<E>(bytes: Seq<u8>) -> Scan<ValueView<E>> {
    match u64_field(bytes) {
        Ok((bits, rest)) => Ok((ValueView::Number(bits), rest)),
        Err(error) => Err(error),
    }
}

/// A boolean: one byte, false where it is zero and true otherwise.
pub open spec fn boolean<E>(bytes: Seq<u8>) -> Scan<ValueView<E>> {
    match field(bytes, 1) {
        Ok((byte, rest)) => Ok((ValueView::Boolean(byte[0] != 0), rest)),
        Err(error) => Err(error),
    }
}

/// A string: a text behind a 16-bit length.
pub open spec fn string<E>(bytes: Seq<u8>) -> Scan<ValueView<E>> {
    match short_text(bytes) {
        Ok((chars, rest)) => Ok((ValueView::String(chars), rest)),
        Err(error) => Err(error),
    }
}

/// A long string: a text behind a 32-bit length. It decodes to a string like
/// a short one.
pub open spec fn long_string<E>(bytes: Seq<u8>) -> Scan<ValueView<E>> {
    match long_text(bytes) {
        Ok((chars, rest)) => Ok((ValueView::String(chars), rest)),
        Err(error) => Err(error),
    }
}

/// An XML document: on the wire a long string, told apart by its marker.
pub open spec fn xml_document<E>(bytes: Seq<u8>) -> Scan<ValueView<E>> {
    match long_text(bytes) {
        Ok((chars, rest)) => Ok((ValueView::XmlDocument(chars), rest)),
        Err(error) => Err(error),
    }
}

/// The date that the double `millis` and the offset `time_zone` make: the
/// whole milliseconds with the offset beside them, not applied. A double that
/// is not finite, or is below zero, makes none; the negative zero makes the
/// date of 0 milliseconds.
pub open spec fn date_of<E>(millis: u64, time_zone: i16) -> Result<ValueView<E>, DecodeError> {
    if is_valid_millis(millis) {
        Ok(ValueView::Date { unix_time: whole_millis(millis), time_zone })
    } else {
        Err(DecodeError::InvalidDate { millis })
    }
}

/// A date: the milliseconds since the epoch as a double, then the time zone
/// offset in minutes as a signed 16-bit integer. Both are read before the
/// double is looked at.
pub open spec fn date<E>(bytes: Seq<u8>) -> Scan<ValueView<E>> {
    match u64_field(bytes) {
        Ok((millis, after_millis)) => match i16_field(after_millis) {
            Ok((time_zone, rest)) => match date_of::<E>(millis, time_zone) {
                Ok(value) => Ok((value, rest)),
                Err(error) => Err((error, rest)),
            },
            Err(error) => Err(error),
        },
        Err(error) => Err(error),
    }
}

/// How high a value may stand at the depth `depth`: with the objects and
/// arrays around it, it is to stay within the limit of nesting.
pub open spec fn room(depth: nat) -> nat {
    if depth <= MAX_DEPTH {
        (MAX_DEPTH - depth) as nat
    } else {
        0
    }
}

/// A reference: a 16-bit index into the table, standing for the value in
/// that slot. The value is to fit under the limit of nesting where the
/// reference stands: a reference to a value that is too high for its place
/// fails like a value that is nested too deeply.
pub open spec fn reference<E>(bytes: Seq<u8>, table: Seq<SlotView<E>>, depth: nat) -> Scan<
    ValueView<E>,
> {
    match u16_field(bytes) {
        Ok((index, rest)) => match resolve(table, index as nat, room(depth)) {
            Ok(value) => Ok((value, rest)),
            Err(error) => Err((error, rest)),
        },
        Err(error) => Err(error),
    }
}

/// The outcome of a scalar: the table stays as it is.
pub open spec fn scalar<E>(scan: Scan<ValueView<E>>, table: Seq<SlotView<E>>) -> Outcome<
    ValueView<E>,
    E,
> {
    match scan {
        Ok((value, rest)) => Outcome::Done { value, rest, table },
        Err((error, rest)) => Outcome::Failed { error, rest, table },
    }
}

/// An embedded value: what the sibling decoder makes of the bytes, wrapped,
/// or the error that it fails with; either with the bytes that it has not
/// read. Nothing is known where the sibling decoder says nothing of the
/// bytes, or claims to read more of them than there are.
pub open spec fn avmplus<F: SiblingDecoder>(
    bytes: Seq<u8>,
    table: Seq<SlotView<Model<F>>>,
) -> Outcome<ValueView<Model<F>>, Model<F>> {
    match F::reading(bytes) {
        Some(handoff) => if handoff.consumed <= bytes.len() {
            let rest = bytes.skip(handoff.consumed as int);
            match handoff.result {
                Ok(embedded) => Outcome::Done { value: ValueView::AvmPlus(embedded), rest, table },
                Err(error) => Outcome::Failed { error, rest, table },
            }
        } else {
            Outcome::Unknown
        },
        None => Outcome::Unknown,
    }
}

/// `outcome` with what it decoded to made into another value by `make`.
pub open spec fn mapped<T, U, E>(outcome: Outcome<T, E>, make: spec_fn(T) -> U) -> Outcome<U, E> {
    match outcome {
        Outcome::Done { value, rest, table } => Outcome::Done { value: make(value), rest, table },
        Outcome::Failed { error, rest, table } => Outcome::Failed { error, rest, table },
        Outcome::Unknown => Outcome::Unknown,
    }
}

/// `outcome` with `front` put before what it decoded to.
pub open spec fn preceded<T, E>(front: Seq<T>, outcome: Outcome<Seq<T>, E>) -> Outcome<Seq<T>, E> {
    match outcome {
        Outcome::Done { value, rest, table } => Outcome::Done { value: front + value, rest, table },
        Outcome::Failed { error, rest, table } => Outcome::Failed { error, rest, table },
        Outcome::Unknown => Outcome::Unknown,
    }
}

/// Putting `front` and then `middle` before an outcome is putting both before
/// it at once.
pub proof fn lemma_preceded_twice<T, E>(front: Seq<T>, middle: Seq<T>, outcome: Outcome<Seq<T>, E>)
    ensures
        preceded(front, preceded(middle, outcome)) == preceded(front + middle, outcome),
{
    if let Outcome::Done { value, rest, table } = outcome {
        assert(front + (middle + value) =~= (front + middle) + value);
    }
}

/// One value: a marker byte, then what the marker calls for.
pub open spec fn value<F: SiblingDecoder>(
    bytes: Seq<u8>,
    table: Seq<SlotView<Model<F>>>,
    depth: nat,
) -> Decoded<F>
    decreases bytes.len(), 0nat,
{
    if bytes.len() == 0 {
        Outcome::Failed { error: DecodeError::Io(IoFault::UnexpectedEof), rest: bytes, table }
    } else {
        marked::<F>(bytes[0], bytes.skip(1), table, depth)
    }
}

/// The value that follows the marker byte `marker`, where that is a value
/// with no value inside it, or no value at all: a scalar, a reference, or a
/// marker that stands for an error, which fails with no byte read behind
/// the marker. For the markers of complex values and of embedded values
/// there is none.
#[verifier::opaque]
pub open spec fn leaf<E>(
    marker: u8,
    bytes: Seq<u8>,
    table: Seq<SlotView<E>>,
    depth: nat,
) -> Option<Outcome<ValueView<E>, E>> {
    if marker == marker::NUMBER {
        Some(scalar(number(bytes), table))
    } else if marker == marker::BOOLEAN {
        Some(scalar(boolean(bytes), table))
    } else if marker == marker::STRING {
        Some(scalar(string(bytes), table))
    } else if marker == marker::NULL {
        Some(Outcome::Done { value: ValueView::Null, rest: bytes, table })
    } else if marker == marker::UNDEFINED {
        Some(Outcome::Done { value: ValueView::Undefined, rest: bytes, table })
    } else if marker == marker::REFERENCE {
        Some(scalar(reference(bytes, table, depth), table))
    } else if marker == marker::DATE {
        Some(scalar(date(bytes), table))
    } else if marker == marker::LONG_STRING {
        Some(scalar(long_string(bytes), table))
    } else if marker == marker::XML_DOCUMENT {
        Some(scalar(xml_document(bytes), table))
    } else if marker == marker::OBJECT_END_MARKER {
        Some(Outcome::Failed { error: DecodeError::UnexpectedObjectEnd, rest: bytes, table })
    } else if marker::is_unsupported(marker) {
        Some(Outcome::Failed { error: DecodeError::Unsupported { marker }, rest: bytes, table })
    } else if !marker::is_defined(marker) {
        Some(Outcome::Failed { error: DecodeError::Unknown { marker }, rest: bytes, table })
    } else {
        None
    }
}

/// The value that follows the marker byte `marker`: a leaf, a complex value,
/// or, under the one marker that is left, an embedded value.
pub open spec fn marked<F: SiblingDecoder>(
    marker: u8,
    bytes: Seq<u8>,
    table: Seq<SlotView<Model<F>>>,
    depth: nat,
) -> Decoded<F>
    decreases bytes.len(), 4nat,
{
    match leaf(marker, bytes, table, depth) {
        Some(outcome) => outcome,
        None => match complex_kind(marker) {
            Some(kind) => complex::<F>(kind, bytes, table, depth),
            None => avmplus::<F>(bytes, table),
        },
    }
}

/// A complex value: it takes the next slot of the table, its content is
/// decoded one level further down, and the slot is filled with the value
/// once the content has decoded. Where the content fails the slot stays
/// reserved. Where there is no level further down, the value fails with no
/// byte read and no slot taken.
pub open spec fn complex<F: SiblingDecoder>(
    kind: Complex,
    bytes: Seq<u8>,
    table: Seq<SlotView<Model<F>>>,
    depth: nat,
) -> Decoded<F>
    decreases bytes.len(), 3nat,
{
    if depth >= MAX_DEPTH {
        Outcome::Failed { error: DecodeError::RecursionLimitExceeded, rest: bytes, table }
    } else {
        match content::<F>(kind, bytes, table.push(SlotView::Reserved), depth + 1) {
            Outcome::Done { value, rest, table: filled } => Outcome::Done {
                value,
                rest,
                table: filled.update(table.len() as int, SlotView::Ready(value)),
            },
            Outcome::Failed { error, rest, table: left } => Outcome::Failed {
                error,
                rest,
                table: left,
            },
            Outcome::Unknown => Outcome::Unknown,
        }
    }
}

/// The content of a complex value of the kind `kind`.
///
/// An object is a run of pairs. A typed object has its class name before
/// them. An associative array has a 32-bit count before them, which is read
/// and not used: the run ends where its end is marked. A strict array is a
/// 32-bit count and that many values.
pub open spec fn content<F: SiblingDecoder>(
    kind: Complex,
    bytes: Seq<u8>,
    table: Seq<SlotView<Model<F>>>,
    depth: nat,
) -> Decoded<F>
    decreases bytes.len(), 2nat,
    via content_terminates::<F>
{
    match kind {
        Complex::Object => mapped(
            pairs::<F>(bytes, table, depth),
            |entries| ValueView::Object { class_name: None, entries },
        ),
        Complex::TypedObject => match short_text(bytes) {
            Ok((class_name, after_name)) => mapped(
                pairs::<F>(after_name, table, depth),
                |entries| ValueView::Object { class_name: Some(class_name), entries },
            ),
            Err((error, rest)) => Outcome::Failed { error, rest, table },
        },
        Complex::EcmaArray => match u32_field(bytes) {
            Ok((_, after_count)) => mapped(
                pairs::<F>(after_count, table, depth),
                |entries| ValueView::EcmaArray { entries },
            ),
            Err((error, rest)) => Outcome::Failed { error, rest, table },
        },
        Complex::StrictArray => match u32_field(bytes) {
            Ok((count, after_count)) => mapped(
                values::<F>(after_count, table, depth, count as nat),
                |entries| ValueView::Array { entries },
            ),
            Err((error, rest)) => Outcome::Failed { error, rest, table },
        },
    }
}

#[via_fn]
proof fn content_terminates<F: SiblingDecoder>(
    kind: Complex,
    bytes: Seq<u8>,
    table: Seq<SlotView<Model<F>>>,
    depth: nat,
) {
    reveal(short_text);
}

#[via_fn]
proof fn pairs_terminates<F: SiblingDecoder>(
    bytes: Seq<u8>,
    table: Seq<SlotView<Model<F>>>,
    depth: nat,
) {
    reveal(short_text);
}

/// A run of key and value pairs, up to its end mark.
///
/// Each pair is a key, written as a text behind a 16-bit length, and a
/// value. The run ends at an empty key with the object-end marker right
/// behind it; those three bytes make no pair. An empty key before any other
/// marker is the key of a pair like any other, and an object-end marker
/// behind a key that is not empty is an error.
pub open spec fn pairs<F: SiblingDecoder>(
    bytes: Seq<u8>,
    table: Seq<SlotView<Model<F>>>,
    depth: nat,
) -> Outcome<Seq<Pair<Seq<char>, ValueView<Model<F>>>>, Model<F>>
    decreases bytes.len(), 1nat,
    via pairs_terminates::<F>
{
    match short_text(bytes) {
        Ok((key, after_key)) => if after_key.len() == 0 {
            Outcome::Failed {
                error: DecodeError::Io(IoFault::UnexpectedEof),
                rest: after_key,
                table,
            }
        } else if key.len() == 0 && after_key[0] == marker::OBJECT_END_MARKER {
            Outcome::Done { value: Seq::empty(), rest: after_key.skip(1), table }
        } else {
            match marked::<F>(after_key[0], after_key.skip(1), table, depth) {
                Outcome::Done { value, rest, table: after } => if rest.len() < bytes.len() {
                    preceded(seq![Pair { key, value }], pairs::<F>(rest, after, depth))
                } else {
                    Outcome::Unknown
                },
                Outcome::Failed { error, rest, table: left } => Outcome::Failed {
                error,
                rest,
                table: left,
            },
                Outcome::Unknown => Outcome::Unknown,
            }
        },
        Err((error, rest)) => Outcome::Failed { error, rest, table },
    }
}

/// `count` values, one after the other.
pub open spec fn values<F: SiblingDecoder>(
    bytes: Seq<u8>,
    table: Seq<SlotView<Model<F>>>,
    depth: nat,
    count: nat,
) -> Outcome<Seq<ValueView<Model<F>>>, Model<F>>
    decreases bytes.len(), 1nat,
{
    if count == 0 {
        Outcome::Done { value: Seq::empty(), rest: bytes, table }
    } else {
        match value::<F>(bytes, table, depth) {
            Outcome::Done { value: first, rest, table: after } => if rest.len() < bytes.len() {
                preceded(seq![first], values::<F>(rest, after, depth, (count - 1) as nat))
            } else {
                Outcome::Unknown
            },
            Outcome::Failed { error, rest, table: left } => Outcome::Failed {
                error,
                rest,
                table: left,
            },
            Outcome::Unknown => Outcome::Unknown,
        }
    }
}

/// All the values of `bytes`: top-level values one after the other, until no
/// byte is left.
pub open spec fn stream<F: SiblingDecoder>(
    bytes: Seq<u8>,
    table: Seq<SlotView<Model<F>>>,
) -> Outcome<Seq<ValueView<Model<F>>>, Model<F>>
    decreases bytes.len(), 1nat,
{
    if bytes.len() == 0 {
        Outcome::Done { value: Seq::empty(), rest: bytes, table }
    } else {
        match value::<F>(bytes, table, 0) {
            Outcome::Done { value: first, rest, table: after } => if rest.len() < bytes.len() {
                preceded(seq![first], stream::<F>(rest, after))
            } else {
                Outcome::Unknown
            },
            Outcome::Failed { error, rest, table: left } => Outcome::Failed {
                error,
                rest,
                table: left,
            },
            Outcome::Unknown => Outcome::Unknown,
        }
    }
}

} // verus!
