//! What holds of the values of the format, kind by kind.

use crate::double::is_valid_millis;
use crate::double::whole_millis;
use crate::double::NEGATIVE_ZERO;
use crate::error::DecodeError;
use crate::grammar;
use crate::grammar::Complex;
use crate::grammar::Decoded;
use crate::grammar::MAX_DEPTH;
use crate::grammar::Outcome;
use crate::marker;
use crate::progress::lemma_marked_orderly;
use crate::progress::lemma_short_text_tail;
use crate::progress::lemma_value_orderly;
use crate::sibling::Model;
use crate::sibling::SiblingDecoder;
use crate::table::SlotView;
use crate::value::height;
use crate::value::Pair;
use crate::value::ValueView;
use crate::wire::be_bytes;
use crate::wire::be_limit;
use crate::wire::be_value;
use crate::wire::lemma_be_limits;
use crate::wire::lemma_be_round_trip;
use crate::wire::signed16;
use vstd::prelude::*;
use vstd::utf8::decode_utf8;
use vstd::utf8::encode_utf8;
use vstd::utf8::valid_utf8;

verus! {

/// The bit pattern that spells `n` as a 16-bit two's complement number.
pub open spec fn pattern16(n: i16) -> nat {
    if n >= 0 {
        n as nat
    } else {
        (n + 0x1_0000) as nat
    }
}

/// Reading a field that was written with `be_bytes` gives the number back
/// and leaves what follows it.
pub proof fn lemma_field_written(value: nat, width: nat, tail: Seq<u8>)
    requires
        value < be_limit(width),
    ensures
        grammar::field(be_bytes(value, width) + tail, width) == Ok::<
            (Seq<u8>, Seq<u8>),
            (DecodeError, Seq<u8>),
        >((be_bytes(value, width), tail)),
        be_value(be_bytes(value, width)) == value,
{
    lemma_be_round_trip(value, width);
    let bytes = be_bytes(value, width) + tail;
    assert(bytes.take(width as int) =~= be_bytes(value, width));
    assert(bytes.skip(width as int) =~= tail);
}

/// A number decodes to the double that was written, bit for bit: zeros of
/// either sign, subnormals, infinities and NaNs with any payload come back
/// as they went in. Its eight bytes are read, and behind its marker the
/// value reads those and leaves the table as it was.
pub proof fn law_number_keeps_its_bits<F: SiblingDecoder>(
    bits: u64,
    tail: Seq<u8>,
    table: Seq<SlotView<Model<F>>>,
    depth: nat,
)
    ensures
        grammar::number::<Model<F>>(be_bytes(bits as nat, 8) + tail) == Ok::<
            (ValueView<Model<F>>, Seq<u8>),
            (DecodeError, Seq<u8>),
        >((ValueView::Number(bits), tail)),
        grammar::value::<F>(seq![marker::NUMBER] + (be_bytes(bits as nat, 8) + tail), table, depth)
            == (Decoded::<F>::Done { value: ValueView::Number(bits), rest: tail, table }),
{
    reveal(grammar::leaf);
    lemma_be_limits();
    lemma_field_written(bits as nat, 8, tail);
    let bytes = seq![marker::NUMBER] + (be_bytes(bits as nat, 8) + tail);
    assert(bytes.skip(1) =~= be_bytes(bits as nat, 8) + tail);
}

/// A boolean is false where its byte is zero and true where it is anything
/// else. That one byte is read, and the table stays as it was.
pub proof fn law_boolean_is_nonzero<F: SiblingDecoder>(
    byte: u8,
    tail: Seq<u8>,
    table: Seq<SlotView<Model<F>>>,
    depth: nat,
)
    ensures
        grammar::boolean::<Model<F>>(seq![byte] + tail) == Ok::<
            (ValueView<Model<F>>, Seq<u8>),
            (DecodeError, Seq<u8>),
        >((ValueView::Boolean(byte != 0), tail)),
        grammar::value::<F>(seq![marker::BOOLEAN, byte] + tail, table, depth) == (
        Decoded::<F>::Done { value: ValueView::Boolean(byte != 0), rest: tail, table }),
{
    reveal(grammar::leaf);
    let bytes = seq![marker::BOOLEAN, byte] + tail;
    assert(bytes.skip(1) =~= seq![byte] + tail);
    assert((seq![byte] + tail).skip(1) =~= tail);
    assert((seq![byte] + tail).take(1) =~= seq![byte]);
}

/// Null and undefined are their marker and nothing more: no byte behind the
/// marker is read.
pub proof fn law_null_and_undefined_read_nothing<F: SiblingDecoder>(
    tail: Seq<u8>,
    table: Seq<SlotView<Model<F>>>,
    depth: nat,
)
    ensures
        grammar::value::<F>(seq![marker::NULL] + tail, table, depth) == (Decoded::<F>::Done {
            value: ValueView::Null,
            rest: tail,
            table,
        }),
        grammar::value::<F>(seq![marker::UNDEFINED] + tail, table, depth) == (
        Decoded::<F>::Done { value: ValueView::Undefined, rest: tail, table }),
{
    reveal(grammar::leaf);
    assert((seq![marker::NULL] + tail).skip(1) =~= tail);
    assert((seq![marker::UNDEFINED] + tail).skip(1) =~= tail);
}

/// A reference stands for the value in the slot it names. It fails as out
/// of range where the table has no such slot, and as circular where the slot
/// is reserved: a value that is still being decoded cannot be referred to,
/// by itself or by a value inside it. It fails as nested too deeply where
/// the value in the slot is too high for the place of the reference. In each
/// case the marker and the two bytes of the index are read, no byte more,
/// and the table stays as it is.
pub proof fn law_reference_resolves<F: SiblingDecoder>(
    index: u16,
    tail: Seq<u8>,
    table: Seq<SlotView<Model<F>>>,
    depth: nat,
)
    requires
        depth <= MAX_DEPTH,
    ensures
        grammar::value::<F>(
            seq![marker::REFERENCE] + (be_bytes(index as nat, 2) + tail),
            table,
            depth,
        ) == (if index >= table.len() {
            Decoded::<F>::Failed {
                error: DecodeError::OutOfRangeReference { index: index as usize },
                rest: tail,
                table,
            }
        } else {
            match table[index as int] {
                SlotView::Reserved => Outcome::Failed {
                    error: DecodeError::CircularReference { index: index as usize },
                    rest: tail,
                    table,
                },
                SlotView::Ready(value) => if height(value) + depth <= MAX_DEPTH {
                    Outcome::Done { value, rest: tail, table }
                } else {
                    Outcome::Failed {
                        error: DecodeError::RecursionLimitExceeded,
                        rest: tail,
                        table,
                    }
                },
            }
        }),
{
    reveal(grammar::leaf);
    lemma_be_limits();
    lemma_field_written(index as nat, 2, tail);
    let bytes = seq![marker::REFERENCE] + (be_bytes(index as nat, 2) + tail);
    assert(bytes.skip(1) =~= be_bytes(index as nat, 2) + tail);
}

/// An empty key with the object-end marker behind it ends a run of pairs
/// and adds no pair to it.
pub proof fn law_pairs_end_at_their_mark<F: SiblingDecoder>(
    tail: Seq<u8>,
    table: Seq<SlotView<Model<F>>>,
    depth: nat,
)
    ensures
        grammar::pairs::<F>(seq![0u8, 0u8, marker::OBJECT_END_MARKER] + tail, table, depth) == (
        Outcome::Done::<Seq<Pair<Seq<char>, ValueView<Model<F>>>>, Model<F>> {
            value: Seq::empty(),
            rest: tail,
            table,
        }),
{
    reveal(grammar::short_text);
    let bytes = seq![0u8, 0u8, marker::OBJECT_END_MARKER] + tail;
    lemma_be_limits();
    lemma_field_written(0, 2, seq![marker::OBJECT_END_MARKER] + tail);
    reveal_with_fuel(be_bytes, 3);
    assert(be_bytes(0, 2) =~= seq![0u8, 0u8]);
    assert(bytes =~= be_bytes(0, 2) + (seq![marker::OBJECT_END_MARKER] + tail));
    let after_len = seq![marker::OBJECT_END_MARKER] + tail;
    assert(after_len.take(0) =~= Seq::<u8>::empty());
    assert(after_len.skip(0) =~= after_len);
    assert(after_len.skip(1) =~= tail);
    assert(valid_utf8(Seq::<u8>::empty()));
    assert(decode_utf8(Seq::<u8>::empty()).len() == 0);
}

/// The object-end marker behind a key that is not empty is an error: the
/// run of pairs fails with the marker read and no byte behind it, and the
/// pending key makes no pair.
pub proof fn law_pairs_reject_a_stray_end<F: SiblingDecoder>(
    key: Seq<u8>,
    tail: Seq<u8>,
    table: Seq<SlotView<Model<F>>>,
    depth: nat,
)
    requires
        0 < key.len() < 0x1_0000,
        valid_utf8(key),
    ensures
        grammar::pairs::<F>(
            be_bytes(key.len(), 2) + (key + (seq![marker::OBJECT_END_MARKER] + tail)),
            table,
            depth,
        ) == (Outcome::Failed::<Seq<Pair<Seq<char>, ValueView<Model<F>>>>, Model<F>> {
            error: DecodeError::UnexpectedObjectEnd,
            rest: tail,
            table,
        }),
{
    reveal(grammar::short_text);
    reveal(grammar::leaf);
    lemma_be_limits();
    let after_key = seq![marker::OBJECT_END_MARKER] + tail;
    let after_len = key + after_key;
    lemma_field_written(key.len(), 2, after_len);
    assert(after_len.take(key.len() as int) =~= key);
    assert(after_len.skip(key.len() as int) =~= after_key);
    assert(decode_utf8(key).len() > 0);
    assert(after_key.skip(1) =~= tail);
    assert(grammar::marked::<F>(marker::OBJECT_END_MARKER, tail, table, depth) == (
    Decoded::<F>::Failed { error: DecodeError::UnexpectedObjectEnd, rest: tail, table }));
}

/// A date is made of its double and its offset where the double is finite
/// and not below zero, and fails with the double otherwise. So -1 and the
/// positive infinity fail, and each of the two zeros makes the date of 0
/// milliseconds with any offset. The ten bytes of the double and the offset
/// are read either way.
pub proof fn law_date_wants_valid_millis<F: SiblingDecoder>(
    millis: u64,
    time_zone: i16,
    tail: Seq<u8>,
    table: Seq<SlotView<Model<F>>>,
    depth: nat,
)
    ensures
        grammar::value::<F>(
            seq![marker::DATE] + (be_bytes(millis as nat, 8) + (be_bytes(pattern16(time_zone), 2)
                + tail)),
            table,
            depth,
        ) == (if is_valid_millis(millis) {
            Decoded::<F>::Done {
                value: ValueView::Date { unix_time: whole_millis(millis), time_zone },
                rest: tail,
                table,
            }
        } else {
            Outcome::Failed { error: DecodeError::InvalidDate { millis }, rest: tail, table }
        }),
        !is_valid_millis(0xbff0_0000_0000_0000),
        !is_valid_millis(0x7ff0_0000_0000_0000),
        is_valid_millis(0) && whole_millis(0) == 0,
        is_valid_millis(NEGATIVE_ZERO) && whole_millis(NEGATIVE_ZERO) == 0,
{
    reveal(grammar::leaf);
    lemma_be_limits();
    let after_millis = be_bytes(pattern16(time_zone), 2) + tail;
    lemma_field_written(millis as nat, 8, after_millis);
    lemma_field_written(pattern16(time_zone), 2, tail);
    let bytes = seq![marker::DATE] + (be_bytes(millis as nat, 8) + after_millis);
    assert(bytes.skip(1) =~= be_bytes(millis as nat, 8) + after_millis);
    assert(signed16(pattern16(time_zone)) == time_zone);
}

/// A byte that the format does not define as a marker fails as unknown, and
/// the error holds the byte. A marker of a type that is not decoded fails
/// as unsupported, and the object-end marker where a value is expected
/// fails as such. Each of them fails with that one byte read and the table
/// as it was.
pub proof fn law_markers_without_a_value<F: SiblingDecoder>(
    marker: u8,
    tail: Seq<u8>,
    table: Seq<SlotView<Model<F>>>,
    depth: nat,
)
    ensures
        !marker::is_defined(marker) ==> grammar::value::<F>(seq![marker] + tail, table, depth) == (
        Decoded::<F>::Failed { error: DecodeError::Unknown { marker }, rest: tail, table }),
        marker::is_unsupported(marker) ==> grammar::value::<F>(seq![marker] + tail, table, depth)
            == (Decoded::<F>::Failed {
            error: DecodeError::Unsupported { marker },
            rest: tail,
            table,
        }),
        marker == marker::OBJECT_END_MARKER ==> grammar::value::<F>(
            seq![marker] + tail,
            table,
            depth,
        ) == (Decoded::<F>::Failed {
            error: DecodeError::UnexpectedObjectEnd,
            rest: tail,
            table,
        }),
{
    reveal(grammar::leaf);
    assert((seq![marker] + tail).skip(1) =~= tail);
}

/// A row of values is its first value and then the others: they stand in
/// the order in which they were written, there are as many as the count
/// says, and a count of zero reads nothing. The first value that fails
/// fails the row.
pub proof fn law_values_come_in_order<F: SiblingDecoder>(
    bytes: Seq<u8>,
    table: Seq<SlotView<Model<F>>>,
    depth: nat,
    count: nat,
)
    ensures
        grammar::values::<F>(bytes, table, depth, 0) == (Outcome::Done::<
            Seq<ValueView<Model<F>>>,
            Model<F>,
        > { value: Seq::empty(), rest: bytes, table }),
        grammar::values::<F>(bytes, table, depth, count + 1) == (match grammar::value::<F>(
            bytes,
            table,
            depth,
        ) {
            Outcome::Done { value: first, rest, table: after } => grammar::preceded(
                seq![first],
                grammar::values::<F>(rest, after, depth, count),
            ),
            Outcome::Failed { error, rest, table: left } => Outcome::Failed {
                error,
                rest,
                table: left,
            },
            Outcome::Unknown => Outcome::Unknown,
        }),
        grammar::values::<F>(bytes, table, depth, count) matches Outcome::Done { value, .. }
            ==> value.len() == count,
    decreases count,
{
    lemma_value_orderly::<F>(bytes, table, depth);
    if count > 0 {
        if let Outcome::Done { value: first, rest, table: after } = grammar::value::<F>(
            bytes,
            table,
            depth,
        ) {
            law_values_come_in_order::<F>(rest, after, depth, (count - 1) as nat);
        }
    }
}

/// A strict array with the count zero is the empty array. It reads its
/// count and nothing more, and takes its slot like any other array.
pub proof fn law_empty_array<F: SiblingDecoder>(
    tail: Seq<u8>,
    table: Seq<SlotView<Model<F>>>,
    depth: nat,
)
    requires
        depth < MAX_DEPTH,
    ensures
        grammar::value::<F>(seq![marker::STRICT_ARRAY] + (be_bytes(0, 4) + tail), table, depth)
            == (Decoded::<F>::Done {
            value: ValueView::Array { entries: Seq::empty() },
            rest: tail,
            table: table.push(SlotView::Ready(ValueView::Array { entries: Seq::empty() })),
        }),
{
    reveal(grammar::leaf);
    lemma_be_limits();
    lemma_field_written(0, 4, tail);
    let bytes = seq![marker::STRICT_ARRAY] + (be_bytes(0, 4) + tail);
    let after_marker = be_bytes(0, 4) + tail;
    assert(bytes.skip(1) =~= after_marker);
    let empty = ValueView::<Model<F>>::Array { entries: Seq::empty() };
    let reserved = table.push(SlotView::Reserved);
    assert(grammar::values::<F>(tail, reserved, depth + 1, 0) == (Outcome::Done::<
        Seq<ValueView<Model<F>>>,
        Model<F>,
    > { value: Seq::empty(), rest: tail, table: reserved }));
    assert(grammar::content::<F>(Complex::StrictArray, after_marker, reserved, depth + 1) == (
    Decoded::<F>::Done { value: empty, rest: tail, table: reserved }));
    assert(reserved.update(table.len() as int, SlotView::Ready(empty)) =~= table.push(
        SlotView::Ready(empty),
    ));
    assert(grammar::complex::<F>(Complex::StrictArray, after_marker, table, depth) == (
    Decoded::<F>::Done {
        value: empty,
        rest: tail,
        table: table.push(SlotView::Ready(empty)),
    }));
}

/// An object cannot hold a reference to itself: while its pairs are
/// decoded its slot is reserved, and the reference fails as circular.
pub proof fn law_object_cannot_refer_to_itself<F: SiblingDecoder>(
    key: Seq<u8>,
    tail: Seq<u8>,
    table: Seq<SlotView<Model<F>>>,
    depth: nat,
)
    requires
        depth < MAX_DEPTH,
        key.len() < 0x1_0000,
        table.len() < 0x1_0000,
        valid_utf8(key),
    ensures
        grammar::value::<F>(
            seq![marker::OBJECT] + (be_bytes(key.len(), 2) + (key + (seq![marker::REFERENCE] + (
            be_bytes(table.len(), 2) + tail)))),
            table,
            depth,
        ) == (Decoded::<F>::Failed {
            error: DecodeError::CircularReference { index: table.len() as usize },
            rest: tail,
            table: table.push(SlotView::Reserved),
        }),
{
    reveal(grammar::short_text);
    reveal(grammar::leaf);
    lemma_be_limits();
    let index = be_bytes(table.len(), 2) + tail;
    let after_key = seq![marker::REFERENCE] + index;
    let after_len = key + after_key;
    let after_marker = be_bytes(key.len(), 2) + after_len;
    let bytes = seq![marker::OBJECT] + after_marker;
    let reserved = table.push(SlotView::<Model<F>>::Reserved);
    lemma_field_written(key.len(), 2, after_len);
    lemma_field_written(table.len(), 2, tail);
    assert(bytes.skip(1) =~= after_marker);
    assert(after_len.take(key.len() as int) =~= key);
    assert(after_len.skip(key.len() as int) =~= after_key);
    assert(after_key.skip(1) =~= index);
    assert(grammar::marked::<F>(marker::REFERENCE, index, reserved, depth + 1) == (
    Decoded::<F>::Failed {
        error: DecodeError::CircularReference { index: table.len() as usize },
        rest: tail,
        table: reserved,
    }));
    assert(grammar::pairs::<F>(after_marker, reserved, depth + 1) == (Outcome::Failed::<
        Seq<Pair<Seq<char>, ValueView<Model<F>>>>,
        Model<F>,
    > {
        error: DecodeError::CircularReference { index: table.len() as usize },
        rest: tail,
        table: reserved,
    }));
    assert(grammar::content::<F>(Complex::Object, after_marker, reserved, depth + 1) == (
    Decoded::<F>::Failed {
        error: DecodeError::CircularReference { index: table.len() as usize },
        rest: tail,
        table: reserved,
    }));
    assert(grammar::complex::<F>(Complex::Object, after_marker, table, depth) == (
    Decoded::<F>::Failed {
        error: DecodeError::CircularReference { index: table.len() as usize },
        rest: tail,
        table: reserved,
    }));
}

/// Objects and arrays nested more deeply than the limit are refused: no
/// byte behind their marker is read, and they take no slot.
pub proof fn law_nesting_is_limited<F: SiblingDecoder>(
    kind: Complex,
    bytes: Seq<u8>,
    table: Seq<SlotView<Model<F>>>,
    depth: nat,
)
    requires
        depth >= MAX_DEPTH,
    ensures
        grammar::complex::<F>(kind, bytes, table, depth) == (Outcome::Failed::<
            ValueView<Model<F>>,
            Model<F>,
        > { error: DecodeError::RecursionLimitExceeded, rest: bytes, table }),
{
}

/// A run of pairs is its first pair and then the others: the pairs stand
/// in the order in which they were written, and a key that comes again makes
/// a pair again. A pair whose value fails fails the run.
pub proof fn law_pairs_come_in_order<F: SiblingDecoder>(
    bytes: Seq<u8>,
    table: Seq<SlotView<Model<F>>>,
    depth: nat,
)
    requires
        grammar::short_text(bytes) matches Ok((key, after_key)) && after_key.len() > 0 && !(
        key.len() == 0 && after_key[0] == marker::OBJECT_END_MARKER),
    ensures
        grammar::short_text(bytes) matches Ok((key, after_key)) && grammar::pairs::<F>(
            bytes,
            table,
            depth,
        ) == (match grammar::marked::<F>(after_key[0], after_key.skip(1), table, depth) {
            Outcome::Done { value, rest, table: after } => grammar::preceded(
                seq![Pair { key, value }],
                grammar::pairs::<F>(rest, after, depth),
            ),
            Outcome::Failed { error, rest, table: left } => Outcome::Failed {
                error,
                rest,
                table: left,
            },
            Outcome::Unknown => Outcome::Unknown,
        }),
{
    lemma_short_text_tail(bytes);
    let (key, after_key) = grammar::short_text(bytes)->Ok_0;
    lemma_marked_orderly::<F>(after_key[0], after_key.skip(1), table, depth);
}

/// A string decodes to the characters that were written: the bytes of the
/// UTF-8 encoding of a text, behind their number, are that text.
pub proof fn law_string_keeps_its_text<F: SiblingDecoder>(
    chars: Seq<char>,
    tail: Seq<u8>,
    table: Seq<SlotView<Model<F>>>,
    depth: nat,
)
    requires
        encode_utf8(chars).len() < 0x1_0000,
    ensures
        grammar::value::<F>(
            seq![marker::STRING] + (be_bytes(encode_utf8(chars).len(), 2) + (encode_utf8(chars)
                + tail)),
            table,
            depth,
        ) == (Decoded::<F>::Done {
            value: ValueView::String(chars),
            rest: tail,
            table,
        }),
{
    reveal(grammar::leaf);
    reveal(grammar::short_text);
    lemma_be_limits();
    let encoded = encode_utf8(chars);
    let after_len = encoded + tail;
    let after_marker = be_bytes(encoded.len(), 2) + after_len;
    lemma_field_written(encoded.len(), 2, after_len);
    assert((seq![marker::STRING] + after_marker).skip(1) =~= after_marker);
    assert(after_len.take(encoded.len() as int) =~= encoded);
    assert(after_len.skip(encoded.len() as int) =~= tail);
    vstd::utf8::encode_utf8_valid_utf8(chars);
    vstd::utf8::encode_utf8_decode_utf8(chars);
}

} // verus!
