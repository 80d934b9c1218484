//! Decoding moves forward.
//!
//! Whatever the input, a decode step leaves a tail of the bytes it was
//! given, reads at least the bytes that its grammar has at the least, and
//! only adds to the reference table. So the comparisons of lengths in
//! [`crate::grammar`], which are there for its definitions to end, never
//! fail, and an outcome is unknown only where the sibling decoder is.

use crate::grammar;
use crate::grammar::Complex;
use crate::grammar::MAX_DEPTH;
use crate::grammar::Outcome;
use crate::marker;
use crate::sibling::Model;
use crate::sibling::NoSibling;
use crate::sibling::SiblingDecoder;
use crate::table::extends;
use crate::table::SlotView;
use crate::value::Pair;
use crate::value::ValueView;
use vstd::prelude::*;

verus! {

/// Whether the sibling decoder says of every input what it makes of it, and
/// never claims to read more bytes than there are.
pub open spec fn sibling_known<F: SiblingDecoder>() -> bool {
    forall|bytes: Seq<u8>|
        (#[trigger] F::reading(bytes)) matches Some(handoff) && handoff.consumed <= bytes.len()
}

/// Whether `rest` is the tail of `bytes` that is left when `least` bytes or
/// more have been read off their front.
pub open spec fn tail_of(bytes: Seq<u8>, rest: Seq<u8>, least: nat) -> bool {
    rest.len() + least <= bytes.len() && rest == bytes.skip(bytes.len() - rest.len())
}

/// Whether every slot that `after` has beyond those of `before` is filled.
pub open spec fn filled<E>(before: Seq<SlotView<E>>, after: Seq<SlotView<E>>) -> bool {
    forall|i: int| before.len() <= i < after.len() ==> (#[trigger] after[i]) is Ready
}

/// Whether `outcome` is one that decoding `bytes` with the table `table` can
/// have. Where it is a success, what is left of the bytes is their tail,
/// shorter by at least `least` bytes, and every slot that was taken on the
/// way is filled. On a success and on a failure alike, what is left is a
/// tail of the bytes, and every slot that the table had is still there as
/// it was. And the outcome is unknown only where the sibling decoder is.
pub open spec fn orderly<T, F: SiblingDecoder>(
    bytes: Seq<u8>,
    table: Seq<SlotView<Model<F>>>,
    outcome: Outcome<T, Model<F>>,
    least: nat,
) -> bool {
    match outcome {
        Outcome::Done { value, rest, table: after } => tail_of(bytes, rest, least) && extends(
            table,
            after,
        ) && filled(table, after),
        Outcome::Failed { error, rest, table: after } => tail_of(bytes, rest, 0) && extends(
            table,
            after,
        ),
        Outcome::Unknown => !sibling_known::<F>(),
    }
}

/// The tail of a tail is a tail.
pub proof fn lemma_tail_of_tail(
    bytes: Seq<u8>,
    middle: Seq<u8>,
    rest: Seq<u8>,
    first: nat,
    second: nat,
)
    requires
        tail_of(bytes, middle, first),
        tail_of(middle, rest, second),
    ensures
        tail_of(bytes, rest, first + second),
{
    assert(rest =~= bytes.skip(bytes.len() - rest.len()));
}

/// Whether what `scan` leaves of `bytes` is their tail: shorter by `least`
/// bytes or more where the scan succeeds.
pub open spec fn leaves_tail<T>(bytes: Seq<u8>, scan: grammar::Scan<T>, least: nat) -> bool {
    match scan {
        Ok((_, rest)) => tail_of(bytes, rest, least),
        Err((_, rest)) => tail_of(bytes, rest, 0),
    }
}

/// What is left after a field is the tail of the bytes.
pub proof fn lemma_field_tail(bytes: Seq<u8>, width: nat)
    ensures
        leaves_tail(bytes, grammar::field(bytes, width), width),
        leaves_tail(bytes, grammar::u16_field(bytes), 2),
        leaves_tail(bytes, grammar::i16_field(bytes), 2),
        leaves_tail(bytes, grammar::u32_field(bytes), 4),
        leaves_tail(bytes, grammar::u64_field(bytes), 8),
{
    assert(bytes =~= bytes.skip(0));
}

/// What is left after a text is the tail of the bytes.
pub proof fn lemma_text_tail(bytes: Seq<u8>, len: nat)
    ensures
        leaves_tail(bytes, grammar::text(bytes, len), len),
{
    lemma_field_tail(bytes, len);
}

/// What is left after a text behind a 16-bit length is the tail of the
/// bytes, shorter by two bytes at least.
pub proof fn lemma_short_text_tail(bytes: Seq<u8>)
    ensures
        leaves_tail(bytes, grammar::short_text(bytes), 2),
{
    reveal(grammar::short_text);
    lemma_field_tail(bytes, 2);
    if let Ok((len, after_len)) = grammar::u16_field(bytes) {
        lemma_text_tail(after_len, len as nat);
        match grammar::text(after_len, len as nat) {
            Ok((_, rest)) => lemma_tail_of_tail(bytes, after_len, rest, 2, len as nat),
            Err((_, rest)) => lemma_tail_of_tail(bytes, after_len, rest, 2, 0),
        }
    }
}

/// What is left after a text behind a 32-bit length is the tail of the
/// bytes, shorter by four bytes at least.
pub proof fn lemma_long_text_tail(bytes: Seq<u8>)
    ensures
        leaves_tail(bytes, grammar::long_text(bytes), 4),
{
    reveal(grammar::long_text);
    lemma_field_tail(bytes, 4);
    if let Ok((len, after_len)) = grammar::u32_field(bytes) {
        lemma_text_tail(after_len, len as nat);
        match grammar::text(after_len, len as nat) {
            Ok((_, rest)) => lemma_tail_of_tail(bytes, after_len, rest, 4, len as nat),
            Err((_, rest)) => lemma_tail_of_tail(bytes, after_len, rest, 4, 0),
        }
    }
}

/// What is left after a scalar is the tail of the bytes.
pub proof fn lemma_scalar_tail<E>(bytes: Seq<u8>, table: Seq<SlotView<E>>, depth: nat)
    ensures
        leaves_tail(bytes, grammar::number::<E>(bytes), 8),
        leaves_tail(bytes, grammar::boolean::<E>(bytes), 1),
        leaves_tail(bytes, grammar::string::<E>(bytes), 2),
        leaves_tail(bytes, grammar::long_string::<E>(bytes), 4),
        leaves_tail(bytes, grammar::xml_document::<E>(bytes), 4),
        leaves_tail(bytes, grammar::date::<E>(bytes), 10),
        leaves_tail(bytes, grammar::reference::<E>(bytes, table, depth), 2),
{
    lemma_field_tail(bytes, 1);
    lemma_short_text_tail(bytes);
    lemma_long_text_tail(bytes);
    if let Ok((_, after_millis)) = grammar::u64_field(bytes) {
        lemma_field_tail(after_millis, 2);
        match grammar::i16_field(after_millis) {
            Ok((_, rest)) => lemma_tail_of_tail(bytes, after_millis, rest, 8, 2),
            Err((_, rest)) => lemma_tail_of_tail(bytes, after_millis, rest, 8, 0),
        }
    }
}

/// An outcome that is orderly for a tail of the bytes, and for a table that
/// has grown from another with its new slots filled, is orderly for the
/// bytes and the other table.
pub proof fn lemma_orderly_behind<T, F: SiblingDecoder>(
    bytes: Seq<u8>,
    table: Seq<SlotView<Model<F>>>,
    middle: Seq<u8>,
    between: Seq<SlotView<Model<F>>>,
    outcome: Outcome<T, Model<F>>,
    first: nat,
    least: nat,
)
    requires
        tail_of(bytes, middle, first),
        extends(table, between),
        filled(table, between),
        orderly::<T, F>(middle, between, outcome, least),
    ensures
        orderly::<T, F>(bytes, table, outcome, first + least),
{
    match outcome {
        Outcome::Done { rest, .. } => lemma_tail_of_tail(bytes, middle, rest, first, least),
        Outcome::Failed { rest, .. } => lemma_tail_of_tail(bytes, middle, rest, first, 0),
        Outcome::Unknown => {},
    }
}

/// Decoding a value reads at least its marker byte, leaves the tail of the
/// bytes, keeps every slot of the table, and is unknown only where the
/// sibling decoder is.
pub proof fn lemma_value_orderly<F: SiblingDecoder>(
    bytes: Seq<u8>,
    table: Seq<SlotView<Model<F>>>,
    depth: nat,
)
    ensures
        orderly::<ValueView<Model<F>>, F>(
            bytes,
            table,
            grammar::value::<F>(bytes, table, depth),
            1,
        ),
    decreases bytes.len(), 0nat,
{
    if bytes.len() > 0 {
        let behind = bytes.skip(1);
        lemma_marked_orderly::<F>(bytes[0], behind, table, depth);
        lemma_orderly_behind::<ValueView<Model<F>>, F>(
            bytes,
            table,
            behind,
            table,
            grammar::marked::<F>(bytes[0], behind, table, depth),
            1,
            0,
        );
    } else {
        assert(bytes =~= bytes.skip(0));
    }
}

/// The same of the value behind a marker byte.
pub proof fn lemma_marked_orderly<F: SiblingDecoder>(
    marker: u8,
    bytes: Seq<u8>,
    table: Seq<SlotView<Model<F>>>,
    depth: nat,
)
    ensures
        orderly::<ValueView<Model<F>>, F>(
            bytes,
            table,
            grammar::marked::<F>(marker, bytes, table, depth),
            0,
        ),
    decreases bytes.len(), 4nat,
{
    lemma_leaf_orderly::<F>(marker, bytes, table, depth);
    if grammar::leaf(marker, bytes, table, depth) is None {
        if let Some(kind) = grammar::complex_kind(marker) {
            lemma_complex_orderly::<F>(kind, bytes, table, depth);
        } else if let Some(handoff) = F::reading(bytes) {
            if handoff.consumed <= bytes.len() {
                let rest = bytes.skip(handoff.consumed as int);
                assert(rest =~= bytes.skip(bytes.len() - rest.len()));
            }
        }
    }
}

/// The same of a value with no value inside it.
pub proof fn lemma_leaf_orderly<F: SiblingDecoder>(
    marker: u8,
    bytes: Seq<u8>,
    table: Seq<SlotView<Model<F>>>,
    depth: nat,
)
    ensures
        grammar::leaf(marker, bytes, table, depth) matches Some(outcome) ==> !(outcome is Unknown)
            && orderly::<ValueView<Model<F>>, F>(bytes, table, outcome, 0),
{
    reveal(grammar::leaf);
    lemma_scalar_tail::<Model<F>>(bytes, table, depth);
    assert(bytes =~= bytes.skip(0));
}

/// The same of a complex value.
pub proof fn lemma_complex_orderly<F: SiblingDecoder>(
    kind: Complex,
    bytes: Seq<u8>,
    table: Seq<SlotView<Model<F>>>,
    depth: nat,
)
    ensures
        orderly::<ValueView<Model<F>>, F>(
            bytes,
            table,
            grammar::complex::<F>(kind, bytes, table, depth),
            0,
        ),
    decreases bytes.len(), 3nat,
{
    if depth < MAX_DEPTH {
        lemma_content_orderly::<F>(kind, bytes, table.push(SlotView::Reserved), depth + 1);
    } else {
        assert(bytes =~= bytes.skip(0));
    }
}

/// The same of the content of a complex value.
pub proof fn lemma_content_orderly<F: SiblingDecoder>(
    kind: Complex,
    bytes: Seq<u8>,
    table: Seq<SlotView<Model<F>>>,
    depth: nat,
)
    ensures
        orderly::<ValueView<Model<F>>, F>(
            bytes,
            table,
            grammar::content::<F>(kind, bytes, table, depth),
            0,
        ),
    decreases bytes.len(), 2nat,
{
    match kind {
        Complex::Object => {
            lemma_pairs_orderly::<F>(bytes, table, depth);
        },
        Complex::TypedObject => {
            lemma_short_text_tail(bytes);
            if let Ok((_, after_name)) = grammar::short_text(bytes) {
                lemma_pairs_orderly::<F>(after_name, table, depth);
                lemma_orderly_behind::<Seq<Pair<Seq<char>, ValueView<Model<F>>>>, F>(
                    bytes,
                    table,
                    after_name,
                    table,
                    grammar::pairs::<F>(after_name, table, depth),
                    2,
                    3,
                );
            }
        },
        Complex::EcmaArray => {
            lemma_field_tail(bytes, 4);
            if let Ok((_, after_count)) = grammar::u32_field(bytes) {
                lemma_pairs_orderly::<F>(after_count, table, depth);
                lemma_orderly_behind::<Seq<Pair<Seq<char>, ValueView<Model<F>>>>, F>(
                    bytes,
                    table,
                    after_count,
                    table,
                    grammar::pairs::<F>(after_count, table, depth),
                    4,
                    3,
                );
            }
        },
        Complex::StrictArray => {
            lemma_field_tail(bytes, 4);
            if let Ok((count, after_count)) = grammar::u32_field(bytes) {
                lemma_values_orderly::<F>(after_count, table, depth, count as nat);
                lemma_orderly_behind::<Seq<ValueView<Model<F>>>, F>(
                    bytes,
                    table,
                    after_count,
                    table,
                    grammar::values::<F>(after_count, table, depth, count as nat),
                    4,
                    0,
                );
            }
        },
    }
}

/// The same of a run of pairs, which reads the three bytes of its end mark
/// at least.
pub proof fn lemma_pairs_orderly<F: SiblingDecoder>(
    bytes: Seq<u8>,
    table: Seq<SlotView<Model<F>>>,
    depth: nat,
)
    ensures
        orderly::<Seq<Pair<Seq<char>, ValueView<Model<F>>>>, F>(
            bytes,
            table,
            grammar::pairs::<F>(bytes, table, depth),
            3,
        ),
    decreases bytes.len(), 1nat,
{
    lemma_short_text_tail(bytes);
    if let Ok((key, after_key)) = grammar::short_text(bytes) {
        if after_key.len() > 0 {
            let after_marker = after_key.skip(1);
            lemma_tail_of_tail(bytes, after_key, after_marker, 2, 1);
            if !(key.len() == 0 && after_key[0] == marker::OBJECT_END_MARKER) {
                let step = grammar::marked::<F>(after_key[0], after_marker, table, depth);
                lemma_marked_orderly::<F>(after_key[0], after_marker, table, depth);
                lemma_orderly_behind::<ValueView<Model<F>>, F>(
                    bytes,
                    table,
                    after_marker,
                    table,
                    step,
                    3,
                    0,
                );
                if let Outcome::Done { value, rest, table: after } = step {
                    lemma_pairs_orderly::<F>(rest, after, depth);
                    lemma_orderly_behind::<Seq<Pair<Seq<char>, ValueView<Model<F>>>>, F>(
                        bytes,
                        table,
                        rest,
                        after,
                        grammar::pairs::<F>(rest, after, depth),
                        3,
                        3,
                    );
                }
            }
        }
    }
}

/// The same of a row of values.
pub proof fn lemma_values_orderly<F: SiblingDecoder>(
    bytes: Seq<u8>,
    table: Seq<SlotView<Model<F>>>,
    depth: nat,
    count: nat,
)
    ensures
        orderly::<Seq<ValueView<Model<F>>>, F>(
            bytes,
            table,
            grammar::values::<F>(bytes, table, depth, count),
            0,
        ),
    decreases bytes.len(), 1nat,
{
    if count == 0 {
        assert(bytes =~= bytes.skip(0));
    } else {
        lemma_value_orderly::<F>(bytes, table, depth);
        if let Outcome::Done { value, rest, table: after } = grammar::value::<F>(
            bytes,
            table,
            depth,
        ) {
            lemma_values_orderly::<F>(rest, after, depth, (count - 1) as nat);
            lemma_orderly_behind::<Seq<ValueView<Model<F>>>, F>(
                bytes,
                table,
                rest,
                after,
                grammar::values::<F>(rest, after, depth, (count - 1) as nat),
                1,
                0,
            );
        }
    }
}

/// The sibling decoder that refuses every embedded value is known.
pub proof fn lemma_no_sibling_known()
    ensures
        sibling_known::<NoSibling>(),
{
    assert forall|bytes: Seq<u8>|
        (#[trigger] NoSibling::reading(bytes)) matches Some(handoff) && handoff.consumed
            <= bytes.len() by {}
}

/// The same of all the values of an input.
pub proof fn lemma_stream_orderly<F: SiblingDecoder>(
    bytes: Seq<u8>,
    table: Seq<SlotView<Model<F>>>,
)
    ensures
        orderly::<Seq<ValueView<Model<F>>>, F>(
            bytes,
            table,
            grammar::stream::<F>(bytes, table),
            0,
        ),
        grammar::stream::<F>(bytes, table) matches Outcome::Done { rest, .. } ==> rest.len() == 0,
    decreases bytes.len(),
{
    if bytes.len() == 0 {
        assert(bytes =~= bytes.skip(0));
    } else {
        lemma_value_orderly::<F>(bytes, table, 0);
        if let Outcome::Done { value, rest, table: after } = grammar::value::<F>(bytes, table, 0) {
            lemma_stream_orderly::<F>(rest, after);
            lemma_orderly_behind::<Seq<ValueView<Model<F>>>, F>(
                bytes,
                table,
                rest,
                after,
                grammar::stream::<F>(rest, after),
                1,
                0,
            );
        }
    }
}

/// The reference table only grows. Whether a value decodes or fails, every
/// slot that the table had is still there as it was, filled or reserved;
/// and where the value decodes, every slot that was added is filled.
pub proof fn law_table_only_grows<F: SiblingDecoder>(
    bytes: Seq<u8>,
    table: Seq<SlotView<Model<F>>>,
    depth: nat,
)
    ensures
        match grammar::value::<F>(bytes, table, depth) {
            Outcome::Done { table: after, .. } => extends(table, after) && filled(table, after),
            Outcome::Failed { table: after, .. } => extends(table, after),
            Outcome::Unknown => true,
        },
{
    lemma_value_orderly::<F>(bytes, table, depth);
}

/// A value that decodes is at least its marker byte, and what is left after
/// it is the tail of the input: decoding reads the input front to back and
/// never the same byte twice. What a value that fails leaves is a tail of
/// the input too.
pub proof fn law_value_leaves_the_tail<F: SiblingDecoder>(
    bytes: Seq<u8>,
    table: Seq<SlotView<Model<F>>>,
    depth: nat,
)
    ensures
        grammar::value::<F>(bytes, table, depth) matches Outcome::Done { rest, .. } ==> rest.len()
            < bytes.len() && rest == bytes.skip(bytes.len() - rest.len()),
        grammar::value::<F>(bytes, table, depth) matches Outcome::Failed { rest, .. }
            ==> rest.len() <= bytes.len() && rest == bytes.skip(bytes.len() - rest.len()),
{
    lemma_value_orderly::<F>(bytes, table, depth);
}

/// With a sibling decoder that is known, every input has a known outcome:
/// a value or an error.
pub proof fn law_known_sibling_known_outcome<F: SiblingDecoder>(
    bytes: Seq<u8>,
    table: Seq<SlotView<Model<F>>>,
    depth: nat,
)
    requires
        sibling_known::<F>(),
    ensures
        !(grammar::value::<F>(bytes, table, depth) is Unknown),
        !(grammar::stream::<F>(bytes, table) is Unknown),
{
    lemma_value_orderly::<F>(bytes, table, depth);
    lemma_stream_orderly::<F>(bytes, table);
}

/// All the values of an input are its first value and then all the values
/// of what is left, in that order, and an input without bytes has none.
pub proof fn law_stream_comes_in_order<F: SiblingDecoder>(
    bytes: Seq<u8>,
    table: Seq<SlotView<Model<F>>>,
)
    ensures
        grammar::stream::<F>(bytes, table) == (if bytes.len() == 0 {
            Outcome::Done { value: Seq::empty(), rest: bytes, table }
        } else {
            match grammar::value::<F>(bytes, table, 0) {
                Outcome::Done { value: first, rest, table: after } => grammar::preceded(
                    seq![first],
                    grammar::stream::<F>(rest, after),
                ),
                Outcome::Failed { error, rest, table: left } => Outcome::Failed {
                    error,
                    rest,
                    table: left,
                },
                Outcome::Unknown => Outcome::Unknown,
            }
        }),
{
    lemma_value_orderly::<F>(bytes, table, 0);
}

} // verus!
