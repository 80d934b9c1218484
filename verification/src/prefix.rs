//! A value is decoded from its own bytes.
//!
//! What a value decodes to depends on the bytes it is written in and on
//! nothing behind them, and an input that ends before the value does fails
//! as ended early.

use crate::error::DecodeError;
use crate::error::IoFault;
use crate::grammar;
use crate::grammar::Complex;
use crate::grammar::MAX_DEPTH;
use crate::grammar::Outcome;
use crate::marker;
use crate::progress::lemma_marked_orderly;
use crate::progress::lemma_no_sibling_known;
use crate::progress::lemma_pairs_orderly;
use crate::progress::lemma_short_text_tail;
use crate::progress::lemma_value_orderly;
use crate::progress::lemma_values_orderly;
use crate::progress::sibling_known;
use crate::progress::tail_of;
use crate::sibling::Model;
use crate::sibling::NoSibling;
use crate::sibling::SiblingDecoder;
use crate::table::SlotView;
use crate::value::NoValue;
use crate::value::Pair;
use crate::value::ValueView;
use vstd::prelude::*;

verus! {

/// Whether `bytes` and `other` are the same in their first `len` bytes.
pub open spec fn agree(bytes: Seq<u8>, other: Seq<u8>, len: nat) -> bool {
    len <= bytes.len() && len <= other.len() && bytes.take(len as int) == other.take(len as int)
}

/// Whether `outcome` is the failure of an input that ended early.
pub open spec fn ended_early<T, E>(outcome: Outcome<T, E>) -> bool {
    outcome matches Outcome::Failed { error, .. } && error == DecodeError::Io(
        IoFault::UnexpectedEof,
    )
}

/// Whether `scan` is the failure of an input that ended early.
pub open spec fn scan_ended_early<T>(scan: grammar::Scan<T>) -> bool {
    scan matches Err((error, _)) && error == DecodeError::Io(IoFault::UnexpectedEof)
}

/// Whether the sibling decoder reads an embedded value from its own bytes:
/// what it makes of an input that holds a value, it makes of every input
/// that starts with the bytes of that value, and an input that holds fewer
/// than those bytes it refuses as ended early.
#[verifier::opaque]
pub open spec fn sibling_steady<F: SiblingDecoder>() -> bool {
    forall|bytes: Seq<u8>, other: Seq<u8>, len: nat|
        #![trigger F::reading(bytes), agree(bytes, other, len)]
        (F::reading(bytes) matches Some(handoff) && handoff.result is Ok && handoff.consumed
            <= bytes.len() && agree(bytes, other, len)) ==> {
            let handoff = F::reading(bytes)->0;
            &&& len >= handoff.consumed ==> F::reading(other) == Some(handoff)
            &&& (len < handoff.consumed && other.len() == len) ==> (F::reading(
                other,
            ) matches Some(cut) && cut.consumed <= other.len() && cut.result == Err::<
                Model<F>,
                DecodeError,
            >(DecodeError::Io(IoFault::UnexpectedEof)))
        }
}

/// What `outcome`, the outcome of decoding `bytes`, says of decoding
/// `other`, which is the same as `bytes` in its first `len` bytes. Where
/// those hold all that was read, `other` decodes to the same value and
/// leaves what it has behind them. Where they do not, and `other` ends with
/// them, `other` fails as ended early.
pub open spec fn carries_over<T, E>(
    bytes: Seq<u8>,
    outcome: Outcome<T, E>,
    other: Seq<u8>,
    len: nat,
    other_outcome: Outcome<T, E>,
) -> bool {
    outcome matches Outcome::Done { value, rest, table } ==> {
        let read = bytes.len() - rest.len();
        &&& len >= read ==> other_outcome == (Outcome::Done {
            value,
            rest: other.skip(read),
            table,
        })
        &&& (len < read && other.len() == len) ==> ended_early(other_outcome)
    }
}

/// Inputs that agree in their first bytes agree in fewer, and so do their
/// tails.
pub proof fn lemma_agree_on(bytes: Seq<u8>, other: Seq<u8>, len: nat, fewer: nat)
    requires
        agree(bytes, other, len),
        fewer <= len,
    ensures
        agree(bytes, other, fewer),
        agree(bytes.skip(fewer as int), other.skip(fewer as int), (len - fewer) as nat),
{
    assert(bytes.take(fewer as int) =~= bytes.take(len as int).take(fewer as int));
    assert(other.take(fewer as int) =~= other.take(len as int).take(fewer as int));
    assert(bytes.skip(fewer as int).take(len - fewer) =~= bytes.take(len as int).skip(
        fewer as int,
    ));
    assert(other.skip(fewer as int).take(len - fewer) =~= other.take(len as int).skip(
        fewer as int,
    ));
}

/// A field carries over.
pub proof fn lemma_field_carries(bytes: Seq<u8>, other: Seq<u8>, len: nat, width: nat)
    requires
        agree(bytes, other, len),
    ensures
        grammar::field(bytes, width) matches Ok((spelled, rest)) ==> {
            &&& len >= width ==> grammar::field(other, width) == Ok::<
                (Seq<u8>, Seq<u8>),
                (DecodeError, Seq<u8>),
            >((spelled, other.skip(width as int)))
            &&& (len < width && other.len() == len) ==> scan_ended_early(
                grammar::field(other, width),
            )
        },
{
    if grammar::field(bytes, width) is Ok && len >= width {
        lemma_agree_on(bytes, other, len, width);
    }
}

/// What `scan`, the scan of `bytes`, says of scanning `other`: the same as
/// `carries_over` says of outcomes.
pub open spec fn scan_carries<T>(
    bytes: Seq<u8>,
    scan: grammar::Scan<T>,
    other: Seq<u8>,
    len: nat,
    other_scan: grammar::Scan<T>,
) -> bool {
    scan matches Ok((value, rest)) ==> {
        let read = bytes.len() - rest.len();
        &&& len >= read ==> other_scan == Ok::<(T, Seq<u8>), (DecodeError, Seq<u8>)>(
            (value, other.skip(read)),
        )
        &&& (len < read && other.len() == len) ==> scan_ended_early(other_scan)
    }
}

/// The integers carry over.
pub proof fn lemma_integers_carry(bytes: Seq<u8>, other: Seq<u8>, len: nat)
    requires
        agree(bytes, other, len),
    ensures
        scan_carries(bytes, grammar::u16_field(bytes), other, len, grammar::u16_field(other)),
        scan_carries(bytes, grammar::i16_field(bytes), other, len, grammar::i16_field(other)),
        scan_carries(bytes, grammar::u32_field(bytes), other, len, grammar::u32_field(other)),
        scan_carries(bytes, grammar::u64_field(bytes), other, len, grammar::u64_field(other)),
{
    lemma_field_carries(bytes, other, len, 2);
    lemma_field_carries(bytes, other, len, 4);
    lemma_field_carries(bytes, other, len, 8);
}

/// A text carries over.
pub proof fn lemma_text_carries(bytes: Seq<u8>, other: Seq<u8>, len: nat, width: nat)
    requires
        agree(bytes, other, len),
    ensures
        scan_carries(bytes, grammar::text(bytes, width), other, len, grammar::text(other, width)),
{
    lemma_field_carries(bytes, other, len, width);
}

/// A text behind a 16-bit length carries over.
pub proof fn lemma_short_text_carries(bytes: Seq<u8>, other: Seq<u8>, len: nat)
    requires
        agree(bytes, other, len),
    ensures
        scan_carries(bytes, grammar::short_text(bytes), other, len, grammar::short_text(other)),
{
    reveal(grammar::short_text);
    lemma_integers_carry(bytes, other, len);
    if let Ok((width, after_width)) = grammar::u16_field(bytes) {
        if len >= 2 {
            lemma_agree_on(bytes, other, len, 2);
            lemma_text_carries(after_width, other.skip(2), (len - 2) as nat, width as nat);
            if grammar::text(after_width, width as nat) is Ok && len >= 2 + width {
                assert(other.skip(2).skip(width as int) =~= other.skip(2 + width));
            }
        }
    }
}

/// A text behind a 32-bit length carries over.
pub proof fn lemma_long_text_carries(bytes: Seq<u8>, other: Seq<u8>, len: nat)
    requires
        agree(bytes, other, len),
    ensures
        scan_carries(bytes, grammar::long_text(bytes), other, len, grammar::long_text(other)),
{
    reveal(grammar::long_text);
    lemma_integers_carry(bytes, other, len);
    if let Ok((width, after_width)) = grammar::u32_field(bytes) {
        if len >= 4 {
            lemma_agree_on(bytes, other, len, 4);
            lemma_text_carries(after_width, other.skip(4), (len - 4) as nat, width as nat);
            if grammar::text(after_width, width as nat) is Ok && len >= 4 + width {
                assert(other.skip(4).skip(width as int) =~= other.skip(4 + width));
            }
        }
    }
}

/// The scalars carry over.
pub proof fn lemma_scalars_carry<E>(
    bytes: Seq<u8>,
    other: Seq<u8>,
    len: nat,
    table: Seq<SlotView<E>>,
    depth: nat,
)
    requires
        agree(bytes, other, len),
    ensures
        scan_carries(bytes, grammar::number::<E>(bytes), other, len, grammar::number::<E>(other)),
        scan_carries(
            bytes,
            grammar::boolean::<E>(bytes),
            other,
            len,
            grammar::boolean::<E>(other),
        ),
        scan_carries(bytes, grammar::string::<E>(bytes), other, len, grammar::string::<E>(other)),
        scan_carries(
            bytes,
            grammar::long_string::<E>(bytes),
            other,
            len,
            grammar::long_string::<E>(other),
        ),
        scan_carries(
            bytes,
            grammar::xml_document::<E>(bytes),
            other,
            len,
            grammar::xml_document::<E>(other),
        ),
        scan_carries(bytes, grammar::date::<E>(bytes), other, len, grammar::date::<E>(other)),
        scan_carries(
            bytes,
            grammar::reference::<E>(bytes, table, depth),
            other,
            len,
            grammar::reference::<E>(other, table, depth),
        ),
{
    lemma_integers_carry(bytes, other, len);
    lemma_field_carries(bytes, other, len, 1);
    lemma_short_text_carries(bytes, other, len);
    lemma_long_text_carries(bytes, other, len);
    if let Ok((_, after_millis)) = grammar::u64_field(bytes) {
        if len >= 8 {
            lemma_agree_on(bytes, other, len, 8);
            lemma_integers_carry(after_millis, other.skip(8), (len - 8) as nat);
            if len >= 10 {
                assert(other.skip(8).skip(2) =~= other.skip(10));
            }
        }
    }
}

/// What was read of `bytes` in two steps, of `first` and then of `second`
/// bytes, stands in the same place in `other`.
proof fn lemma_two_steps(other: Seq<u8>, first: nat, second: nat)
    requires
        first + second <= other.len(),
    ensures
        other.skip(first as int).skip(second as int) == other.skip((first + second) as int),
{
    assert(other.skip(first as int).skip(second as int) =~= other.skip((first + second) as int));
}

/// A value carries over.
pub proof fn lemma_value_carries<F: SiblingDecoder>(
    bytes: Seq<u8>,
    other: Seq<u8>,
    len: nat,
    table: Seq<SlotView<Model<F>>>,
    depth: nat,
)
    requires
        agree(bytes, other, len),
        sibling_steady::<F>(),
    ensures
        carries_over(
            bytes,
            grammar::value::<F>(bytes, table, depth),
            other,
            len,
            grammar::value::<F>(other, table, depth),
        ),
    decreases bytes.len(), 0nat,
{
    if let Outcome::Done { value, rest, table: after } = grammar::value::<F>(bytes, table, depth) {
        lemma_marked_orderly::<F>(bytes[0], bytes.skip(1), table, depth);
        let read = (bytes.skip(1).len() - rest.len()) as nat;
        if len >= 1 {
            lemma_agree_on(bytes, other, len, 1);
            assert(bytes.take(1)[0] == other.take(1)[0]);
            lemma_marked_carries::<F>(
                bytes[0],
                bytes.skip(1),
                other.skip(1),
                (len - 1) as nat,
                table,
                depth,
            );
            if len >= 1 + read {
                lemma_two_steps(other, 1, read);
            }
        }
    }
}

/// An embedded value carries over, where the sibling decoder is steady.
pub proof fn lemma_embedded_carries<F: SiblingDecoder>(
    bytes: Seq<u8>,
    other: Seq<u8>,
    len: nat,
    table: Seq<SlotView<Model<F>>>,
)
    requires
        agree(bytes, other, len),
        sibling_steady::<F>(),
    ensures
        carries_over(
            bytes,
            grammar::avmplus::<F>(bytes, table),
            other,
            len,
            grammar::avmplus::<F>(other, table),
        ),
{
    reveal(sibling_steady);
    if let Some(handoff) = F::reading(bytes) {
        if handoff.result is Ok && handoff.consumed <= bytes.len() {
            let rest = bytes.skip(handoff.consumed as int);
            assert(bytes.len() - rest.len() == handoff.consumed);
        }
    }
}

/// The value behind a marker byte carries over.
pub proof fn lemma_marked_carries<F: SiblingDecoder>(
    marker: u8,
    bytes: Seq<u8>,
    other: Seq<u8>,
    len: nat,
    table: Seq<SlotView<Model<F>>>,
    depth: nat,
)
    requires
        agree(bytes, other, len),
        sibling_steady::<F>(),
    ensures
        carries_over(
            bytes,
            grammar::marked::<F>(marker, bytes, table, depth),
            other,
            len,
            grammar::marked::<F>(marker, other, table, depth),
        ),
    decreases bytes.len(), 4nat,
{
    lemma_leaf_carries::<Model<F>>(marker, bytes, other, len, table, depth);
    if grammar::leaf(marker, bytes, table, depth) is None {
        if let Some(kind) = grammar::complex_kind(marker) {
            lemma_complex_carries::<F>(kind, bytes, other, len, table, depth);
        } else {
            lemma_embedded_carries::<F>(bytes, other, len, table);
        }
    }
}

/// A value with no value inside it carries over.
pub proof fn lemma_leaf_carries<E>(
    marker: u8,
    bytes: Seq<u8>,
    other: Seq<u8>,
    len: nat,
    table: Seq<SlotView<E>>,
    depth: nat,
)
    requires
        agree(bytes, other, len),
    ensures
        grammar::leaf(marker, bytes, table, depth) is None <==> grammar::leaf(
            marker,
            other,
            table,
            depth,
        ) is None,
        grammar::leaf(marker, bytes, table, depth) matches Some(outcome) ==> carries_over(
            bytes,
            outcome,
            other,
            len,
            grammar::leaf(marker, other, table, depth)->0,
        ),
{
    reveal(grammar::leaf);
    lemma_scalars_carry::<E>(bytes, other, len, table, depth);
    assert(other.skip(0) =~= other);
}

/// A complex value carries over.
pub proof fn lemma_complex_carries<F: SiblingDecoder>(
    kind: Complex,
    bytes: Seq<u8>,
    other: Seq<u8>,
    len: nat,
    table: Seq<SlotView<Model<F>>>,
    depth: nat,
)
    requires
        agree(bytes, other, len),
        sibling_steady::<F>(),
    ensures
        carries_over(
            bytes,
            grammar::complex::<F>(kind, bytes, table, depth),
            other,
            len,
            grammar::complex::<F>(kind, other, table, depth),
        ),
    decreases bytes.len(), 3nat,
{
    if depth < MAX_DEPTH {
        lemma_content_carries::<F>(
            kind,
            bytes,
            other,
            len,
            table.push(SlotView::Reserved),
            depth + 1,
        );
    }
}

/// The content of a complex value carries over.
pub proof fn lemma_content_carries<F: SiblingDecoder>(
    kind: Complex,
    bytes: Seq<u8>,
    other: Seq<u8>,
    len: nat,
    table: Seq<SlotView<Model<F>>>,
    depth: nat,
)
    requires
        agree(bytes, other, len),
        sibling_steady::<F>(),
    ensures
        carries_over(
            bytes,
            grammar::content::<F>(kind, bytes, table, depth),
            other,
            len,
            grammar::content::<F>(kind, other, table, depth),
        ),
    decreases bytes.len(), 2nat,
{
    match kind {
        Complex::Object => {
            lemma_pairs_carries::<F>(bytes, other, len, table, depth);
        },
        Complex::TypedObject => {
            lemma_typed_object_carries::<F>(bytes, other, len, table, depth);
        },
        Complex::EcmaArray => {
            lemma_ecma_array_carries::<F>(bytes, other, len, table, depth);
        },
        Complex::StrictArray => {
            lemma_strict_array_carries::<F>(bytes, other, len, table, depth);
        },
    }
}

/// The content of a typed object carries over.
proof fn lemma_typed_object_carries<F: SiblingDecoder>(
    bytes: Seq<u8>,
    other: Seq<u8>,
    len: nat,
    table: Seq<SlotView<Model<F>>>,
    depth: nat,
)
    requires
        agree(bytes, other, len),
        sibling_steady::<F>(),
    ensures
        carries_over(
            bytes,
            grammar::content::<F>(Complex::TypedObject, bytes, table, depth),
            other,
            len,
            grammar::content::<F>(Complex::TypedObject, other, table, depth),
        ),
    decreases bytes.len(), 1nat,
{
    lemma_short_text_tail(bytes);
    lemma_short_text_carries(bytes, other, len);
    if let Ok((_, after_name)) = grammar::short_text(bytes) {
        let first = (bytes.len() - after_name.len()) as nat;
        lemma_pairs_orderly::<F>(after_name, table, depth);
        if len >= first {
            lemma_agree_on(bytes, other, len, first);
            lemma_pairs_carries::<F>(
                after_name,
                other.skip(first as int),
                (len - first) as nat,
                table,
                depth,
            );
            if let Outcome::Done { value, rest, table: after } = grammar::pairs::<F>(
                after_name,
                table,
                depth,
            ) {
                let second = (after_name.len() - rest.len()) as nat;
                if len >= first + second {
                    lemma_two_steps(other, first, second);
                }
            }
        }
    }
}

/// The content of an associative array carries over.
proof fn lemma_ecma_array_carries<F: SiblingDecoder>(
    bytes: Seq<u8>,
    other: Seq<u8>,
    len: nat,
    table: Seq<SlotView<Model<F>>>,
    depth: nat,
)
    requires
        agree(bytes, other, len),
        sibling_steady::<F>(),
    ensures
        carries_over(
            bytes,
            grammar::content::<F>(Complex::EcmaArray, bytes, table, depth),
            other,
            len,
            grammar::content::<F>(Complex::EcmaArray, other, table, depth),
        ),
    decreases bytes.len(), 1nat,
{
    lemma_integers_carry(bytes, other, len);
    if let Ok((_, after_count)) = grammar::u32_field(bytes) {
        lemma_pairs_orderly::<F>(after_count, table, depth);
        if len >= 4 {
            lemma_agree_on(bytes, other, len, 4);
            lemma_pairs_carries::<F>(after_count, other.skip(4), (len - 4) as nat, table, depth);
            if let Outcome::Done { value, rest, table: after } = grammar::pairs::<F>(
                after_count,
                table,
                depth,
            ) {
                let second = (after_count.len() - rest.len()) as nat;
                if len >= 4 + second {
                    lemma_two_steps(other, 4, second);
                }
            }
        }
    }
}

/// The content of a strict array carries over.
proof fn lemma_strict_array_carries<F: SiblingDecoder>(
    bytes: Seq<u8>,
    other: Seq<u8>,
    len: nat,
    table: Seq<SlotView<Model<F>>>,
    depth: nat,
)
    requires
        agree(bytes, other, len),
        sibling_steady::<F>(),
    ensures
        carries_over(
            bytes,
            grammar::content::<F>(Complex::StrictArray, bytes, table, depth),
            other,
            len,
            grammar::content::<F>(Complex::StrictArray, other, table, depth),
        ),
    decreases bytes.len(), 1nat,
{
    lemma_integers_carry(bytes, other, len);
    if let Ok((count, after_count)) = grammar::u32_field(bytes) {
        lemma_values_orderly::<F>(after_count, table, depth, count as nat);
        if len >= 4 {
            lemma_agree_on(bytes, other, len, 4);
            lemma_values_carries::<F>(
                after_count,
                other.skip(4),
                (len - 4) as nat,
                table,
                depth,
                count as nat,
            );
            if let Outcome::Done { value, rest, table: after } = grammar::values::<F>(
                after_count,
                table,
                depth,
                count as nat,
            ) {
                let second = (after_count.len() - rest.len()) as nat;
                if len >= 4 + second {
                    lemma_two_steps(other, 4, second);
                }
            }
        }
    }
}

/// A run of pairs carries over.
pub proof fn lemma_pairs_carries<F: SiblingDecoder>(
    bytes: Seq<u8>,
    other: Seq<u8>,
    len: nat,
    table: Seq<SlotView<Model<F>>>,
    depth: nat,
)
    requires
        agree(bytes, other, len),
        sibling_steady::<F>(),
    ensures
        carries_over(
            bytes,
            grammar::pairs::<F>(bytes, table, depth),
            other,
            len,
            grammar::pairs::<F>(other, table, depth),
        ),
    decreases bytes.len(), 1nat,
{
    if let Outcome::Done { value: entries, rest: left, table: last } = grammar::pairs::<F>(
        bytes,
        table,
        depth,
    ) {
        lemma_short_text_tail(bytes);
        lemma_short_text_carries(bytes, other, len);
        let (key, after_key) = grammar::short_text(bytes)->Ok_0;
        let first = (bytes.len() - after_key.len()) as nat;
        let after_marker = after_key.skip(1);
        if len > first {
            lemma_agree_on(bytes, other, len, first);
            let other_key = other.skip(first as int);
            lemma_agree_on(after_key, other_key, (len - first) as nat, 1);
            assert(after_key.take(1)[0] == other_key.take(1)[0]);
            lemma_two_steps(other, first, 1);
            if !(key.len() == 0 && after_key[0] == marker::OBJECT_END_MARKER) {
                lemma_pair_carries::<F>(bytes, other, len, table, depth);
            }
        } else if !(key.len() == 0 && after_key[0] == marker::OBJECT_END_MARKER) {
            lemma_marked_orderly::<F>(after_key[0], after_marker, table, depth);
            if let Outcome::Done { value, rest, table: after } = grammar::marked::<F>(
                after_key[0],
                after_marker,
                table,
                depth,
            ) {
                lemma_pairs_orderly::<F>(rest, after, depth);
            }
        }
    }
}

/// A run of pairs that begins with a pair carries over, where the other
/// input holds the key and the marker of that pair.
proof fn lemma_pair_carries<F: SiblingDecoder>(
    bytes: Seq<u8>,
    other: Seq<u8>,
    len: nat,
    table: Seq<SlotView<Model<F>>>,
    depth: nat,
)
    requires
        agree(bytes, other, len),
        sibling_steady::<F>(),
        grammar::pairs::<F>(bytes, table, depth) is Done,
        grammar::short_text(bytes) matches Ok((key, after_key)) && len > bytes.len()
            - after_key.len() && !(key.len() == 0 && after_key[0]
            == marker::OBJECT_END_MARKER) && grammar::short_text(other) == Ok::<
            (Seq<char>, Seq<u8>),
            (DecodeError, Seq<u8>),
        >((key, other.skip(bytes.len() - after_key.len()))) && other.skip(
            bytes.len() - after_key.len(),
        )[0] == after_key[0],
    ensures
        carries_over(
            bytes,
            grammar::pairs::<F>(bytes, table, depth),
            other,
            len,
            grammar::pairs::<F>(other, table, depth),
        ),
    decreases bytes.len(), 0nat,
{
    lemma_short_text_tail(bytes);
    let (key, after_key) = grammar::short_text(bytes)->Ok_0;
    let first = (bytes.len() - after_key.len()) as nat;
    let after_marker = after_key.skip(1);
    let other_marker = other.skip(first as int).skip(1);
    let step = grammar::marked::<F>(after_key[0], after_marker, table, depth);
    let other_step = grammar::marked::<F>(after_key[0], other_marker, table, depth);
    let rest = step->Done_rest;
    let after = step->Done_table;
    let next = grammar::pairs::<F>(rest, after, depth);
    let second = (after_marker.len() - rest.len()) as nat;
    let read = (first + 1 + second) as nat;
    let other_rest = other.skip(read as int);
    let other_next = grammar::pairs::<F>(other_rest, after, depth);

    assert(step is Done && next is Done && tail_of(bytes, after_marker, first + 1) && tail_of(
        after_marker,
        rest,
        0,
    ) && tail_of(rest, next->Done_rest, 0)) by {
        lemma_marked_orderly::<F>(after_key[0], after_marker, table, depth);
        if step is Done {
            lemma_pairs_orderly::<F>(rest, after, depth);
        }
        assert(after_marker =~= bytes.skip(bytes.len() - after_marker.len()));
    }
    assert(first + 1 <= other.len() && other_marker == other.skip((first + 1) as int) && agree(
        after_marker,
        other_marker,
        (len - first - 1) as nat,
    )) by {
        lemma_two_steps(other, first, 1);
        lemma_agree_on(bytes, other, len, first + 1);
    }
    assert(carries_over(after_marker, step, other_marker, (len - first - 1) as nat, other_step))
        by {
        lemma_marked_carries::<F>(
            after_key[0],
            after_marker,
            other_marker,
            (len - first - 1) as nat,
            table,
            depth,
        );
    }
    if len >= read {
        assert(other_marker.skip(second as int) == other_rest && agree(
            rest,
            other_rest,
            (len - read) as nat,
        )) by {
            lemma_two_steps(other, first + 1, second);
            lemma_two_steps(bytes, first + 1, second);
            lemma_agree_on(bytes, other, len, read);
        }
        assert(carries_over(rest, next, other_rest, (len - read) as nat, other_next)) by {
            lemma_pairs_carries::<F>(rest, other_rest, (len - read) as nat, after, depth);
        }
    }
    lemma_pair_chain::<Pair<Seq<char>, ValueView<Model<F>>>, Model<F>>(
        bytes,
        other,
        len,
        (first + 1) as nat,
        Pair { key, value: step->Done_value },
        step,
        other_step,
        next,
        other_next,
    );
}

/// Outcomes chained as a run of pairs chains them carry over: `step` is the
/// outcome of the value of the first pair, read behind `first` bytes of key
/// and marker, and `next` is that of the pairs that follow.
proof fn lemma_pair_chain<T, E>(
    bytes: Seq<u8>,
    other: Seq<u8>,
    len: nat,
    first: nat,
    head: T,
    step: Outcome<ValueView<E>, E>,
    other_step: Outcome<ValueView<E>, E>,
    next: Outcome<Seq<T>, E>,
    other_next: Outcome<Seq<T>, E>,
)
    requires
        first <= len,
        first <= bytes.len(),
        len <= other.len(),
        step is Done,
        next is Done,
        tail_of(bytes.skip(first as int), step->Done_rest, 0),
        tail_of(step->Done_rest, next->Done_rest, 0),
        carries_over(
            bytes.skip(first as int),
            step,
            other.skip(first as int),
            (len - first) as nat,
            other_step,
        ),
        len >= bytes.len() - step->Done_rest.len() ==> carries_over(
            step->Done_rest,
            next,
            other.skip(bytes.len() - step->Done_rest.len()),
            (len - (bytes.len() - step->Done_rest.len())) as nat,
            other_next,
        ),
    ensures
        carries_over(
            bytes,
            grammar::preceded(seq![head], next),
            other,
            len,
            match other_step {
                Outcome::Done { value: _, rest: other_rest, table: other_after } => if other_rest
                    == other.skip(bytes.len() - step->Done_rest.len()) && other_after
                    == step->Done_table {
                    grammar::preceded(seq![head], other_next)
                } else {
                    Outcome::Unknown
                },
                Outcome::Failed { error, rest, table } => Outcome::Failed { error, rest, table },
                Outcome::Unknown => Outcome::Unknown,
            },
        ),
{
    let rest = step->Done_rest;
    let left = next->Done_rest;
    let second = (bytes.len() - first - rest.len()) as nat;
    let third = (rest.len() - left.len()) as nat;
    if len >= first + second {
        lemma_two_steps(other, first, second);
        if len >= first + second + third {
            lemma_two_steps(other, first + second, third);
        }
    }
}

/// A row of values carries over.
pub proof fn lemma_values_carries<F: SiblingDecoder>(
    bytes: Seq<u8>,
    other: Seq<u8>,
    len: nat,
    table: Seq<SlotView<Model<F>>>,
    depth: nat,
    count: nat,
)
    requires
        agree(bytes, other, len),
        sibling_steady::<F>(),
    ensures
        carries_over(
            bytes,
            grammar::values::<F>(bytes, table, depth, count),
            other,
            len,
            grammar::values::<F>(other, table, depth, count),
        ),
    decreases bytes.len(), 1nat,
{
    if count == 0 {
        assert(other.skip(0) =~= other);
    } else if let Outcome::Done { value: entries, rest: left, table: last } = grammar::values::<F>(
        bytes,
        table,
        depth,
        count,
    ) {
        lemma_value_orderly::<F>(bytes, table, depth);
        lemma_value_carries::<F>(bytes, other, len, table, depth);
        let (first_value, rest, after) = match grammar::value::<F>(bytes, table, depth) {
            Outcome::Done { value, rest, table } => (value, rest, table),
            _ => arbitrary(),
        };
        let first = (bytes.len() - rest.len()) as nat;
        lemma_values_orderly::<F>(rest, after, depth, (count - 1) as nat);
        if len >= first {
            lemma_agree_on(bytes, other, len, first);
            lemma_values_carries::<F>(
                rest,
                other.skip(first as int),
                (len - first) as nat,
                after,
                depth,
                (count - 1) as nat,
            );
            let second = (rest.len() - left.len()) as nat;
            if len >= first + second {
                lemma_two_steps(other, first, second);
            }
        }
    }
}

/// The sibling decoder that refuses every embedded value is known and
/// steady: it makes a value of no input. So what is shown here and in
/// [`crate::progress`] of decoders with such a sibling holds of the decoder
/// with none.
pub proof fn law_no_sibling_is_known_and_steady()
    ensures
        sibling_known::<NoSibling>(),
        sibling_steady::<NoSibling>(),
{
    reveal(sibling_steady);
    lemma_no_sibling_known();
}

/// A value is decoded from its own bytes. An input that starts with the
/// bytes that were read for a value decodes to that value, leaves what it
/// has behind those bytes, and leaves the table the same: no byte of what
/// follows a value is read for it.
pub proof fn law_value_reads_its_own_bytes<F: SiblingDecoder>(
    bytes: Seq<u8>,
    other: Seq<u8>,
    table: Seq<SlotView<Model<F>>>,
    depth: nat,
)
    requires
        sibling_steady::<F>(),
        grammar::value::<F>(bytes, table, depth) matches Outcome::Done { rest, .. } && agree(
            bytes,
            other,
            (bytes.len() - rest.len()) as nat,
        ),
    ensures
        grammar::value::<F>(bytes, table, depth) matches Outcome::Done { value, rest, table: after }
            && grammar::value::<F>(other, table, depth) == (Outcome::Done {
            value,
            rest: other.skip(bytes.len() - rest.len()),
            table: after,
        }),
{
    let rest = grammar::value::<F>(bytes, table, depth)->Done_rest;
    lemma_value_carries::<F>(bytes, other, (bytes.len() - rest.len()) as nat, table, depth);
}

/// An input that ends before the value does fails as ended early: where a
/// value decodes, every shorter beginning of its bytes fails with an
/// unexpected end of the source, at whichever field the end falls.
pub proof fn law_truncated_value_ends_early<F: SiblingDecoder>(
    bytes: Seq<u8>,
    len: nat,
    table: Seq<SlotView<Model<F>>>,
    depth: nat,
)
    requires
        sibling_steady::<F>(),
        grammar::value::<F>(bytes, table, depth) matches Outcome::Done { rest, .. } && len
            < bytes.len() - rest.len(),
    ensures
        ended_early(grammar::value::<F>(bytes.take(len as int), table, depth)),
{
    let short = bytes.take(len as int);
    assert(short.take(len as int) =~= short);
    lemma_value_carries::<F>(bytes, short, len, table, depth);
}

/// For the decoder without a sibling the same holds of every value: where
/// a value decodes, every shorter beginning of its bytes fails with an
/// unexpected end of the source, and every input that begins with its bytes
/// decodes to it.
pub proof fn law_plain_value_is_read_from_its_own_bytes(
    bytes: Seq<u8>,
    other: Seq<u8>,
    len: nat,
    table: Seq<SlotView<NoValue>>,
    depth: nat,
)
    requires
        grammar::value::<NoSibling>(bytes, table, depth) is Done,
        agree(bytes, other, len),
        other.len() == len || len >= bytes.len() - grammar::value::<NoSibling>(
            bytes,
            table,
            depth,
        )->Done_rest.len(),
    ensures
        ({
            let outcome = grammar::value::<NoSibling>(bytes, table, depth);
            let read = bytes.len() - outcome->Done_rest.len();
            if len < read {
                ended_early(grammar::value::<NoSibling>(other, table, depth))
            } else {
                grammar::value::<NoSibling>(other, table, depth) == (Outcome::Done {
                    value: outcome->Done_value,
                    rest: other.skip(read),
                    table: outcome->Done_table,
                })
            }
        }),
{
    law_no_sibling_is_known_and_steady();
    lemma_value_carries::<NoSibling>(bytes, other, len, table, depth);
}

} // verus!
