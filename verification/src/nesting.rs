//! Values stay under the limit of nesting.
//!
//! A value that stands at some depth is no higher than the room that is
//! left there. So a decoded value is never nested more deeply than the
//! limit, whether its parts were written out or stand behind references,
//! and what walks a decoded value goes no deeper than the limit.

use crate::grammar;
use crate::grammar::room;
use crate::grammar::Complex;
use crate::grammar::MAX_DEPTH;
use crate::grammar::Outcome;
use crate::marker;
use crate::progress::lemma_content_orderly;
use crate::sibling::Model;
use crate::sibling::SiblingDecoder;
use crate::table::SlotView;
use crate::value::height;
use crate::value::lemma_pairs_height;
use crate::value::lemma_values_height;
use crate::value::pairs_height;
use crate::value::values_height;
use crate::value::Pair;
use vstd::prelude::*;

verus! {

/// A decoded value is no higher than the room at its depth.
pub proof fn law_value_stays_under_the_limit<F: SiblingDecoder>(
    bytes: Seq<u8>,
    table: Seq<SlotView<Model<F>>>,
    depth: nat,
)
    requires
        depth <= MAX_DEPTH,
    ensures
        grammar::value::<F>(bytes, table, depth) matches Outcome::Done { value, .. } ==> height(
            value,
        ) + depth <= MAX_DEPTH,
    decreases bytes.len(), 0nat,
{
    if bytes.len() > 0 {
        lemma_marked_within::<F>(bytes[0], bytes.skip(1), table, depth);
    }
}

/// The value behind a marker byte is no higher than the room at its depth.
pub proof fn lemma_marked_within<F: SiblingDecoder>(
    marker: u8,
    bytes: Seq<u8>,
    table: Seq<SlotView<Model<F>>>,
    depth: nat,
)
    requires
        depth <= MAX_DEPTH,
    ensures
        grammar::marked::<F>(marker, bytes, table, depth) matches Outcome::Done { value, .. }
            ==> height(value) <= room(depth),
    decreases bytes.len(), 4nat,
{
    reveal(grammar::leaf);
    if grammar::leaf(marker, bytes, table, depth) is None {
        if let Some(kind) = grammar::complex_kind(marker) {
            lemma_complex_within::<F>(kind, bytes, table, depth);
        }
    }
}

/// A complex value is no higher than the room at its depth.
pub proof fn lemma_complex_within<F: SiblingDecoder>(
    kind: Complex,
    bytes: Seq<u8>,
    table: Seq<SlotView<Model<F>>>,
    depth: nat,
)
    requires
        depth <= MAX_DEPTH,
    ensures
        grammar::complex::<F>(kind, bytes, table, depth) matches Outcome::Done { value, .. }
            ==> height(value) <= room(depth),
    decreases bytes.len(), 3nat,
{
    if depth < MAX_DEPTH {
        lemma_content_within::<F>(kind, bytes, table.push(SlotView::Reserved), depth + 1);
    }
}

/// The content of a complex value makes a value one higher, at the most,
/// than the room at the depth of the content.
pub proof fn lemma_content_within<F: SiblingDecoder>(
    kind: Complex,
    bytes: Seq<u8>,
    table: Seq<SlotView<Model<F>>>,
    depth: nat,
)
    requires
        depth <= MAX_DEPTH,
    ensures
        grammar::content::<F>(kind, bytes, table, depth) matches Outcome::Done { value, .. }
            ==> height(value) <= 1 + room(depth),
    decreases bytes.len(), 2nat,
{
    reveal(grammar::short_text);
    match kind {
        Complex::Object => {
            lemma_pairs_within::<F>(bytes, table, depth);
        },
        Complex::TypedObject => {
            if let Ok((_, after_name)) = grammar::short_text(bytes) {
                lemma_pairs_within::<F>(after_name, table, depth);
            }
        },
        Complex::EcmaArray => {
            if let Ok((_, after_count)) = grammar::u32_field(bytes) {
                lemma_pairs_within::<F>(after_count, table, depth);
            }
        },
        Complex::StrictArray => {
            if let Ok((count, after_count)) = grammar::u32_field(bytes) {
                lemma_values_within::<F>(after_count, table, depth, count as nat);
            }
        },
    }
}

/// The values of a run of pairs are no higher than the room at their depth.
pub proof fn lemma_pairs_within<F: SiblingDecoder>(
    bytes: Seq<u8>,
    table: Seq<SlotView<Model<F>>>,
    depth: nat,
)
    requires
        depth <= MAX_DEPTH,
    ensures
        grammar::pairs::<F>(bytes, table, depth) matches Outcome::Done { value, .. }
            ==> pairs_height(value) <= room(depth),
    decreases bytes.len(), 1nat,
{
    reveal(grammar::short_text);
    if let Outcome::Done { value: entries, .. } = grammar::pairs::<F>(bytes, table, depth) {
        let (key, after_key) = grammar::short_text(bytes)->Ok_0;
        if !(key.len() == 0 && after_key[0] == marker::OBJECT_END_MARKER) {
            lemma_marked_within::<F>(after_key[0], after_key.skip(1), table, depth);
            let step = grammar::marked::<F>(after_key[0], after_key.skip(1), table, depth);
            let value = step->Done_value;
            lemma_pairs_within::<F>(step->Done_rest, step->Done_table, depth);
            let more = grammar::pairs::<F>(step->Done_rest, step->Done_table, depth)->Done_value;
            lemma_pairs_height(more, room(depth));
            lemma_pairs_height(entries, room(depth));
            assert(entries =~= seq![Pair { key, value }] + more);
        }
    }
}

/// The values of a row are no higher than the room at their depth.
pub proof fn lemma_values_within<F: SiblingDecoder>(
    bytes: Seq<u8>,
    table: Seq<SlotView<Model<F>>>,
    depth: nat,
    count: nat,
)
    requires
        depth <= MAX_DEPTH,
    ensures
        grammar::values::<F>(bytes, table, depth, count) matches Outcome::Done { value, .. }
            ==> values_height(value) <= room(depth),
    decreases bytes.len(), 1nat,
{
    if count > 0 {
        if let Outcome::Done { value: entries, .. } = grammar::values::<F>(
            bytes,
            table,
            depth,
            count,
        ) {
            law_value_stays_under_the_limit::<F>(bytes, table, depth);
            let step = grammar::value::<F>(bytes, table, depth);
            let first = step->Done_value;
            lemma_values_within::<F>(
                step->Done_rest,
                step->Done_table,
                depth,
                (count - 1) as nat,
            );
            let more = grammar::values::<F>(
                step->Done_rest,
                step->Done_table,
                depth,
                (count - 1) as nat,
            )->Done_value;
            lemma_values_height(more, room(depth));
            lemma_values_height(entries, room(depth));
            assert(entries =~= seq![first] + more);
        }
    }
}

/// The values that a decoding leaves in the reference table are no higher
/// than the limit of nesting, where those that it found there are not.
pub proof fn law_table_holds_values_under_the_limit<F: SiblingDecoder>(
    bytes: Seq<u8>,
    table: Seq<SlotView<Model<F>>>,
    depth: nat,
)
    requires
        depth <= MAX_DEPTH,
        shallow(table),
    ensures
        match grammar::value::<F>(bytes, table, depth) {
            Outcome::Done { table: after, .. } => shallow(after),
            Outcome::Failed { table: after, .. } => shallow(after),
            Outcome::Unknown => true,
        },
    decreases bytes.len(), 0nat,
{
    if bytes.len() > 0 {
        lemma_marked_table::<F>(bytes[0], bytes.skip(1), table, depth);
    }
}

/// Whether no value in `table` is higher than the limit of nesting.
pub open spec fn shallow<E>(table: Seq<SlotView<E>>) -> bool {
    forall|i: int|
        0 <= i < table.len() ==> ((#[trigger] table[i]) matches SlotView::Ready(value)
            ==> height(value) <= MAX_DEPTH)
}

/// Whether `outcome` leaves a table in which no value is higher than the
/// limit of nesting.
pub open spec fn leaves_shallow<T, E>(outcome: Outcome<T, E>) -> bool {
    match outcome {
        Outcome::Done { table, .. } => shallow(table),
        Outcome::Failed { table, .. } => shallow(table),
        Outcome::Unknown => true,
    }
}

/// The value behind a marker byte leaves no value in the table that is
/// higher than the limit of nesting.
pub proof fn lemma_marked_table<F: SiblingDecoder>(
    marker: u8,
    bytes: Seq<u8>,
    table: Seq<SlotView<Model<F>>>,
    depth: nat,
)
    requires
        depth <= MAX_DEPTH,
        shallow(table),
    ensures
        leaves_shallow(grammar::marked::<F>(marker, bytes, table, depth)),
    decreases bytes.len(), 4nat,
{
    reveal(grammar::leaf);
    if grammar::leaf(marker, bytes, table, depth) is None {
        if let Some(kind) = grammar::complex_kind(marker) {
            lemma_complex_table::<F>(kind, bytes, table, depth);
        }
    }
}

/// A complex value leaves no value in the table that is higher than the
/// limit of nesting.
pub proof fn lemma_complex_table<F: SiblingDecoder>(
    kind: Complex,
    bytes: Seq<u8>,
    table: Seq<SlotView<Model<F>>>,
    depth: nat,
)
    requires
        depth <= MAX_DEPTH,
        shallow(table),
    ensures
        leaves_shallow(grammar::complex::<F>(kind, bytes, table, depth)),
    decreases bytes.len(), 3nat,
{
    if depth < MAX_DEPTH {
        let reserved = table.push(SlotView::Reserved);
        lemma_content_table::<F>(kind, bytes, reserved, depth + 1);
        lemma_content_within::<F>(kind, bytes, reserved, depth + 1);
        lemma_content_orderly::<F>(kind, bytes, reserved, depth + 1);
    }
}

/// The content of a complex value leaves no value in the table that is
/// higher than the limit of nesting.
pub proof fn lemma_content_table<F: SiblingDecoder>(
    kind: Complex,
    bytes: Seq<u8>,
    table: Seq<SlotView<Model<F>>>,
    depth: nat,
)
    requires
        depth <= MAX_DEPTH,
        shallow(table),
    ensures
        leaves_shallow(grammar::content::<F>(kind, bytes, table, depth)),
    decreases bytes.len(), 2nat,
{
    reveal(grammar::short_text);
    match kind {
        Complex::Object => {
            lemma_pairs_table::<F>(bytes, table, depth);
        },
        Complex::TypedObject => {
            if let Ok((_, after_name)) = grammar::short_text(bytes) {
                lemma_pairs_table::<F>(after_name, table, depth);
            }
        },
        Complex::EcmaArray => {
            if let Ok((_, after_count)) = grammar::u32_field(bytes) {
                lemma_pairs_table::<F>(after_count, table, depth);
            }
        },
        Complex::StrictArray => {
            if let Ok((count, after_count)) = grammar::u32_field(bytes) {
                lemma_values_table::<F>(after_count, table, depth, count as nat);
            }
        },
    }
}

/// A run of pairs leaves no value in the table that is higher than the
/// limit of nesting.
pub proof fn lemma_pairs_table<F: SiblingDecoder>(
    bytes: Seq<u8>,
    table: Seq<SlotView<Model<F>>>,
    depth: nat,
)
    requires
        depth <= MAX_DEPTH,
        shallow(table),
    ensures
        leaves_shallow(grammar::pairs::<F>(bytes, table, depth)),
    decreases bytes.len(), 1nat,
{
    reveal(grammar::short_text);
    if let Ok((key, after_key)) = grammar::short_text(bytes) {
        if after_key.len() > 0 && !(key.len() == 0 && after_key[0]
            == marker::OBJECT_END_MARKER) {
            lemma_marked_table::<F>(after_key[0], after_key.skip(1), table, depth);
            if let Outcome::Done { value, rest, table: after } = grammar::marked::<F>(
                after_key[0],
                after_key.skip(1),
                table,
                depth,
            ) {
                if rest.len() < bytes.len() {
                    lemma_pairs_table::<F>(rest, after, depth);
                }
            }
        }
    }
}

/// A row of values leaves no value in the table that is higher than the
/// limit of nesting.
pub proof fn lemma_values_table<F: SiblingDecoder>(
    bytes: Seq<u8>,
    table: Seq<SlotView<Model<F>>>,
    depth: nat,
    count: nat,
)
    requires
        depth <= MAX_DEPTH,
        shallow(table),
    ensures
        leaves_shallow(grammar::values::<F>(bytes, table, depth, count)),
    decreases bytes.len(), 1nat,
{
    if count > 0 {
        law_table_holds_values_under_the_limit::<F>(bytes, table, depth);
        if let Outcome::Done { value, rest, table: after } = grammar::value::<F>(
            bytes,
            table,
            depth,
        ) {
            if rest.len() < bytes.len() {
                lemma_values_table::<F>(rest, after, depth, (count - 1) as nat);
            }
        }
    }
}

} // verus!
