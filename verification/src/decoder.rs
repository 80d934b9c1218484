//! The decoder.

use crate::double::millis_from_double;
use crate::double::valid_millis;
use crate::error::DecodeError;
use crate::error::DecodeResult;
use crate::grammar;
use crate::grammar::room;
use crate::grammar::Complex;
use crate::grammar::MAX_DEPTH;
use crate::grammar::Outcome;
use crate::marker;
use crate::read::read_i16;
use crate::read::read_u16;
use crate::read::read_u32;
use crate::read::read_u64;
use crate::read::read_u8;
use crate::read::read_utf8;
use crate::sibling::Model;
use crate::sibling::NoSibling;
use crate::sibling::SiblingDecoder;
use crate::source::Buffer;
use crate::source::ByteSource;
use crate::table::extends;
use crate::table::ReferenceTable;
use crate::table::SlotView;
use crate::value::height;
use crate::value::pairs_height;
use crate::value::pairs_view;
use crate::value::values_height;
use crate::value::values_view;
use crate::value::Embedded;
use crate::value::NoValue;
use crate::value::Pair;
use crate::value::Value;
use crate::value::ValueView;
use vstd::prelude::*;

verus! {

/// The model of a decoded value, or the error.
pub open spec fn value_read<E: Embedded>(result: DecodeResult<Value<E>>) -> DecodeResult<
    ValueView<E::Model>,
> {
    match result {
        Ok(value) => Ok(value@),
        Err(error) => Err(error),
    }
}

/// The models of decoded values, or the error.
pub open spec fn values_read<E: Embedded>(result: DecodeResult<Vec<Value<E>>>) -> DecodeResult<
    Seq<ValueView<E::Model>>,
> {
    match result {
        Ok(values) => Ok(values_view(values@)),
        Err(error) => Err(error),
    }
}

/// The models of decoded pairs, or the error.
pub open spec fn pairs_read<E: Embedded>(
    result: DecodeResult<Vec<Pair<String, Value<E>>>>,
) -> DecodeResult<Seq<Pair<Seq<char>, ValueView<E::Model>>>> {
    match result {
        Ok(pairs) => Ok(pairs_view(pairs@)),
        Err(error) => Err(error),
    }
}

/// Whether a decode step that returned `result`, and left the source with
/// `pending` and the table as `table`, did what `outcome` prescribes: the
/// value or the error, the bytes left and the table, on a success and on a
/// failure alike. An unknown outcome prescribes nothing.
pub open spec fn settled<T, E>(
    outcome: Outcome<T, E>,
    result: DecodeResult<T>,
    pending: Option<Seq<u8>>,
    table: Seq<SlotView<E>>,
) -> bool {
    match outcome {
        Outcome::Done { value, rest, table: prescribed } => result == Ok::<T, DecodeError>(value)
            && pending == Some(rest) && table == prescribed,
        Outcome::Failed { error, rest, table: prescribed } => result == Err::<T, DecodeError>(
            error,
        ) && pending == Some(rest) && table == prescribed,
        Outcome::Unknown => true,
    }
}

/// The value that the double `millis` and the offset `time_zone` make as a
/// date.
pub fn date_from_parts<E: Embedded>(millis: u64, time_zone: i16) -> (value: DecodeResult<
    Value<E>,
>)
    ensures
        value_read(value) == grammar::date_of::<E::Model>(millis, time_zone),
{
    if valid_millis(millis) {
        Ok(Value::Date { unix_time: millis_from_double(millis), time_zone })
    } else {
        Err(DecodeError::InvalidDate { millis })
    }
}

/// What the decoder returns for what the sibling decoder returned: the
/// embedded value wrapped, or the error as it came.
pub fn embedded_value<E: Embedded>(outcome: Result<E, DecodeError>) -> (value: DecodeResult<
    Value<E>,
>)
    ensures
        value matches Ok(wrapped) ==> outcome matches Ok(embedded) && wrapped == Value::AvmPlus(
            embedded,
        ),
        value_read(value) == match outcome {
            Ok(embedded) => Ok::<ValueView<E::Model>, DecodeError>(
                ValueView::AvmPlus(embedded.model()),
            ),
            Err(error) => Err::<ValueView<E::Model>, DecodeError>(error),
        },
{
    match outcome {
        Ok(embedded) => Ok(Value::AvmPlus(embedded)),
        Err(error) => Err(error),
    }
}

/// A decoder of AMF0 values, reading from `R` and handing embedded values to
/// `F`.
///
/// The decoder owns the byte source and the reference table of the session.
/// Each call of [`Decoder::decode`] reads one value and moves the source
/// past it. The table lives on from call to call until it is cleared.
#[derive(Debug)]
pub struct Decoder<R, F: SiblingDecoder> {
    inner: R,
    sibling: F,
    complexes: ReferenceTable<F::Value>,
}

impl<R, F: SiblingDecoder> Decoder<R, F> {
    /// The byte source.
    pub closed spec fn source(&self) -> R {
        self.inner
    }

    /// The sibling decoder.
    pub closed spec fn sibling(&self) -> F {
        self.sibling
    }

    /// The reference table.
    pub closed spec fn table(&self) -> Seq<SlotView<Model<F>>> {
        self.complexes@
    }

    /// Unwraps the decoder, returning the byte source.
    pub fn into_inner(self) -> (source: R)
        ensures
            source == self.source(),
    {
        self.inner
    }

    /// The byte source.
    pub fn inner(&self) -> (source: &R)
        ensures
            *source == self.source(),
    {
        &self.inner
    }

    /// The byte source, to be changed in place. The reference table stays as
    /// it is.
    pub fn inner_mut(&mut self) -> (source: &mut R)
        ensures
            *source == old(self).source(),
            final(self).source() == *final(source),
            final(self).sibling() == old(self).sibling(),
            final(self).table() == old(self).table(),
    {
        &mut self.inner
    }
}

impl<R: ByteSource, F: SiblingDecoder> Decoder<R, F> {
    /// The bytes that the source has yet to hand over, where it knows them.
    pub open spec fn pending(&self) -> Option<Seq<u8>> {
        self.source().pending()
    }

    /// A decoder that reads from `inner` with an empty reference table and
    /// hands embedded values to `sibling`.
    pub fn with_sibling(inner: R, sibling: F) -> (decoder: Self)
        ensures
            decoder.source() == inner,
            decoder.sibling() == sibling,
            decoder.table() == Seq::<SlotView<Model<F>>>::empty(),
    {
        Decoder { inner, sibling, complexes: ReferenceTable::new() }
    }

    /// Clears the reference table.
    ///
    /// The indices of references count from the start of a message, so the
    /// table is to be cleared between one message and the next.
    pub fn clear_reference_table(&mut self)
        ensures
            final(self).table() == Seq::<SlotView<Model<F>>>::empty(),
            final(self).source() == old(self).source(),
            final(self).sibling() == old(self).sibling(),
    {
        self.complexes.clear();
    }

    /// Decodes one value.
    ///
    /// Where the bytes that the source will hand over are known, the value
    /// returned, the bytes left in the source and the reference table are
    /// those that [`grammar::value`] gives for them, whether the value
    /// decodes or fails: a failure leaves in the source the bytes that had
    /// not been read when the error was met.
    ///
    /// Whatever the source, the value returned is nested no more deeply than
    /// [`MAX_DEPTH`], and the table has every slot that it had.
    pub fn decode(&mut self) -> (value: DecodeResult<Value<F::Value>>)
        ensures
            value matches Ok(decoded) ==> height(decoded@) <= MAX_DEPTH,
            extends(old(self).table(), final(self).table()),
            old(self).pending() matches Some(before) ==> settled(
                grammar::value::<F>(before, old(self).table(), 0),
                value_read(value),
                final(self).pending(),
                final(self).table(),
            ),
    {
        self.decode_value(0)
    }

    fn decode_number(&mut self) -> (value: DecodeResult<Value<F::Value>>)
        ensures
            value matches Ok(decoded) ==> height(decoded@) == 0,
            final(self).table() == old(self).table(),
            old(self).pending() matches Some(before) ==> settled(
                grammar::scalar(grammar::number(before), old(self).table()),
                value_read(value),
                final(self).pending(),
                final(self).table(),
            ),
    {
        match read_u64(&mut self.inner) {
            Ok(bits) => Ok(Value::Number(bits)),
            Err(error) => Err(error),
        }
    }

    fn decode_boolean(&mut self) -> (value: DecodeResult<Value<F::Value>>)
        ensures
            value matches Ok(decoded) ==> height(decoded@) == 0,
            final(self).table() == old(self).table(),
            old(self).pending() matches Some(before) ==> settled(
                grammar::scalar(grammar::boolean(before), old(self).table()),
                value_read(value),
                final(self).pending(),
                final(self).table(),
            ),
    {
        match read_u8(&mut self.inner) {
            Ok(byte) => Ok(Value::Boolean(byte != 0)),
            Err(error) => Err(error),
        }
    }

    fn decode_string(&mut self) -> (value: DecodeResult<Value<F::Value>>)
        ensures
            value matches Ok(decoded) ==> height(decoded@) == 0,
            final(self).table() == old(self).table(),
            old(self).pending() matches Some(before) ==> settled(
                grammar::scalar(grammar::string(before), old(self).table()),
                value_read(value),
                final(self).pending(),
                final(self).table(),
            ),
    {
        reveal(grammar::short_text);
        let len = match read_u16(&mut self.inner) {
            Ok(len) => len,
            Err(error) => return Err(error),
        };
        match read_utf8(&mut self.inner, len as usize) {
            Ok(text) => Ok(Value::String(text)),
            Err(error) => Err(error),
        }
    }

    fn decode_long_string(&mut self) -> (value: DecodeResult<Value<F::Value>>)
        ensures
            value matches Ok(decoded) ==> height(decoded@) == 0,
            final(self).table() == old(self).table(),
            old(self).pending() matches Some(before) ==> settled(
                grammar::scalar(grammar::long_string(before), old(self).table()),
                value_read(value),
                final(self).pending(),
                final(self).table(),
            ),
    {
        reveal(grammar::long_text);
        let len = match read_u32(&mut self.inner) {
            Ok(len) => len,
            Err(error) => return Err(error),
        };
        match read_utf8(&mut self.inner, len as usize) {
            Ok(text) => Ok(Value::String(text)),
            Err(error) => Err(error),
        }
    }

    fn decode_xml_document(&mut self) -> (value: DecodeResult<Value<F::Value>>)
        ensures
            value matches Ok(decoded) ==> height(decoded@) == 0,
            final(self).table() == old(self).table(),
            old(self).pending() matches Some(before) ==> settled(
                grammar::scalar(grammar::xml_document(before), old(self).table()),
                value_read(value),
                final(self).pending(),
                final(self).table(),
            ),
    {
        reveal(grammar::long_text);
        let len = match read_u32(&mut self.inner) {
            Ok(len) => len,
            Err(error) => return Err(error),
        };
        match read_utf8(&mut self.inner, len as usize) {
            Ok(text) => Ok(Value::XmlDocument(text)),
            Err(error) => Err(error),
        }
    }

    fn decode_date(&mut self) -> (value: DecodeResult<Value<F::Value>>)
        ensures
            value matches Ok(decoded) ==> height(decoded@) == 0,
            final(self).table() == old(self).table(),
            old(self).pending() matches Some(before) ==> settled(
                grammar::scalar(grammar::date(before), old(self).table()),
                value_read(value),
                final(self).pending(),
                final(self).table(),
            ),
    {
        let millis = match read_u64(&mut self.inner) {
            Ok(millis) => millis,
            Err(error) => return Err(error),
        };
        let time_zone = match read_i16(&mut self.inner) {
            Ok(time_zone) => time_zone,
            Err(error) => return Err(error),
        };
        date_from_parts(millis, time_zone)
    }

    fn decode_reference(&mut self, depth: usize) -> (value: DecodeResult<Value<F::Value>>)
        requires
            depth <= MAX_DEPTH,
        ensures
            value matches Ok(decoded) ==> height(decoded@) <= room(depth as nat),
            final(self).table() == old(self).table(),
            old(self).pending() matches Some(before) ==> settled(
                grammar::scalar(
                    grammar::reference(before, old(self).table(), depth as nat),
                    old(self).table(),
                ),
                value_read(value),
                final(self).pending(),
                final(self).table(),
            ),
    {
        let index = match read_u16(&mut self.inner) {
            Ok(index) => index,
            Err(error) => return Err(error),
        };
        self.complexes.get(index as usize, MAX_DEPTH - depth)
    }

    fn decode_avmplus(&mut self) -> (value: DecodeResult<Value<F::Value>>)
        ensures
            value matches Ok(decoded) ==> height(decoded@) == 0,
            final(self).table() == old(self).table(),
            old(self).pending() matches Some(before) ==> settled(
                grammar::avmplus::<F>(before, old(self).table()),
                value_read(value),
                final(self).pending(),
                final(self).table(),
            ),
    {
        let outcome = self.sibling.decode(&mut self.inner);
        embedded_value(outcome)
    }

    /// Decodes one value at nesting depth `depth`.
    fn decode_value(&mut self, depth: usize) -> (value: DecodeResult<Value<F::Value>>)
        requires
            depth <= MAX_DEPTH,
        ensures
            value matches Ok(decoded) ==> height(decoded@) <= room(depth as nat),
            extends(old(self).table(), final(self).table()),
            old(self).pending() matches Some(before) ==> settled(
                grammar::value::<F>(before, old(self).table(), depth as nat),
                value_read(value),
                final(self).pending(),
                final(self).table(),
            ),
        decreases MAX_DEPTH - depth, 3nat,
    {
        match read_u8(&mut self.inner) {
            Ok(marker) => self.decode_marked(marker, depth),
            Err(error) => Err(error),
        }
    }

    /// Decodes the value that follows the marker byte `marker`.
    fn decode_marked(&mut self, marker: u8, depth: usize) -> (value: DecodeResult<
        Value<F::Value>,
    >)
        requires
            depth <= MAX_DEPTH,
        ensures
            value matches Ok(decoded) ==> height(decoded@) <= room(depth as nat),
            extends(old(self).table(), final(self).table()),
            old(self).pending() matches Some(before) ==> settled(
                grammar::marked::<F>(marker, before, old(self).table(), depth as nat),
                value_read(value),
                final(self).pending(),
                final(self).table(),
            ),
        decreases MAX_DEPTH - depth, 2nat,
    {
        reveal(grammar::leaf);
        if marker == marker::NUMBER {
            self.decode_number()
        } else if marker == marker::BOOLEAN {
            self.decode_boolean()
        } else if marker == marker::STRING {
            self.decode_string()
        } else if marker == marker::OBJECT {
            self.decode_complex_type(Complex::Object, depth)
        } else if marker == marker::MOVIECLIP {
            Err(DecodeError::Unsupported { marker })
        } else if marker == marker::NULL {
            Ok(Value::Null)
        } else if marker == marker::UNDEFINED {
            Ok(Value::Undefined)
        } else if marker == marker::REFERENCE {
            self.decode_reference(depth)
        } else if marker == marker::ECMA_ARRAY {
            self.decode_complex_type(Complex::EcmaArray, depth)
        } else if marker == marker::OBJECT_END_MARKER {
            Err(DecodeError::UnexpectedObjectEnd)
        } else if marker == marker::STRICT_ARRAY {
            self.decode_complex_type(Complex::StrictArray, depth)
        } else if marker == marker::DATE {
            self.decode_date()
        } else if marker == marker::LONG_STRING {
            self.decode_long_string()
        } else if marker == marker::UNSUPPORTED {
            Err(DecodeError::Unsupported { marker })
        } else if marker == marker::RECORDSET {
            Err(DecodeError::Unsupported { marker })
        } else if marker == marker::XML_DOCUMENT {
            self.decode_xml_document()
        } else if marker == marker::TYPED_OBJECT {
            self.decode_complex_type(Complex::TypedObject, depth)
        } else if marker == marker::AVMPLUS_OBJECT {
            self.decode_avmplus()
        } else {
            Err(DecodeError::Unknown { marker })
        }
    }

    /// Decodes a complex value: takes a slot for it, decodes its content,
    /// and fills the slot with a copy of the value. Where the content fails,
    /// the slot stays reserved.
    fn decode_complex_type(&mut self, kind: Complex, depth: usize) -> (value: DecodeResult<
        Value<F::Value>,
    >)
        requires
            depth <= MAX_DEPTH,
        ensures
            value matches Ok(decoded) ==> height(decoded@) <= room(depth as nat),
            extends(old(self).table(), final(self).table()),
            old(self).pending() matches Some(before) ==> settled(
                grammar::complex::<F>(kind, before, old(self).table(), depth as nat),
                value_read(value),
                final(self).pending(),
                final(self).table(),
            ),
        decreases MAX_DEPTH - depth, 0nat,
    {
        if depth >= MAX_DEPTH {
            return Err(DecodeError::RecursionLimitExceeded);
        }
        let index = self.complexes.reserve();
        let content = match kind {
            Complex::Object => self.decode_object(depth + 1),
            Complex::TypedObject => self.decode_typed_object(depth + 1),
            Complex::EcmaArray => self.decode_ecma_array(depth + 1),
            Complex::StrictArray => self.decode_strict_array(depth + 1),
        };
        let value = match content {
            Ok(value) => value,
            Err(error) => return Err(error),
        };
        self.complexes.finalize(index, &value);
        Ok(value)
    }

    /// Decodes the content of an object: its pairs.
    fn decode_object(&mut self, depth: usize) -> (value: DecodeResult<Value<F::Value>>)
        requires
            depth <= MAX_DEPTH,
        ensures
            value matches Ok(decoded) ==> height(decoded@) <= 1 + room(depth as nat),
            extends(old(self).table(), final(self).table()),
            old(self).pending() matches Some(before) ==> settled(
                grammar::content::<F>(Complex::Object, before, old(self).table(), depth as nat),
                value_read(value),
                final(self).pending(),
                final(self).table(),
            ),
        decreases MAX_DEPTH - depth, 6nat,
    {
        match self.decode_pairs(depth) {
            Ok(entries) => Ok(Value::Object { class_name: None, entries }),
            Err(error) => Err(error),
        }
    }

    /// Decodes the content of a typed object: its class name, then its
    /// pairs.
    fn decode_typed_object(&mut self, depth: usize) -> (value: DecodeResult<Value<F::Value>>)
        requires
            depth <= MAX_DEPTH,
        ensures
            value matches Ok(decoded) ==> height(decoded@) <= 1 + room(depth as nat),
            extends(old(self).table(), final(self).table()),
            old(self).pending() matches Some(before) ==> settled(
                grammar::content::<F>(
                    Complex::TypedObject,
                    before,
                    old(self).table(),
                    depth as nat,
                ),
                value_read(value),
                final(self).pending(),
                final(self).table(),
            ),
        decreases MAX_DEPTH - depth, 6nat,
    {
        reveal(grammar::short_text);
        let len = match read_u16(&mut self.inner) {
            Ok(len) => len,
            Err(error) => return Err(error),
        };
        let class_name = match read_utf8(&mut self.inner, len as usize) {
            Ok(class_name) => class_name,
            Err(error) => return Err(error),
        };
        match self.decode_pairs(depth) {
            Ok(entries) => Ok(Value::Object { class_name: Some(class_name), entries }),
            Err(error) => Err(error),
        }
    }

    /// Decodes the content of an associative array: a count, which is read
    /// and set aside, then its pairs.
    fn decode_ecma_array(&mut self, depth: usize) -> (value: DecodeResult<Value<F::Value>>)
        requires
            depth <= MAX_DEPTH,
        ensures
            value matches Ok(decoded) ==> height(decoded@) <= 1 + room(depth as nat),
            extends(old(self).table(), final(self).table()),
            old(self).pending() matches Some(before) ==> settled(
                grammar::content::<F>(Complex::EcmaArray, before, old(self).table(), depth as nat),
                value_read(value),
                final(self).pending(),
                final(self).table(),
            ),
        decreases MAX_DEPTH - depth, 6nat,
    {
        match read_u32(&mut self.inner) {
            Ok(_) => {},
            Err(error) => return Err(error),
        };
        match self.decode_pairs(depth) {
            Ok(entries) => Ok(Value::EcmaArray { entries }),
            Err(error) => Err(error),
        }
    }

    /// Decodes the content of a strict array: a count, then that many
    /// values.
    fn decode_strict_array(&mut self, depth: usize) -> (value: DecodeResult<Value<F::Value>>)
        requires
            depth <= MAX_DEPTH,
        ensures
            value matches Ok(decoded) ==> height(decoded@) <= 1 + room(depth as nat),
            extends(old(self).table(), final(self).table()),
            old(self).pending() matches Some(before) ==> settled(
                grammar::content::<F>(
                    Complex::StrictArray,
                    before,
                    old(self).table(),
                    depth as nat,
                ),
                value_read(value),
                final(self).pending(),
                final(self).table(),
            ),
        decreases MAX_DEPTH - depth, 6nat,
    {
        let count = match read_u32(&mut self.inner) {
            Ok(count) => count,
            Err(error) => return Err(error),
        };
        match self.decode_values(count, depth) {
            Ok(entries) => Ok(Value::Array { entries }),
            Err(error) => Err(error),
        }
    }

    /// Decodes a run of pairs up to its end mark.
    fn decode_pairs(&mut self, depth: usize) -> (entries: DecodeResult<
        Vec<Pair<String, Value<F::Value>>>,
    >)
        requires
            depth <= MAX_DEPTH,
        ensures
            entries matches Ok(decoded) ==> pairs_height(pairs_view(decoded@)) <= room(
                depth as nat,
            ),
            extends(old(self).table(), final(self).table()),
            old(self).pending() matches Some(before) ==> settled(
                grammar::pairs::<F>(before, old(self).table(), depth as nat),
                pairs_read(entries),
                final(self).pending(),
                final(self).table(),
            ),
        decreases MAX_DEPTH - depth, 5nat,
    {
        let ghost start = self.pending();
        let ghost table = self.table();
        let mut entries: Vec<Pair<String, Value<F::Value>>> = Vec::new();
        assert(pairs_view(entries@) =~= Seq::empty());
        loop
            invariant
                depth <= MAX_DEPTH,
                start == old(self).pending(),
                table == old(self).table(),
                extends(table, self.table()),
                pairs_height(pairs_view(entries@)) <= room(depth as nat),
                start matches Some(before) ==> {
                    let goal = grammar::pairs::<F>(before, table, depth as nat);
                    goal is Unknown || (self.pending() matches Some(now) && goal
                        == grammar::preceded(
                        pairs_view(entries@),
                        grammar::pairs::<F>(now, self.table(), depth as nat),
                    ))
                },
            decreases usize::MAX - entries.len(),
        {
            reveal(grammar::short_text);
            let ghost now = self.pending();
            let ghost table_now = self.table();
            let ghost seen = entries@;
            let len = match read_u16(&mut self.inner) {
                Ok(len) => len,
                Err(error) => return Err(error),
            };
            let key = match read_utf8(&mut self.inner, len as usize) {
                Ok(key) => key,
                Err(error) => return Err(error),
            };
            let marker = match read_u8(&mut self.inner) {
                Ok(marker) => marker,
                Err(error) => return Err(error),
            };
            if marker == marker::OBJECT_END_MARKER && key.as_str().is_empty() {
                proof {
                    assert(pairs_view(entries@) + Seq::empty() =~= pairs_view(entries@));
                }
                return Ok(entries);
            }
            let value = match self.decode_marked(marker, depth) {
                Ok(value) => value,
                Err(error) => return Err(error),
            };
            let ghost pair = Pair { key: key@, value: value@ };
            entries.push(Pair { key, value });
            proof {
                assert(pairs_view(entries@) =~= pairs_view(seen) + seq![pair]);
                assert(pairs_view(entries@).drop_last() =~= pairs_view(seen));
                if let Some(before) = start {
                    let goal = grammar::pairs::<F>(before, table, depth as nat);
                    if !(goal is Unknown) {
                        let next = grammar::pairs::<F>(
                            self.pending()->0,
                            self.table(),
                            depth as nat,
                        );
                        assert(grammar::pairs::<F>(now->0, table_now, depth as nat)
                            == grammar::preceded(seq![pair], next));
                        grammar::lemma_preceded_twice(pairs_view(seen), seq![pair], next);
                    }
                }
            }
        }
    }

    /// Decodes `count` values, one after the other.
    fn decode_values(&mut self, count: u32, depth: usize) -> (entries: DecodeResult<
        Vec<Value<F::Value>>,
    >)
        requires
            depth <= MAX_DEPTH,
        ensures
            entries matches Ok(decoded) ==> values_height(values_view(decoded@)) <= room(
                depth as nat,
            ),
            extends(old(self).table(), final(self).table()),
            old(self).pending() matches Some(before) ==> settled(
                grammar::values::<F>(before, old(self).table(), depth as nat, count as nat),
                values_read(entries),
                final(self).pending(),
                final(self).table(),
            ),
        decreases MAX_DEPTH - depth, 5nat,
    {
        let ghost start = self.pending();
        let ghost table = self.table();
        let mut entries: Vec<Value<F::Value>> = Vec::new();
        let mut done: u32 = 0;
        assert(values_view(entries@) =~= Seq::empty());
        while done < count
            invariant
                depth <= MAX_DEPTH,
                done <= count,
                start == old(self).pending(),
                table == old(self).table(),
                extends(table, self.table()),
                values_height(values_view(entries@)) <= room(depth as nat),
                start matches Some(before) ==> {
                    let goal = grammar::values::<F>(before, table, depth as nat, count as nat);
                    goal is Unknown || (self.pending() matches Some(now) && goal
                        == grammar::preceded(
                        values_view(entries@),
                        grammar::values::<F>(
                            now,
                            self.table(),
                            depth as nat,
                            (count - done) as nat,
                        ),
                    ))
                },
            decreases count - done,
        {
            let ghost now = self.pending();
            let ghost table_now = self.table();
            let ghost seen = entries@;
            let value = match self.decode_value(depth) {
                Ok(value) => value,
                Err(error) => return Err(error),
            };
            let ghost model = value@;
            entries.push(value);
            done = done + 1;
            proof {
                assert(values_view(entries@) =~= values_view(seen) + seq![model]);
                assert(values_view(entries@).drop_last() =~= values_view(seen));
                if let Some(before) = start {
                    let goal = grammar::values::<F>(before, table, depth as nat, count as nat);
                    if !(goal is Unknown) {
                        let next = grammar::values::<F>(
                            self.pending()->0,
                            self.table(),
                            depth as nat,
                            (count - done) as nat,
                        );
                        assert(grammar::values::<F>(
                            now->0,
                            table_now,
                            depth as nat,
                            (count - done + 1) as nat,
                        ) == grammar::preceded(seq![model], next));
                        grammar::lemma_preceded_twice(values_view(seen), seq![model], next);
                    }
                }
            }
        }
        proof {
            assert(values_view(entries@) + Seq::empty() =~= values_view(entries@));
        }
        Ok(entries)
    }
}

impl<R: ByteSource> Decoder<R, NoSibling> {
    /// A decoder that reads from `inner` with an empty reference table. It
    /// accepts no embedded values: each is refused as unsupported.
    pub fn new(inner: R) -> (decoder: Self)
        ensures
            decoder.source() == inner,
            decoder.sibling() == NoSibling,
            decoder.table() == Seq::<SlotView<NoValue>>::empty(),
    {
        Decoder::with_sibling(inner, NoSibling)
    }
}

impl Decoder<Buffer, NoSibling> {
    /// A decoder that reads a copy of the bytes of `inner`.
    pub fn new_from_array(inner: &[u8]) -> (decoder: Self)
        ensures
            decoder.pending() == Some(inner@),
            decoder.table() == Seq::<SlotView<NoValue>>::empty(),
    {
        Decoder::new(Buffer::from_slice(inner))
    }
}

impl<F: SiblingDecoder> Decoder<Buffer, F> {
    /// Decodes values until the buffer has been read to its end, and returns
    /// them in their order. The first value that fails ends the decoding with
    /// its error, and leaves in the buffer the bytes that had not been read
    /// when the error was met.
    pub fn decode_entire(&mut self) -> (values: DecodeResult<Vec<Value<F::Value>>>)
        ensures
            values matches Ok(decoded) ==> values_height(values_view(decoded@)) <= MAX_DEPTH,
            extends(old(self).table(), final(self).table()),
            settled(
                grammar::stream::<F>(old(self).source().unread(), old(self).table()),
                values_read(values),
                final(self).pending(),
                final(self).table(),
            ),
    {
        let ghost start = self.inner.unread();
        let ghost table = self.table();
        let mut values: Vec<Value<F::Value>> = Vec::new();
        assert(values_view(values@) =~= Seq::empty());
        while self.inner.remaining() > 0
            invariant
                start == old(self).source().unread(),
                table == old(self).table(),
                extends(table, self.table()),
                values_height(values_view(values@)) <= MAX_DEPTH,
                ({
                    let goal = grammar::stream::<F>(start, table);
                    goal is Unknown || goal == grammar::preceded(
                        values_view(values@),
                        grammar::stream::<F>(self.inner.unread(), self.table()),
                    )
                }),
            decreases usize::MAX - values.len(),
        {
            let ghost now = self.inner.unread();
            let ghost table_now = self.table();
            let ghost seen = values@;
            let value = match self.decode_value(0) {
                Ok(value) => value,
                Err(error) => return Err(error),
            };
            let ghost model = value@;
            values.push(value);
            proof {
                assert(values_view(values@) =~= values_view(seen) + seq![model]);
                assert(values_view(values@).drop_last() =~= values_view(seen));
                let goal = grammar::stream::<F>(start, table);
                if !(goal is Unknown) {
                    let next = grammar::stream::<F>(self.inner.unread(), self.table());
                    assert(grammar::stream::<F>(now, table_now) == grammar::preceded(
                        seq![model],
                        next,
                    ));
                    grammar::lemma_preceded_twice(values_view(seen), seq![model], next);
                }
            }
        }
        proof {
            assert(values_view(values@) + Seq::empty() =~= values_view(values@));
        }
        Ok(values)
    }
}

} // verus!
