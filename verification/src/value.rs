//! The values that the format holds.

use vstd::prelude::*;

verus! {

/// A key with its value: one entry of an object or an associative array.
///
/// The entries of a value stand in the order in which they were written, and
/// a key may occur among them more than once.
#[derive(Clone, Debug, PartialEq, Eq)]
pub struct Pair<K, V> {
    pub key: K,
    pub value: V,
}

/// A decoded value. `E` is the type of the values of the embedded format.
#[derive(Debug, PartialEq)]
#[allow(inconsistent_fields)]
pub enum Value<E> {
    /// A double, held as its 64 bits.
    Number(u64),
    Boolean(bool),
    /// A text, whether it was written as a string or as a long string.
    String(String),
    /// An object, typed where it has a class name.
    Object { class_name: Option<String>, entries: Vec<Pair<String, Value<E>>> },
    Null,
    Undefined,
    /// An associative array.
    EcmaArray { entries: Vec<Pair<String, Value<E>>> },
    /// A strict array.
    Array { entries: Vec<Value<E>> },
    /// A date: the whole milliseconds since the epoch, and the offset of the
    /// time zone in minutes. The offset is kept beside the time and is not
    /// applied to it.
    Date { unix_time: u64, time_zone: i16 },
    XmlDocument(String),
    /// A value of the embedded format.
    AvmPlus(E),
}

/// The model of a [`Value`]: texts are sequences of characters, entries are
/// sequences of models, and an embedded value is its own model. `E` is the
/// type of the models of the embedded values.
#[allow(inconsistent_fields)]
pub enum ValueView<E> {
    Number(u64),
    Boolean(bool),
    String(Seq<char>),
    Object { class_name: Option<Seq<char>>, entries: Seq<Pair<Seq<char>, ValueView<E>>> },
    Null,
    Undefined,
    EcmaArray { entries: Seq<Pair<Seq<char>, ValueView<E>>> },
    Array { entries: Seq<ValueView<E>> },
    Date { unix_time: u64, time_zone: i16 },
    XmlDocument(Seq<char>),
    AvmPlus(E),
}

/// The characters of a text that may be absent.
pub open spec fn text_view(text: Option<String>) -> Option<Seq<char>> {
    match text {
        Some(t) => Some(t@),
        None => None,
    }
}

/// The models of `values`, in their order.
pub open spec fn values_view<E: Embedded>(values: Seq<Value<E>>) -> Seq<ValueView<E::Model>>
    decreases values,
{
    Seq::new(
        values.len(),
        |i: int|
            if 0 <= i < values.len() {
                values[i].view()
            } else {
                ValueView::Null
            },
    )
}

/// The models of `pairs`, in their order.
pub open spec fn pairs_view<E: Embedded>(pairs: Seq<Pair<String, Value<E>>>) -> Seq<
    Pair<Seq<char>, ValueView<E::Model>>,
>
    decreases pairs,
{
    Seq::new(
        pairs.len(),
        |i: int|
            if 0 <= i < pairs.len() {
                Pair { key: pairs[i].key@, value: pairs[i].value.view() }
            } else {
                Pair { key: Seq::empty(), value: ValueView::Null }
            },
    )
}

impl<E: Embedded> View for Value<E> {
    type V = ValueView<E::Model>;

    open spec fn view(&self) -> ValueView<E::Model>
        decreases self,
    {
        match self {
            Value::Number(bits) => ValueView::Number(*bits),
            Value::Boolean(b) => ValueView::Boolean(*b),
            Value::String(text) => ValueView::String(text@),
            Value::Object { class_name, entries } => ValueView::Object {
                class_name: text_view(*class_name),
                entries: pairs_view(entries@),
            },
            Value::Null => ValueView::Null,
            Value::Undefined => ValueView::Undefined,
            Value::EcmaArray { entries } => ValueView::EcmaArray { entries: pairs_view(entries@) },
            Value::Array { entries } => ValueView::Array { entries: values_view(entries@) },
            Value::Date { unix_time, time_zone } => ValueView::Date {
                unix_time: *unix_time,
                time_zone: *time_zone,
            },
            Value::XmlDocument(text) => ValueView::XmlDocument(text@),
            Value::AvmPlus(embedded) => ValueView::AvmPlus(embedded.model()),
        }
    }
}

/// How high a value stands: 0 where it holds no other value, and for an
/// object or an array one more than the highest of the values in it. An
/// embedded value counts as a value that holds no other.
pub open spec fn height<E>(value: ValueView<E>) -> nat
    decreases value,
{
    match value {
        ValueView::Object { entries, .. } => 1 + pairs_height(entries),
        ValueView::EcmaArray { entries } => 1 + pairs_height(entries),
        ValueView::Array { entries } => 1 + values_height(entries),
        _ => 0,
    }
}

/// The height of the highest of `values`, and 0 where there are none.
pub open spec fn values_height<E>(values: Seq<ValueView<E>>) -> nat
    decreases values,
{
    if values.len() == 0 {
        0
    } else {
        let others = values_height(values.drop_last());
        if height(values.last()) > others {
            height(values.last())
        } else {
            others
        }
    }
}

/// The height of the highest of the values of `pairs`, and 0 where there are
/// none.
pub open spec fn pairs_height<E>(pairs: Seq<Pair<Seq<char>, ValueView<E>>>) -> nat
    decreases pairs,
{
    if pairs.len() == 0 {
        0
    } else {
        let others = pairs_height(pairs.drop_last());
        if height(pairs.last().value) > others {
            height(pairs.last().value)
        } else {
            others
        }
    }
}

/// The highest of `values` is no higher than `room` where each of them is.
pub proof fn lemma_values_height<E>(values: Seq<ValueView<E>>, room: nat)
    ensures
        values_height(values) <= room <==> forall|i: int|
            0 <= i < values.len() ==> height(#[trigger] values[i]) <= room,
    decreases values.len(),
{
    if values.len() > 0 {
        let others = values.drop_last();
        lemma_values_height(others, room);
        assert(forall|i: int| 0 <= i < others.len() ==> others[i] == values[i]);
        if values_height(values) <= room {
            assert forall|i: int| 0 <= i < values.len() implies height(#[trigger] values[i])
                <= room by {
                if i < others.len() {
                    assert(others[i] == values[i]);
                }
            }
        }
    }
}

/// The highest of the values of `pairs` is no higher than `room` where each
/// of them is.
pub proof fn lemma_pairs_height<E>(pairs: Seq<Pair<Seq<char>, ValueView<E>>>, room: nat)
    ensures
        pairs_height(pairs) <= room <==> forall|i: int|
            0 <= i < pairs.len() ==> height((#[trigger] pairs[i]).value) <= room,
    decreases pairs.len(),
{
    if pairs.len() > 0 {
        let others = pairs.drop_last();
        lemma_pairs_height(others, room);
        assert(forall|i: int| 0 <= i < others.len() ==> others[i] == pairs[i]);
        if pairs_height(pairs) <= room {
            assert forall|i: int| 0 <= i < pairs.len() implies height(
                (#[trigger] pairs[i]).value,
            ) <= room by {
                if i < others.len() {
                    assert(others[i] == pairs[i]);
                }
            }
        }
    }
}

/// What a value of the embedded format must offer: a copy of itself.
///
/// A reference stands for a copy of the value it names, and an embedded
/// value inside that value is copied with it. What is to stay the same in
/// the copy is the model of the value. A type that says nothing of its
/// model, as a type written in plain Rust does, keeps the `model` given
/// here, and nothing is then stated of its values or their copies.
pub trait Embedded: Sized {
    /// What the values of the type stand for.
    type Model;

    /// What the value stands for.
    open spec fn model(&self) -> Self::Model {
        arbitrary()
    }

    /// A copy of the value with the same model.
    fn duplicate(&self) -> (copy: Self)
        ensures
            copy.model() == self.model(),
    ;
}

/// The embedded values of a session that accepts none.
#[derive(Clone, Copy, Debug, PartialEq, Eq)]
pub struct NoValue;

impl Embedded for NoValue {
    type Model = NoValue;

    open spec fn model(&self) -> NoValue {
        *self
    }

    fn duplicate(&self) -> (copy: Self) {
        NoValue
    }
}

/// A copy of a text that may be absent.
pub fn duplicate_text(text: &Option<String>) -> (copy: Option<String>)
    ensures
        text_view(copy) == text_view(*text),
{
    match text {
        Some(t) => Some(t.clone()),
        None => None,
    }
}

/// Copies of `values`, in their order.
pub fn duplicate_values<E: Embedded>(values: &Vec<Value<E>>) -> (copies: Vec<Value<E>>)
    ensures
        values_view(copies@) == values_view(values@),
    decreases values,
{
    let mut copies: Vec<Value<E>> = Vec::new();
    let mut i: usize = 0;
    while i < values.len()
        invariant
            i <= values.len(),
            copies.len() == i,
            forall|j: int| 0 <= j < i ==> copies[j]@ == values[j]@,
        decreases values.len() - i,
    {
        let copy = values[i].duplicate();
        copies.push(copy);
        i = i + 1;
    }
    assert(values_view(copies@) =~= values_view(values@));
    copies
}

/// Copies of `pairs`, in their order.
pub fn duplicate_pairs<E: Embedded>(pairs: &Vec<Pair<String, Value<E>>>) -> (copies: Vec<
    Pair<String, Value<E>>,
>)
    ensures
        pairs_view(copies@) == pairs_view(pairs@),
    decreases pairs,
{
    let mut copies: Vec<Pair<String, Value<E>>> = Vec::new();
    let mut i: usize = 0;
    while i < pairs.len()
        invariant
            i <= pairs.len(),
            copies.len() == i,
            forall|j: int|
                0 <= j < i ==> copies[j].key@ == pairs[j].key@ && copies[j].value@
                    == pairs[j].value@,
        decreases pairs.len() - i,
    {
        let value = pairs[i].value.duplicate();
        copies.push(Pair { key: pairs[i].key.clone(), value });
        i = i + 1;
    }
    assert(pairs_view(copies@) =~= pairs_view(pairs@));
    copies
}

/// Whether none of `values` stands higher than `room`.
pub fn values_within<E: Embedded>(values: &Vec<Value<E>>, room: usize) -> (within: bool)
    ensures
        within == (values_height(values_view(values@)) <= room),
    decreases values,
{
    let mut i: usize = 0;
    while i < values.len()
        invariant
            i <= values.len(),
            forall|j: int| 0 <= j < i ==> height(#[trigger] values_view(values@)[j]) <= room,
        decreases values.len() - i,
    {
        if !values[i].stands_within(room) {
            proof {
                lemma_values_height(values_view(values@), room as nat);
                assert(height(values_view(values@)[i as int]) > room);
            }
            return false;
        }
        i = i + 1;
    }
    proof {
        lemma_values_height(values_view(values@), room as nat);
    }
    true
}

/// Whether none of the values of `pairs` stands higher than `room`.
pub fn pairs_within<E: Embedded>(pairs: &Vec<Pair<String, Value<E>>>, room: usize) -> (within: bool)
    ensures
        within == (pairs_height(pairs_view(pairs@)) <= room),
    decreases pairs,
{
    let mut i: usize = 0;
    while i < pairs.len()
        invariant
            i <= pairs.len(),
            forall|j: int| 0 <= j < i ==> height((#[trigger] pairs_view(pairs@)[j]).value) <= room,
        decreases pairs.len() - i,
    {
        if !pairs[i].value.stands_within(room) {
            proof {
                lemma_pairs_height(pairs_view(pairs@), room as nat);
                assert(height(pairs_view(pairs@)[i as int].value) > room);
            }
            return false;
        }
        i = i + 1;
    }
    proof {
        lemma_pairs_height(pairs_view(pairs@), room as nat);
    }
    true
}

impl<E: Embedded> Value<E> {
    /// Whether the value stands no higher than `room`. The answer is found
    /// without going deeper into the value than `room` levels.
    pub fn stands_within(&self, room: usize) -> (within: bool)
        ensures
            within == (height(self@) <= room),
        decreases self,
    {
        match self {
            Value::Object { entries, .. } => room > 0 && pairs_within(entries, room - 1),
            Value::EcmaArray { entries } => room > 0 && pairs_within(entries, room - 1),
            Value::Array { entries } => room > 0 && values_within(entries, room - 1),
            _ => true,
        }
    }
}

impl<E: Embedded> Value<E> {
    /// A copy of the value that shares nothing with it.
    pub fn duplicate(&self) -> (copy: Self)
        ensures
            copy@ == self@,
        decreases self,
    {
        match self {
            Value::Number(bits) => Value::Number(*bits),
            Value::Boolean(b) => Value::Boolean(*b),
            Value::String(text) => Value::String(text.clone()),
            Value::Object { class_name, entries } => Value::Object {
                class_name: duplicate_text(class_name),
                entries: duplicate_pairs(entries),
            },
            Value::Null => Value::Null,
            Value::Undefined => Value::Undefined,
            Value::EcmaArray { entries } => Value::EcmaArray { entries: duplicate_pairs(entries) },
            Value::Array { entries } => Value::Array { entries: duplicate_values(entries) },
            Value::Date { unix_time, time_zone } => Value::Date {
                unix_time: *unix_time,
                time_zone: *time_zone,
            },
            Value::XmlDocument(text) => Value::XmlDocument(text.clone()),
            Value::AvmPlus(embedded) => Value::AvmPlus(embedded.duplicate()),
        }
    }
}

impl<E: Embedded> Clone for Value<E> {
    fn clone(&self) -> (copy: Self)
        ensures
            copy@ == self@,
    {
        self.duplicate()
    }
}

} // verus!
