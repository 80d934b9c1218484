//! The reference table of a session.
//!
//! Each object and array takes the next slot of the table when its decoding
//! begins, and fills it when its decoding has succeeded. A reference names a
//! slot by its index and stands for a copy of the value in it.

use crate::error::DecodeError;
use crate::error::DecodeResult;
use crate::value::height;
use crate::value::Embedded;
use crate::value::Value;
use crate::value::ValueView;
use vstd::prelude::*;

verus! {

/// One entry of the reference table.
#[derive(Debug)]
pub enum Slot<E> {
    /// The value that owns the slot is still being decoded.
    Reserved,
    /// The value that owns the slot.
    Ready(Value<E>),
}

/// The model of a [`Slot`].
pub enum SlotView<E> {
    Reserved,
    Ready(ValueView<E>),
}

impl<E: Embedded> View for Slot<E> {
    type V = SlotView<E::Model>;

    open spec fn view(&self) -> SlotView<E::Model> {
        match self {
            Slot::Reserved => SlotView::Reserved,
            Slot::Ready(value) => SlotView::Ready(value@),
        }
    }
}

/// What a reference to slot `index` of `table` stands for, where there is
/// room for a value of the height `room` or less: the value in the slot. It
/// fails where the table has no such slot, where the slot is reserved, and
/// where the value in it stands higher than there is room for.
pub open spec fn resolve<E>(table: Seq<SlotView<E>>, index: nat, room: nat) -> Result<
    ValueView<E>,
    DecodeError,
> {
    if index >= table.len() {
        Err(DecodeError::OutOfRangeReference { index: index as usize })
    } else {
        match table[index as int] {
            SlotView::Reserved => Err(DecodeError::CircularReference { index: index as usize }),
            SlotView::Ready(value) => if height(value) <= room {
                Ok(value)
            } else {
                Err(DecodeError::RecursionLimitExceeded)
            },
        }
    }
}

/// Whether the table `after` is the table `before` with slots added at its
/// end: no slot that was there has gone or changed.
pub open spec fn extends<E>(before: Seq<SlotView<E>>, after: Seq<SlotView<E>>) -> bool {
    before.len() <= after.len() && forall|i: int|
        0 <= i < before.len() ==> #[trigger] after[i] == before[i]
}

/// The slots of one session, in the order in which they were taken.
#[derive(Debug)]
pub struct ReferenceTable<E> {
    slots: Vec<Slot<E>>,
}

impl<E: Embedded> View for ReferenceTable<E> {
    type V = Seq<SlotView<E::Model>>;

    closed spec fn view(&self) -> Seq<SlotView<E::Model>> {
        Seq::new(self.slots.len() as nat, |i: int| self.slots[i]@)
    }
}

impl<E: Embedded> ReferenceTable<E> {
    /// A table without slots.
    pub fn new() -> (table: Self)
        ensures
            table@ == Seq::<SlotView<E::Model>>::empty(),
    {
        let table = ReferenceTable { slots: Vec::new() };
        assert(table@ =~= Seq::<SlotView<E::Model>>::empty());
        table
    }

    /// The number of slots taken so far.
    pub fn len(&self) -> (len: usize)
        ensures
            len == self@.len(),
    {
        self.slots.len()
    }

    /// Drops every slot.
    pub fn clear(&mut self)
        ensures
            final(self)@ == Seq::<SlotView<E::Model>>::empty(),
    {
        self.slots.clear();
        assert(self@ =~= Seq::<SlotView<E::Model>>::empty());
    }

    /// Takes the next slot for a value whose decoding begins, and returns its
    /// index.
    pub fn reserve(&mut self) -> (index: usize)
        ensures
            index == old(self)@.len(),
            final(self)@ == old(self)@.push(SlotView::Reserved),
    {
        let index = self.slots.len();
        self.slots.push(Slot::Reserved);
        assert(self@ =~= old(self)@.push(SlotView::Reserved));
        index
    }

    /// Fills slot `index` with a copy of `value`.
    pub fn finalize(&mut self, index: usize, value: &Value<E>)
        requires
            index < old(self)@.len(),
        ensures
            final(self)@ == old(self)@.update(index as int, SlotView::Ready(value@)),
    {
        let copy = value.duplicate();
        self.slots.set(index, Slot::Ready(copy));
        assert(self@ =~= old(self)@.update(index as int, SlotView::Ready(value@)));
    }

    /// A copy of the value in slot `index`, where it stands no higher than
    /// `room`.
    pub fn get(&self, index: usize, room: usize) -> (value: DecodeResult<Value<E>>)
        ensures
            match resolve(self@, index as nat, room as nat) {
                Ok(found) => value matches Ok(v) && v@ == found,
                Err(error) => value matches Err(e) && e == error,
            },
    {
        if index >= self.slots.len() {
            return Err(DecodeError::OutOfRangeReference { index });
        }
        match &self.slots[index] {
            Slot::Reserved => Err(DecodeError::CircularReference { index }),
            Slot::Ready(value) => {
                if value.stands_within(room) {
                    Ok(value.duplicate())
                } else {
                    Err(DecodeError::RecursionLimitExceeded)
                }
            },
        }
    }
}

} // verus!
