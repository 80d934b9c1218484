//! The hand-off to the decoder of the embedded format.
//!
//! A value under the AVM+ marker is written in AMF3. The decoder of this
//! crate does not read it: it hands the byte source to a [`SiblingDecoder`]
//! and wraps what comes back.

use crate::error::DecodeError;
use crate::marker::AVMPLUS_OBJECT;
use crate::source::ByteSource;
use crate::value::Embedded;
use crate::value::NoValue;
use vstd::prelude::*;

verus! {

/// What a sibling decoder makes of the bytes it is handed: the model of the
/// value that it returns, or the error, and how many of the bytes it reads
/// to get there.
pub struct Handoff<M> {
    pub result: Result<M, DecodeError>,
    pub consumed: nat,
}

/// The models of the values of the sibling decoder `F`.
pub type Model<F> = <<F as SiblingDecoder>::Value as Embedded>::Model;

/// The model of what a sibling decoder returned.
pub open spec fn handed<E: Embedded>(value: Result<E, DecodeError>) -> Result<
    E::Model,
    DecodeError,
> {
    match value {
        Ok(embedded) => Ok(embedded.model()),
        Err(error) => Err(error),
    }
}

/// A decoder of the embedded format.
///
/// `decode` is called with the source standing at the first byte of the
/// embedded value. It reads that value and no byte more, so that what
/// follows is decoded from the right place; what it returns, value or error,
/// is passed on unchanged. Where it fails, the source stays where the
/// decoder left it.
///
/// A decoder that is a function of the bytes alone may say so in `reading`,
/// and its `decode` is then held to it. A decoder that keeps the `reading`
/// given here is taken as it comes.
pub trait SiblingDecoder {
    /// The values of the embedded format.
    type Value: Embedded;

    /// What the decoder makes of `bytes`, where that is known.
    open spec fn reading(bytes: Seq<u8>) -> Option<Handoff<<Self::Value as Embedded>::Model>> {
        None
    }

    /// Decodes one embedded value off `source`.
    fn decode<R: ByteSource>(&mut self, source: &mut R) -> (value: Result<Self::Value, DecodeError>)
        ensures
            old(source).pending() matches Some(before) ==> (Self::reading(before) matches Some(
                handoff,
            ) ==> handed(value) == handoff.result && (handoff.consumed <= before.len()
                ==> final(source).pending() == Some(before.skip(handoff.consumed as int)))),
    ;
}

/// The sibling decoder of a session that accepts no embedded values: it
/// refuses each as unsupported and reads nothing.
#[derive(Debug)]
pub struct NoSibling;

impl SiblingDecoder for NoSibling {
    type Value = NoValue;

    open spec fn reading(bytes: Seq<u8>) -> Option<Handoff<NoValue>> {
        Some(
            Handoff {
                result: Err(DecodeError::Unsupported { marker: AVMPLUS_OBJECT }),
                consumed: 0,
            },
        )
    }

    fn decode<R: ByteSource>(&mut self, source: &mut R) -> (value: Result<NoValue, DecodeError>)
        ensures
            *final(source) == *old(source),
    {
        proof {
            if let Some(before) = source.pending() {
                assert(before.skip(0) =~= before);
            }
        }
        Err(DecodeError::Unsupported { marker: AVMPLUS_OBJECT })
    }
}

} // verus!
