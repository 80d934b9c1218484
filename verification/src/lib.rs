//! A decoder for AMF0, the typed-value wire format of Flash remoting and
//! streaming protocols.
//!
//! A [`Decoder`] reads one value at a time off a [`ByteSource`], keeps the
//! reference table of the session, and hands values of the embedded format to
//! a [`SiblingDecoder`]. What it returns is stated against [`grammar`], which
//! gives the format as a function from bytes to values.
//!
//! What holds of the format for every input is shown in four modules:
//! [`laws`] goes through the kinds of value one by one, [`progress`] shows
//! that decoding moves forward through the bytes and only adds to the
//! table, [`prefix`] that a value is decoded from its own bytes and that an
//! input cut short fails as such, and [`nesting`] that no decoded value is
//! nested more deeply than the limit.

pub mod decoder;
pub mod double;
pub mod error;
pub mod grammar;
pub mod laws;
pub mod marker;
pub mod nesting;
pub mod prefix;
pub mod progress;
pub mod read;
pub mod sibling;
pub mod source;
pub mod table;
pub mod value;
pub mod wire;

pub use crate::decoder::Decoder;
pub use crate::error::DecodeError;
pub use crate::error::DecodeResult;
pub use crate::error::IoFault;
pub use crate::grammar::MAX_DEPTH;
pub use crate::sibling::NoSibling;
pub use crate::sibling::SiblingDecoder;
pub use crate::source::Buffer;
pub use crate::source::ByteSource;
pub use crate::value::Embedded;
pub use crate::value::NoValue;
pub use crate::value::Pair;
pub use crate::value::Value;
