//! The marker bytes that open each value on the wire.

use vstd::prelude::*;

verus! {

pub const NUMBER: u8 = 0x00;

pub const BOOLEAN: u8 = 0x01;

pub const STRING: u8 = 0x02;

pub const OBJECT: u8 = 0x03;

pub const MOVIECLIP: u8 = 0x04;

pub const NULL: u8 = 0x05;

pub const UNDEFINED: u8 = 0x06;

pub const REFERENCE: u8 = 0x07;

pub const ECMA_ARRAY: u8 = 0x08;

pub const OBJECT_END_MARKER: u8 = 0x09;

pub const STRICT_ARRAY: u8 = 0x0a;

pub const DATE: u8 = 0x0b;

pub const LONG_STRING: u8 = 0x0c;

pub const UNSUPPORTED: u8 = 0x0d;

pub const RECORDSET: u8 = 0x0e;

pub const XML_DOCUMENT: u8 = 0x0f;

pub const TYPED_OBJECT: u8 = 0x10;

pub const AVMPLUS_OBJECT: u8 = 0x11;

/// Whether `marker` is one of the bytes that the format defines.
pub open spec fn is_defined(marker: u8) -> bool {
    marker <= AVMPLUS_OBJECT
}

/// Whether `marker` is defined but stands for a type that is not decoded.
pub open spec fn is_unsupported(marker: u8) -> bool {
    marker == MOVIECLIP || marker == UNSUPPORTED || marker == RECORDSET
}

} // verus!
