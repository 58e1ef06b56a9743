//! The ways in which a conversion fails.

use vstd::prelude::*;

verus! {

/// Why a tree was not converted or written.
#[derive(Clone, Copy, Debug, PartialEq, Eq, Structural)]
pub enum ConversionError {
    /// The text of a number of the tree is not read as a double.
    InvalidNumber,
    /// Arrays and objects are nested deeper than `MAX_DEPTH`.
    TooDeep,
    /// The top of the tree is not an object.
    NotAnObject,
    /// The binary format has no bytes for the document.
    Unwritable,
}

/// Why a text or a sequence of bytes was not read.
#[derive(Clone, Copy, Debug, PartialEq, Eq, Structural)]
pub enum CodecError {
    /// The text is not an even number of hexadecimal digits.
    InvalidHex,
    /// The bytes are no document.
    MalformedDocument,
    /// Arrays and documents are nested deeper than `MAX_DEPTH`.
    TooDeep,
    /// The document holds an element of a kind that has no value.
    Unsupported,
}

/// Why a text was not read as a value.
#[derive(Clone, Copy, Debug, PartialEq, Eq, Structural)]
pub enum ParseError {
    /// The text is not JSON.
    Syntax,
    /// The text holds more decimal digits in a row than are read.
    DigitsTooLong,
    /// Arrays and objects are nested deeper than `MAX_DEPTH`.
    TooDeep,
}

} // verus!
