//! Objects as the hexadecimal text of their binary documents.

use crate::bridge::converted_document;
use crate::bridge::document_fields;
use crate::bridge::exact_numbers;
use crate::bridge::lemma_document_fields;
use crate::bridge::lemma_document_fits;
use crate::bridge::lemma_document_plain;
use crate::bridge::lemma_document_round_trip;
use crate::bridge::lemma_exact_numbers_read;
use crate::bridge::from_document;
use crate::bridge::to_document;
use crate::bridge::value_model;
use crate::document::DocumentModel;
use crate::errors::CodecError;
use crate::errors::ConversionError;
use crate::hexadecimal::decode_text;
use crate::hexadecimal::encode_bytes;
use crate::hexadecimal::hex_bytes;
use crate::hexadecimal::hex_text;
use crate::hexadecimal::is_hex_text;
use crate::hexadecimal::lemma_hex_round_trip;
use crate::value::Value;
use crate::value::ValueModel;
use crate::value::MAX_DEPTH;
use crate::wire::document_wire;
use crate::wire::lemma_read_fields;
use crate::wire::lemma_plain_doubles_read;
use crate::wire::lemma_plain_without_nan;
use crate::wire::lemma_read_fits;
use crate::wire::read_back;
use crate::wire::lemma_read_written;
use crate::wire::lemma_written_fits;
use crate::wire::lemma_written_readable;
use crate::wire::read_fields;
use crate::wire::wire_bytes;
use crate::wire::write_outcome;
use crate::wire::written_entries;
use crate::wire::read_document;
use crate::wire::wire_document;
use crate::wire::wire_entries;
use crate::wire::write_document;
use crate::wire::ElementModel;
use vstd::prelude::*;

verus! {

/// What encoding an object gives: the hexadecimal text of the bytes of its
/// document, or the error of the first step that fails: converting the
/// object, then writing the document.
pub open spec fn encoded(v: ValueModel) -> Result<Seq<char>, ConversionError> {
    match converted_document(v) {
        Err(e) => Err(e),
        Ok(entries) => match document_wire(entries) {
            Err(e) => Err(e),
            Ok(bytes) => Ok(hex_text(bytes)),
        },
    }
}

/// What decoding a text gives: `InvalidHex` where the text writes no bytes,
/// else the error of reading the bytes as a document, else the object of
/// the document.
pub open spec fn decoded(text: Seq<char>) -> Result<ValueModel, CodecError> {
    if !is_hex_text(text) {
        Err(CodecError::InvalidHex)
    } else {
        match wire_document(hex_bytes(text)) {
            Err(e) => Err(e),
            Ok(entries) => Ok(value_model(DocumentModel::Document(entries))),
        }
    }
}

/// What holds of encoding any object: an error of the conversion comes
/// back as it is, and for a converted object what holds of writing its
/// document.
pub open spec fn encode_outcome(v: ValueModel, failure: Option<ConversionError>) -> bool {
    match converted_document(v) {
        Err(e) => failure == Some(e),
        Ok(entries) => write_outcome(entries, failure),
    }
}

/// Whether encoding is stated in full: the object is not converted, or its
/// document holds no `Double` that is no number.
pub open spec fn encode_stated(v: ValueModel) -> bool {
    match converted_document(v) {
        Err(e) => true,
        Ok(entries) => DocumentModel::Document(entries).without_nan(),
    }
}

/// Encodes an object as the hexadecimal text of its binary document. Where
/// the object holds a number that is no number, which double is written
/// for it is not stated, and so neither is the text; the errors are stated
/// for every object.
pub fn encode_hex(value: &Value) -> (r: Result<String, ConversionError>)
    ensures
        encode_outcome(
            value@,
            match r {
                Ok(text) => None,
                Err(e) => Some(e),
            },
        ),
        encode_stated(value@) ==> match r {
            Ok(text) => encoded(value@) == Ok::<Seq<char>, ConversionError>(text@),
            Err(e) => encoded(value@) == Err::<Seq<char>, ConversionError>(e),
        },
{
    match to_document(value) {
        Err(e) => Err(e),
        Ok(document) => match write_document(&document) {
            Err(e) => Err(e),
            Ok(bytes) => Ok(encode_bytes(&bytes)),
        },
    }
}

/// Decodes the hexadecimal text of a binary document as an object. The
/// nesting is tested on the bytes before they are handed to the `bson`
/// crate.
pub fn decode_hex(text: &str) -> (r: Result<Value, CodecError>)
    ensures
        match r {
            Ok(value) => decoded(text@) == Ok::<ValueModel, CodecError>(value@),
            Err(e) => decoded(text@) == Err::<ValueModel, CodecError>(e),
        },
{
    match decode_text(text) {
        Err(_) => Err(CodecError::InvalidHex),
        Ok(bytes) => match read_document(&bytes) {
            Err(e) => Err(e),
            Ok(document) => {
                proof {
                    let entries = wire_entries(bytes@)->0;
                    lemma_read_fits(ElementModel::Document(entries), MAX_DEPTH as nat);
                    lemma_read_fields(entries);
                }
                match from_document(&document) {
                    Ok(value) => Ok(value),
                    Err(_) => Err(CodecError::TooDeep),
                }
            },
        },
    }
}

/// Round trip through the hexadecimal text, as far as it is this library's.
///
/// Take an object of accepted depth whose numbers are integers that an
/// `i64` holds, each read as the double of that integer, and in which no
/// object has a key twice, and suppose that its document is read back as
/// it was written: that the binary format has bytes for it, that those bytes
/// nest no deeper than `MAX_DEPTH`, and that reading them gives the entries
/// that were written. For such an object `reads_back` tells whether this
/// holds, as its document has no `Double` that is no number. Then encoding succeeds, and
/// decoding the text succeeds and gives the object again, numbers counted
/// by their value. That the format reads back what it wrote is the part of
/// the `bson` crate: it is a condition of this statement, not a part of
/// what it shows, and it does not hold of every document, as the crate
/// reads some nested documents as elements of another kind.
pub proof fn lemma_hex_round_trip_if_bytes_read_back(v: ValueModel)
    requires
        v is Object,
        v.fits(MAX_DEPTH as nat),
        exact_numbers(v),
        v.unique_keys(),
        read_back(document_fields(v->Object_0)),
    ensures
        DocumentModel::Document(document_fields(v->Object_0)).without_nan(),
        encoded(v) is Ok,
        decoded(encoded(v)->Ok_0) is Ok,
        decoded(encoded(v)->Ok_0)->Ok_0.same_as(v),
{
    let fields = document_fields(v->Object_0);
    let document = DocumentModel::Document(fields);
    let entries = written_entries(fields);
    let bytes = wire_bytes(entries)->0;
    lemma_document_round_trip(v);
    lemma_document_fields(v->Object_0);
    lemma_exact_numbers_read(v);
    lemma_document_fits(v, MAX_DEPTH as nat);
    lemma_document_plain(v);
    lemma_plain_doubles_read(document);
    lemma_plain_without_nan(document);
    assert(converted_document(v) == Ok::<Seq<(Seq<char>, DocumentModel)>, ConversionError>(fields));
    assert(document_wire(fields) == Ok::<Seq<u8>, ConversionError>(bytes));
    lemma_hex_round_trip(bytes);
    lemma_written_fits(document, MAX_DEPTH as nat);
    lemma_written_readable(document);
    lemma_read_written(document);
    lemma_read_fields(entries);
    assert(read_fields(entries) == fields);
}

} // verus!
