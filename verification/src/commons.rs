//! The operations of the library in one place.

use crate::bridge::converted_document;
use crate::bridge::from_document;
use crate::bridge::restored;
use crate::bridge::to_document;
use crate::bridge::to_value;
use crate::codec::decode_hex;
use crate::codec::decoded;
use crate::codec::encode_hex;
use crate::codec::encode_outcome;
use crate::codec::encode_stated;
use crate::codec::encoded;
use crate::document::lemma_field_models;
use crate::document::BinaryDocument;
use crate::document::DocumentModel;
use crate::document::DocumentValue;
use crate::errors::CodecError;
use crate::errors::ConversionError;
use crate::errors::ParseError;
use crate::path::resolve;
use crate::path::resolve_path;
use crate::text::parse_text;
use crate::text::text_value;
use crate::text::to_text;
use crate::text::value_text;
use crate::value::item_models;
use crate::value::lemma_array_model;
use crate::value::Value;
use crate::value::ValueModel;
use std::collections::VecDeque;
use vstd::prelude::*;

verus! {

/// The members of an array, in order and each as it is; no member is left
/// out for being null or empty. Any other value has no members.
pub open spec fn sequence_of(v: ValueModel) -> Seq<ValueModel> {
    match v {
        ValueModel::Array(items) => items,
        _ => Seq::empty(),
    }
}

/// The models of the values of a queue.
pub open spec fn queue_models(values: Seq<Value>) -> Seq<ValueModel> {
    values.map_values(|value: Value| value@)
}

/// A handle on the operations of the library. It holds nothing.
pub struct JsonCommons {}

impl JsonCommons {
    /// A new handle.
    pub fn new() -> (r: JsonCommons)
        ensures
            r == (JsonCommons {  }),
    {
        JsonCommons {  }
    }

    /// Reads a JSON text as a value tree.
    pub fn read_str(&self, content: &str) -> (r: Result<Value, ParseError>)
        ensures
            match r {
                Ok(v) => text_value(content@) == Ok::<ValueModel, ParseError>(v@),
                Err(e) => text_value(content@) == Err::<ValueModel, ParseError>(e),
            },
    {
        parse_text(content)
    }

    /// The node that a dotted path addresses, copied out of the tree, or
    /// `None` where the path addresses nothing. The empty path addresses
    /// nothing.
    pub fn get_path(&self, path: &str, content: Value) -> (r: Option<Value>)
        ensures
            match r {
                Some(node) => resolve(content@, path@) == Some(node@),
                None => resolve(content@, path@) is None,
            },
            path@.len() == 0 ==> r is None,
    {
        resolve_path(path, &content)
    }

    /// Whether a dotted path addresses a node.
    pub fn path_exists(&self, path: &str, content: Value) -> (r: bool)
        ensures
            r == resolve(content@, path@) is Some,
    {
        resolve_path(path, &content).is_some()
    }

    /// The members of an array as a queue, in order and each as it is. Any
    /// other value gives an empty queue.
    pub fn parse_to_vec(&self, content: Value) -> (r: VecDeque<Value>)
        ensures
            queue_models(r@) == sequence_of(content@),
    {
        let mut queue: VecDeque<Value> = VecDeque::new();
        match &content {
            Value::Array(items) => {
                proof {
                    lemma_array_model(*items);
                }
                let mut i: usize = 0;
                while i < items.len()
                    invariant
                        i <= items.len(),
                        queue@.len() == i,
                        forall|j: int| 0 <= j < i ==> (#[trigger] queue@[j])@ == items@[j]@,
                    decreases items.len() - i,
                {
                    queue.push_back(items[i].duplicate());
                    i = i + 1;
                }
                assert(queue_models(queue@) =~= item_models(items@));
            },
            _ => {
                assert(queue_models(queue@) =~= Seq::empty());
            },
        }
        queue
    }

    /// Writes a value tree as compact JSON text.
    pub fn serialize(&self, json: Value) -> (r: Result<String, ConversionError>)
        ensures
            match r {
                Ok(text) => value_text(json@) == Ok::<Seq<char>, ConversionError>(text@),
                Err(e) => value_text(json@) == Err::<Seq<char>, ConversionError>(e),
            },
    {
        to_text(&json)
    }

    /// Converts a document to an object.
    pub fn json_from_document(&self, doc: BinaryDocument) -> (r: Result<Value, ConversionError>)
        ensures
            match r {
                Ok(v) => restored(DocumentModel::Document(doc@)) == Ok::<
                    ValueModel,
                    ConversionError,
                >(v@),
                Err(e) => restored(DocumentModel::Document(doc@)) == Err::<
                    ValueModel,
                    ConversionError,
                >(e),
            },
    {
        from_document(&doc)
    }

    /// Converts a document tree to a value tree.
    pub fn json_from_bson(&self, bson: DocumentValue) -> (r: Result<Value, ConversionError>)
        ensures
            match r {
                Ok(v) => restored(bson@) == Ok::<ValueModel, ConversionError>(v@),
                Err(e) => restored(bson@) == Err::<ValueModel, ConversionError>(e),
            },
    {
        to_value(&bson)
    }

    /// Decodes the hexadecimal text of a binary document as an object.
    pub fn json_from_bson_hex(&self, bson_hex: String) -> (r: Result<Value, CodecError>)
        ensures
            match r {
                Ok(value) => decoded(bson_hex@) == Ok::<ValueModel, CodecError>(value@),
                Err(e) => decoded(bson_hex@) == Err::<ValueModel, CodecError>(e),
            },
    {
        decode_hex(bson_hex.as_str())
    }

    /// Converts an object to a document. Any other value has none.
    pub fn parse_to_document(&self, json: Value) -> (r: Result<BinaryDocument, ConversionError>)
        ensures
            match r {
                Ok(d) => converted_document(json@) == Ok::<
                    Seq<(Seq<char>, DocumentModel)>,
                    ConversionError,
                >(d@),
                Err(e) => converted_document(json@) == Err::<
                    Seq<(Seq<char>, DocumentModel)>,
                    ConversionError,
                >(e),
            },
    {
        to_document(&json)
    }

    /// Converts an object to a document, as a member of a document tree.
    pub fn parse_to_bson(&self, json: Value) -> (r: Result<DocumentValue, ConversionError>)
        ensures
            match r {
                Ok(d) => converted_document(json@) matches Ok(entries) && d@
                    == DocumentModel::Document(entries),
                Err(e) => converted_document(json@) == Err::<
                    Seq<(Seq<char>, DocumentModel)>,
                    ConversionError,
                >(e),
            },
    {
        match to_document(&json) {
            Ok(document) => {
                proof {
                    lemma_field_models(document.entries);
                }
                Ok(DocumentValue::Document(document.entries))
            },
            Err(e) => Err(e),
        }
    }

    /// Encodes an object as the hexadecimal text of its binary document.
    /// Where the object holds a number that is no number, which double is
    /// written for it is not stated, and so neither is the text; the errors
    /// are stated for every object.
    pub fn serialize_to_bson_hex(&self, json: Value) -> (r: Result<String, ConversionError>)
        ensures
            encode_outcome(
                json@,
                match r {
                    Ok(text) => None,
                    Err(e) => Some(e),
                },
            ),
            encode_stated(json@) ==> match r {
                Ok(text) => encoded(json@) == Ok::<Seq<char>, ConversionError>(text@),
                Err(e) => encoded(json@) == Err::<Seq<char>, ConversionError>(e),
            },
    {
        encode_hex(&json)
    }
}

} // verus!
