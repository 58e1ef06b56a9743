//! The mapping between value trees and document trees.
//!
//! Towards documents a number is taken as the double that its text is read
//! as, and loses the memory of how it was written: where that double has no
//! fractional part the number becomes an `Int64`, whether it was written
//! `4000`, `4000.0` or `4e3`. This is intended. On the way back both kinds of
//! document number become numbers of the value tree.

use crate::document::field_models;
use crate::document::lemma_field_models;
use crate::document::lemma_fields_fit;
use crate::document::lemma_member_models;
use crate::document::lemma_members_fit;
use crate::document::member_models;
use crate::document::BinaryDocument;
use crate::document::DocumentModel;
use crate::document::DocumentValue;
use crate::errors::ConversionError;
use crate::number::lemma_whole_same_value;
use crate::number::decimal_integer;
use crate::number::double_has_fraction;
use crate::number::double_integer;
use crate::number::double_is_fractional;
use crate::number::double_truncate;
use crate::number::double_whole;
use crate::number::saturate;
use crate::number::Number;
use crate::value::entry_models;
use crate::value::item_models;
use crate::value::lemma_array_model;
use crate::value::lemma_entries_fit;
use crate::value::lemma_items_fit;
use crate::value::lemma_object_model;
use crate::value::Value;
use crate::value::ValueModel;
use crate::value::MAX_DEPTH;
use crate::wire::double_bits;
use crate::wire::read_double;
use vstd::prelude::*;

verus! {

/// The document number for a number whose text is read as the double with
/// the given bits: a `Double` of the number where the double has a
/// fractional part, else an `Int64` of the double, saturated.
pub open spec fn number_member(n: Number, bits: u64) -> DocumentModel {
    if double_has_fraction(bits) {
        DocumentModel::Double(n)
    } else {
        DocumentModel::Int64(saturate(double_whole(bits)))
    }
}

/// Whether a number is taken as a double: what is no number is, and a
/// decimal where its text is read as a double.
pub open spec fn number_read(n: Number) -> bool {
    n is NotANumber || double_bits(n) is Some
}

/// The document number for a number that is taken as a double: a `Double`
/// for what is no number, and for a decimal what the double that its text
/// is read as decides.
pub open spec fn number_model(n: Number) -> DocumentModel {
    if n is NotANumber {
        DocumentModel::Double(n)
    } else {
        number_member(n, double_bits(n)->0)
    }
}

/// The document tree of a value tree.
pub open spec fn document_model(v: ValueModel) -> DocumentModel
    decreases v,
{
    match v {
        ValueModel::Null => DocumentModel::Null,
        ValueModel::Bool(b) => DocumentModel::Bool(b),
        ValueModel::Number(n) => number_model(n),
        ValueModel::String(s) => DocumentModel::String(s),
        ValueModel::Array(items) => DocumentModel::Array(
            Seq::new(
                items.len(),
                |i: int|
                    if 0 <= i < items.len() {
                        document_model(items[i])
                    } else {
                        DocumentModel::Null
                    },
            ),
        ),
        ValueModel::Object(entries) => DocumentModel::Document(
            Seq::new(
                entries.len(),
                |i: int|
                    if 0 <= i < entries.len() {
                        (entries[i].0, document_model(entries[i].1))
                    } else {
                        (Seq::empty(), DocumentModel::Null)
                    },
            ),
        ),
    }
}

/// The document trees of the members of an array.
pub open spec fn document_members(items: Seq<ValueModel>) -> Seq<DocumentModel> {
    items.map_values(|item: ValueModel| document_model(item))
}

/// The document entries of the entries of an object.
pub open spec fn document_fields(entries: Seq<(Seq<char>, ValueModel)>) -> Seq<
    (Seq<char>, DocumentModel),
> {
    entries.map_values(|entry: (Seq<char>, ValueModel)| (entry.0, document_model(entry.1)))
}

/// Whether every number of the tree is taken as a double.
pub open spec fn numbers_read(v: ValueModel) -> bool
    decreases v,
{
    match v {
        ValueModel::Number(n) => number_read(n),
        ValueModel::Array(items) => forall|i: int|
            0 <= i < items.len() ==> numbers_read(#[trigger] items[i]),
        ValueModel::Object(entries) => forall|i: int|
            0 <= i < entries.len() ==> numbers_read((#[trigger] entries[i]).1),
        _ => true,
    }
}

/// What converting a value tree gives: the document tree, unless the tree is
/// too deep or, being of accepted depth, holds a number whose text is not
/// read as a double.
pub open spec fn converted(v: ValueModel) -> Result<DocumentModel, ConversionError> {
    if !v.fits(MAX_DEPTH as nat) {
        Err(ConversionError::TooDeep)
    } else if !numbers_read(v) {
        Err(ConversionError::InvalidNumber)
    } else {
        Ok(document_model(v))
    }
}

/// What converting a value tree to a whole document gives: the entries of
/// the converted object, and `NotAnObject` for any other tree.
pub open spec fn converted_document(v: ValueModel) -> Result<
    Seq<(Seq<char>, DocumentModel)>,
    ConversionError,
> {
    match v {
        ValueModel::Object(entries) => match converted(v) {
            Ok(d) => Ok(document_fields(entries)),
            Err(e) => Err(e),
        },
        _ => Err(ConversionError::NotAnObject),
    }
}

/// The document tree of an array is the array of its members' trees.
pub proof fn lemma_document_members(items: Seq<ValueModel>)
    ensures
        document_model(ValueModel::Array(items)) == DocumentModel::Array(document_members(items)),
{
    reveal_with_fuel(document_model, 2);
    assert(document_model(ValueModel::Array(items))->Array_0 =~= document_members(items));
}

/// The document tree of an object is the document of its entries' trees.
pub proof fn lemma_document_fields(entries: Seq<(Seq<char>, ValueModel)>)
    ensures
        document_model(ValueModel::Object(entries)) == DocumentModel::Document(
            document_fields(entries),
        ),
{
    reveal_with_fuel(document_model, 2);
    assert(document_model(ValueModel::Object(entries))->Document_0 =~= document_fields(entries));
}

/// An array's numbers are read where those of each member are.
pub proof fn lemma_items_read(items: Seq<ValueModel>)
    ensures
        numbers_read(ValueModel::Array(items)) == (forall|i: int|
            0 <= i < items.len() ==> numbers_read(#[trigger] items[i])),
{
    if numbers_read(ValueModel::Array(items)) {
        assert forall|i: int| 0 <= i < items.len() implies numbers_read(#[trigger] items[i]) by {
            assert(ValueModel::Array(items)->Array_0[i] == items[i]);
        }
    }
}

/// An object's numbers are read where those of each value are.
pub proof fn lemma_entries_read(entries: Seq<(Seq<char>, ValueModel)>)
    ensures
        numbers_read(ValueModel::Object(entries)) == (forall|i: int|
            0 <= i < entries.len() ==> numbers_read((#[trigger] entries[i]).1)),
{
    if numbers_read(ValueModel::Object(entries)) {
        assert forall|i: int| 0 <= i < entries.len() implies numbers_read(
            (#[trigger] entries[i]).1,
        ) by {
            assert(ValueModel::Object(entries)->Object_0[i] == entries[i]);
        }
    }
}

/// What converting a number gives: `InvalidNumber` for a decimal whose text
/// is not read as a double, else the document number for the double.
pub open spec fn converted_number(n: Number) -> Result<DocumentModel, ConversionError> {
    if number_read(n) {
        Ok(number_model(n))
    } else {
        Err(ConversionError::InvalidNumber)
    }
}

/// The document number for a number whose text was read as the double with
/// the given bits.
pub fn classify_double(n: Number, bits: u64) -> (r: DocumentValue)
    ensures
        r@ == number_member(n, bits),
{
    if double_is_fractional(bits) {
        DocumentValue::Double(n)
    } else {
        DocumentValue::Int64(double_truncate(bits))
    }
}

/// Converts a number to a document number.
pub fn convert_number(n: Number) -> (r: Result<DocumentValue, ConversionError>)
    ensures
        match r {
            Ok(d) => converted_number(n) == Ok::<DocumentModel, ConversionError>(d@),
            Err(e) => converted_number(n) == Err::<DocumentModel, ConversionError>(e),
        },
{
    match read_double(n) {
        Some(bits) => Ok(classify_double(n, bits)),
        None => Err(ConversionError::InvalidNumber),
    }
}

/// Converts a tree of accepted depth; `None` where the text of a number is
/// not read as a double.
fn convert(value: &Value, budget: usize) -> (r: Option<DocumentValue>)
    requires
        value@.fits(budget as nat),
    ensures
        match r {
            Some(d) => numbers_read(value@) && d@ == document_model(value@),
            None => !numbers_read(value@),
        },
    decreases budget, 0nat,
{
    match value {
        Value::Null => Some(DocumentValue::Null),
        Value::Bool(b) => Some(DocumentValue::Bool(*b)),
        Value::Number(n) => match convert_number(*n) {
            Ok(d) => Some(d),
            Err(_) => None,
        },
        Value::String(s) => Some(DocumentValue::String(s.clone())),
        Value::Array(items) => {
            proof {
                lemma_array_model(*items);
                lemma_items_fit(item_models(items@), budget as nat);
                lemma_items_read(item_models(items@));
                lemma_document_members(item_models(items@));
            }
            match convert_items(items, budget - 1) {
                Some(members) => {
                    proof {
                        lemma_member_models(members);
                    }
                    Some(DocumentValue::Array(members))
                },
                None => None,
            }
        },
        Value::Object(entries) => {
            proof {
                lemma_object_model(*entries);
                lemma_entries_fit(entry_models(entries@), budget as nat);
                lemma_entries_read(entry_models(entries@));
                lemma_document_fields(entry_models(entries@));
            }
            match convert_entries(entries, budget - 1) {
                Some(fields) => {
                    proof {
                        lemma_field_models(fields);
                    }
                    Some(DocumentValue::Document(fields))
                },
                None => None,
            }
        },
    }
}

/// Converts the members of an array, in order.
fn convert_items(items: &Vec<Value>, budget: usize) -> (r: Option<Vec<DocumentValue>>)
    requires
        forall|i: int|
            0 <= i < items@.len() ==> (#[trigger] item_models(items@)[i]).fits(budget as nat),
    ensures
        match r {
            Some(members) => {
                &&& forall|i: int|
                    0 <= i < items@.len() ==> numbers_read(#[trigger] item_models(items@)[i])
                &&& member_models(members@) == document_members(item_models(items@))
            },
            None => exists|i: int|
                0 <= i < items@.len() && !numbers_read(#[trigger] item_models(items@)[i]),
        },
    decreases budget, 1nat,
{
    let mut members: Vec<DocumentValue> = Vec::new();
    let mut i: usize = 0;
    while i < items.len()
        invariant
            i <= items.len(),
            members@.len() == i,
            forall|j: int|
                0 <= j < items@.len() ==> (#[trigger] item_models(items@)[j]).fits(budget as nat),
            forall|j: int| 0 <= j < i ==> numbers_read(#[trigger] item_models(items@)[j]),
            forall|j: int|
                0 <= j < i ==> (#[trigger] members@[j])@ == document_model(items@[j]@),
        decreases items.len() - i,
    {
        assert(item_models(items@)[i as int] == items@[i as int]@);
        match convert(&items[i], budget) {
            Some(member) => {
                members.push(member);
            },
            None => {
                return None;
            },
        }
        i = i + 1;
    }
    assert(member_models(members@) =~= document_members(item_models(items@)));
    Some(members)
}

/// Converts the entries of an object, in order.
fn convert_entries(entries: &Vec<(String, Value)>, budget: usize) -> (r: Option<
    Vec<(String, DocumentValue)>,
>)
    requires
        forall|i: int|
            0 <= i < entries@.len() ==> (#[trigger] entry_models(entries@)[i]).1.fits(
                budget as nat,
            ),
    ensures
        match r {
            Some(fields) => {
                &&& forall|i: int|
                    0 <= i < entries@.len() ==> numbers_read(
                        (#[trigger] entry_models(entries@)[i]).1,
                    )
                &&& field_models(fields@) == document_fields(entry_models(entries@))
            },
            None => exists|i: int|
                0 <= i < entries@.len() && !numbers_read(
                    (#[trigger] entry_models(entries@)[i]).1,
                ),
        },
    decreases budget, 1nat,
{
    let mut fields: Vec<(String, DocumentValue)> = Vec::new();
    let mut i: usize = 0;
    while i < entries.len()
        invariant
            i <= entries.len(),
            fields@.len() == i,
            forall|j: int|
                0 <= j < entries@.len() ==> (#[trigger] entry_models(entries@)[j]).1.fits(
                    budget as nat,
                ),
            forall|j: int|
                0 <= j < i ==> numbers_read((#[trigger] entry_models(entries@)[j]).1),
            forall|j: int|
                0 <= j < i ==> (#[trigger] fields@[j]).0@ == entries@[j].0@ && fields@[j].1@
                    == document_model(entries@[j].1@),
        decreases entries.len() - i,
    {
        assert(entry_models(entries@)[i as int].1 == entries@[i as int].1@);
        match convert(&entries[i].1, budget) {
            Some(member) => {
                fields.push((entries[i].0.clone(), member));
            },
            None => {
                return None;
            },
        }
        i = i + 1;
    }
    assert(field_models(fields@) =~= document_fields(entry_models(entries@)));
    Some(fields)
}

/// Converts a value tree to a document tree.
pub fn to_document_value(value: &Value) -> (r: Result<DocumentValue, ConversionError>)
    ensures
        match r {
            Ok(d) => converted(value@) == Ok::<DocumentModel, ConversionError>(d@),
            Err(e) => converted(value@) == Err::<DocumentModel, ConversionError>(e),
        },
{
    if !value.fits_depth(MAX_DEPTH) {
        return Err(ConversionError::TooDeep);
    }
    match convert(value, MAX_DEPTH) {
        Some(d) => Ok(d),
        None => Err(ConversionError::InvalidNumber),
    }
}

/// Converts an object to a document. Any other value has none.
pub fn to_document(value: &Value) -> (r: Result<BinaryDocument, ConversionError>)
    ensures
        match r {
            Ok(d) => converted_document(value@) == Ok::<
                Seq<(Seq<char>, DocumentModel)>,
                ConversionError,
            >(d@),
            Err(e) => converted_document(value@) == Err::<
                Seq<(Seq<char>, DocumentModel)>,
                ConversionError,
            >(e),
        },
{
    match value {
        Value::Object(entries) => {
            if !value.fits_depth(MAX_DEPTH) {
                return Err(ConversionError::TooDeep);
            }
            proof {
                lemma_object_model(*entries);
                lemma_entries_fit(entry_models(entries@), MAX_DEPTH as nat);
                lemma_entries_read(entry_models(entries@));
                lemma_document_fields(entry_models(entries@));
            }
            match convert_entries(entries, MAX_DEPTH - 1) {
                Some(fields) => Ok(BinaryDocument { entries: fields }),
                None => Err(ConversionError::InvalidNumber),
            }
        },
        _ => Err(ConversionError::NotAnObject),
    }
}

/// The value tree of a document tree: both kinds of number become numbers.
pub open spec fn value_model(d: DocumentModel) -> ValueModel
    decreases d,
{
    match d {
        DocumentModel::Null => ValueModel::Null,
        DocumentModel::Bool(b) => ValueModel::Bool(b),
        DocumentModel::Int64(i) => ValueModel::Number(Number::of_int(i)),
        DocumentModel::Double(n) => ValueModel::Number(n),
        DocumentModel::String(s) => ValueModel::String(s),
        DocumentModel::Array(items) => ValueModel::Array(
            Seq::new(
                items.len(),
                |i: int|
                    if 0 <= i < items.len() {
                        value_model(items[i])
                    } else {
                        ValueModel::Null
                    },
            ),
        ),
        DocumentModel::Document(entries) => ValueModel::Object(
            Seq::new(
                entries.len(),
                |i: int|
                    if 0 <= i < entries.len() {
                        (entries[i].0, value_model(entries[i].1))
                    } else {
                        (Seq::empty(), ValueModel::Null)
                    },
            ),
        ),
    }
}

/// The value trees of the members of an array.
pub open spec fn value_items(items: Seq<DocumentModel>) -> Seq<ValueModel> {
    items.map_values(|item: DocumentModel| value_model(item))
}

/// The object entries of the entries of a document.
pub open spec fn value_entries(entries: Seq<(Seq<char>, DocumentModel)>) -> Seq<
    (Seq<char>, ValueModel),
> {
    entries.map_values(|entry: (Seq<char>, DocumentModel)| (entry.0, value_model(entry.1)))
}

/// What converting a document tree gives: the value tree, unless the
/// document tree is too deep.
pub open spec fn restored(d: DocumentModel) -> Result<ValueModel, ConversionError> {
    if !d.fits(MAX_DEPTH as nat) {
        Err(ConversionError::TooDeep)
    } else {
        Ok(value_model(d))
    }
}

/// The value tree of an array is the array of its members' trees.
pub proof fn lemma_value_items(items: Seq<DocumentModel>)
    ensures
        value_model(DocumentModel::Array(items)) == ValueModel::Array(value_items(items)),
{
    reveal_with_fuel(value_model, 2);
    assert(value_model(DocumentModel::Array(items))->Array_0 =~= value_items(items));
}

/// The value tree of a document is the object of its entries' trees.
pub proof fn lemma_value_entries(entries: Seq<(Seq<char>, DocumentModel)>)
    ensures
        value_model(DocumentModel::Document(entries)) == ValueModel::Object(
            value_entries(entries),
        ),
{
    reveal_with_fuel(value_model, 2);
    assert(value_model(DocumentModel::Document(entries))->Object_0 =~= value_entries(entries));
}

/// Converts a document tree of accepted depth.
fn restore(member: &DocumentValue, budget: usize) -> (r: Value)
    requires
        member@.fits(budget as nat),
    ensures
        r@ == value_model(member@),
    decreases budget, 0nat,
{
    match member {
        DocumentValue::Null => Value::Null,
        DocumentValue::Bool(b) => Value::Bool(*b),
        DocumentValue::Int64(i) => Value::Number(Number::from_i64(*i)),
        DocumentValue::Double(n) => Value::Number(*n),
        DocumentValue::String(s) => Value::String(s.clone()),
        DocumentValue::Array(members) => {
            proof {
                lemma_member_models(*members);
                lemma_members_fit(member_models(members@), budget as nat);
                lemma_value_items(member_models(members@));
            }
            let items = restore_members(members, budget - 1);
            proof {
                lemma_array_model(items);
            }
            Value::Array(items)
        },
        DocumentValue::Document(fields) => {
            proof {
                lemma_field_models(*fields);
                lemma_fields_fit(field_models(fields@), budget as nat);
                lemma_value_entries(field_models(fields@));
            }
            let entries = restore_fields(fields, budget - 1);
            proof {
                lemma_object_model(entries);
            }
            Value::Object(entries)
        },
    }
}

/// Converts the members of an array, in order.
fn restore_members(members: &Vec<DocumentValue>, budget: usize) -> (r: Vec<Value>)
    requires
        forall|i: int|
            0 <= i < members@.len() ==> (#[trigger] member_models(members@)[i]).fits(
                budget as nat,
            ),
    ensures
        item_models(r@) == value_items(member_models(members@)),
    decreases budget, 1nat,
{
    let mut items: Vec<Value> = Vec::new();
    let mut i: usize = 0;
    while i < members.len()
        invariant
            i <= members.len(),
            items@.len() == i,
            forall|j: int|
                0 <= j < members@.len() ==> (#[trigger] member_models(members@)[j]).fits(
                    budget as nat,
                ),
            forall|j: int| 0 <= j < i ==> (#[trigger] items@[j])@ == value_model(members@[j]@),
        decreases members.len() - i,
    {
        assert(member_models(members@)[i as int] == members@[i as int]@);
        items.push(restore(&members[i], budget));
        i = i + 1;
    }
    assert(item_models(items@) =~= value_items(member_models(members@)));
    items
}

/// Converts the entries of a document, in order.
fn restore_fields(fields: &Vec<(String, DocumentValue)>, budget: usize) -> (r: Vec<
    (String, Value),
>)
    requires
        forall|i: int|
            0 <= i < fields@.len() ==> (#[trigger] field_models(fields@)[i]).1.fits(
                budget as nat,
            ),
    ensures
        entry_models(r@) == value_entries(field_models(fields@)),
    decreases budget, 1nat,
{
    let mut entries: Vec<(String, Value)> = Vec::new();
    let mut i: usize = 0;
    while i < fields.len()
        invariant
            i <= fields.len(),
            entries@.len() == i,
            forall|j: int|
                0 <= j < fields@.len() ==> (#[trigger] field_models(fields@)[j]).1.fits(
                    budget as nat,
                ),
            forall|j: int|
                0 <= j < i ==> (#[trigger] entries@[j]).0@ == fields@[j].0@ && entries@[j].1@
                    == value_model(fields@[j].1@),
        decreases fields.len() - i,
    {
        assert(field_models(fields@)[i as int].1 == fields@[i as int].1@);
        entries.push((fields[i].0.clone(), restore(&fields[i].1, budget)));
        i = i + 1;
    }
    assert(entry_models(entries@) =~= value_entries(field_models(fields@)));
    entries
}

/// Converts a document tree to a value tree.
pub fn to_value(member: &DocumentValue) -> (r: Result<Value, ConversionError>)
    ensures
        match r {
            Ok(v) => restored(member@) == Ok::<ValueModel, ConversionError>(v@),
            Err(e) => restored(member@) == Err::<ValueModel, ConversionError>(e),
        },
{
    if !member.fits_depth(MAX_DEPTH) {
        return Err(ConversionError::TooDeep);
    }
    Ok(restore(member, MAX_DEPTH))
}

/// Converts a document to an object.
pub fn from_document(document: &BinaryDocument) -> (r: Result<Value, ConversionError>)
    ensures
        match r {
            Ok(v) => restored(DocumentModel::Document(document@)) == Ok::<
                ValueModel,
                ConversionError,
            >(v@),
            Err(e) => restored(DocumentModel::Document(document@)) == Err::<
                ValueModel,
                ConversionError,
            >(e),
        },
{
    if !document.fits_depth(MAX_DEPTH) {
        return Err(ConversionError::TooDeep);
    }
    proof {
        lemma_fields_fit(document@, MAX_DEPTH as nat);
        lemma_value_entries(document@);
    }
    let entries = restore_fields(&document.entries, MAX_DEPTH - 1);
    proof {
        lemma_object_model(entries);
    }
    Ok(Value::Object(entries))
}

/// A document tree is as deep as the value tree it was made from.
pub proof fn lemma_document_fits(v: ValueModel, budget: nat)
    requires
        v.fits(budget),
    ensures
        document_model(v).fits(budget),
    decreases v,
{
    match v {
        ValueModel::Array(items) => {
            lemma_document_members(items);
            lemma_items_fit(items, budget);
            assert forall|i: int| 0 <= i < document_members(items).len() implies (
            #[trigger] document_members(items)[i]).fits((budget - 1) as nat) by {
                lemma_document_fits(items[i], (budget - 1) as nat);
            }
            lemma_members_fit(document_members(items), budget);
        },
        ValueModel::Object(entries) => {
            lemma_document_fields(entries);
            lemma_entries_fit(entries, budget);
            assert forall|i: int| 0 <= i < document_fields(entries).len() implies (
            #[trigger] document_fields(entries)[i]).1.fits((budget - 1) as nat) by {
                lemma_document_fits(entries[i].1, (budget - 1) as nat);
            }
            lemma_fields_fit(document_fields(entries), budget);
        },
        _ => {},
    }
}

/// Whether a number is an integer that an `i64` holds and its text is read
/// as the double of that integer.
pub open spec fn read_exactly(n: Number) -> bool {
    &&& n.integral()
    &&& double_bits(n) is Some
    &&& !double_has_fraction(double_bits(n)->0)
    &&& double_whole(double_bits(n)->0) == n.whole()
}

/// Whether every number of the tree is an integer that an `i64` holds and
/// is read as the double of that integer.
pub open spec fn exact_numbers(v: ValueModel) -> bool
    decreases v,
{
    match v {
        ValueModel::Number(n) => read_exactly(n),
        ValueModel::Array(items) => forall|i: int|
            0 <= i < items.len() ==> exact_numbers(#[trigger] items[i]),
        ValueModel::Object(entries) => forall|i: int|
            0 <= i < entries.len() ==> exact_numbers((#[trigger] entries[i]).1),
        _ => true,
    }
}

/// Whether a number is an integer that an `i64` holds and is read as the
/// double of that integer.
pub fn is_read_exactly(n: Number) -> (r: bool)
    ensures
        r == read_exactly(n),
{
    match decimal_integer(n) {
        None => false,
        Some(whole) => match read_double(n) {
            None => false,
            Some(bits) => match double_integer(bits) {
                None => false,
                Some(read) => read == whole,
            },
        },
    }
}

/// An array's numbers are read exactly where those of each member are.
pub proof fn lemma_items_exact(items: Seq<ValueModel>)
    ensures
        exact_numbers(ValueModel::Array(items)) == (forall|i: int|
            0 <= i < items.len() ==> exact_numbers(#[trigger] items[i])),
{
    if exact_numbers(ValueModel::Array(items)) {
        assert forall|i: int| 0 <= i < items.len() implies exact_numbers(#[trigger] items[i]) by {
            assert(ValueModel::Array(items)->Array_0[i] == items[i]);
        }
    }
}

/// An object's numbers are read exactly where those of each value are.
pub proof fn lemma_entries_exact(entries: Seq<(Seq<char>, ValueModel)>)
    ensures
        exact_numbers(ValueModel::Object(entries)) == (forall|i: int|
            0 <= i < entries.len() ==> exact_numbers((#[trigger] entries[i]).1)),
{
    if exact_numbers(ValueModel::Object(entries)) {
        assert forall|i: int| 0 <= i < entries.len() implies exact_numbers(
            (#[trigger] entries[i]).1,
        ) by {
            assert(ValueModel::Object(entries)->Object_0[i] == entries[i]);
        }
    }
}

/// Whether every number of the tree is an integer that an `i64` holds and
/// is read as the double of that integer: whether the tree comes back from
/// its document tree the same. The tree is walked by a call within a call,
/// as deep as it is nested.
pub fn has_exact_numbers(value: &Value) -> (r: bool)
    ensures
        r == exact_numbers(value@),
    decreases value,
{
    match value {
        Value::Number(n) => is_read_exactly(*n),
        Value::Array(items) => {
            proof {
                lemma_array_model(*items);
                lemma_items_exact(item_models(items@));
            }
            let mut i: usize = 0;
            while i < items.len()
                invariant
                    i <= items.len(),
                    *value == Value::Array(*items),
                    exact_numbers(value@) == (forall|j: int|
                        0 <= j < item_models(items@).len() ==> exact_numbers(
                            #[trigger] item_models(items@)[j],
                        )),
                    forall|j: int| 0 <= j < i ==> exact_numbers(#[trigger] item_models(items@)[j]),
                decreases items.len() - i,
            {
                proof {
                    assert(decreases_to!(*value => value->Array_0));
                    assert(decreases_to!(*items => items@));
                    assert(decreases_to!(items@ => items@[i as int]));
                }
                assert(item_models(items@)[i as int] == items@[i as int]@);
                if !has_exact_numbers(&items[i]) {
                    return false;
                }
                i = i + 1;
            }
            true
        },
        Value::Object(entries) => {
            proof {
                lemma_object_model(*entries);
                lemma_entries_exact(entry_models(entries@));
            }
            let mut i: usize = 0;
            while i < entries.len()
                invariant
                    i <= entries.len(),
                    *value == Value::Object(*entries),
                    exact_numbers(value@) == (forall|j: int|
                        0 <= j < entry_models(entries@).len() ==> exact_numbers(
                            (#[trigger] entry_models(entries@)[j]).1,
                        )),
                    forall|j: int|
                        0 <= j < i ==> exact_numbers((#[trigger] entry_models(entries@)[j]).1),
                decreases entries.len() - i,
            {
                proof {
                    assert(decreases_to!(*value => value->Object_0));
                    assert(decreases_to!(*entries => entries@));
                    assert(decreases_to!(entries@ => entries@[i as int]));
                    assert(decreases_to!(entries@[i as int] => entries@[i as int].1));
                }
                assert(entry_models(entries@)[i as int].1 == entries@[i as int].1@);
                if !has_exact_numbers(&entries[i].1) {
                    return false;
                }
                i = i + 1;
            }
            true
        },
        _ => true,
    }
}

/// A value tree whose numbers are integers read as their own doubles comes
/// back from its document tree the same, numbers counted by their value.
pub proof fn lemma_models_round_trip(v: ValueModel)
    requires
        exact_numbers(v),
    ensures
        value_model(document_model(v)).same_as(v),
    decreases v,
{
    match v {
        ValueModel::Number(n) => {
            lemma_whole_same_value(n);
        },
        ValueModel::Array(items) => {
            lemma_document_members(items);
            lemma_value_items(document_members(items));
            let back = value_items(document_members(items));
            assert forall|i: int| 0 <= i < back.len() implies (#[trigger] back[i]).same_as(
                items[i],
            ) by {
                assert(v->Array_0[i] == items[i]);
                lemma_models_round_trip(items[i]);
            }
        },
        ValueModel::Object(entries) => {
            lemma_document_fields(entries);
            lemma_value_entries(document_fields(entries));
            let back = value_entries(document_fields(entries));
            assert forall|i: int| 0 <= i < back.len() implies (#[trigger] back[i]).0 == entries[i].0
                && back[i].1.same_as(entries[i].1) by {
                assert(v->Object_0[i] == entries[i]);
                lemma_models_round_trip(entries[i].1);
            }
        },
        _ => {},
    }
}

/// Round trip of a tree. A value tree of accepted depth whose numbers are
/// integers that an `i64` holds, each read as the double of that integer,
/// converts to a document tree, and converting that tree back succeeds and
/// gives the value tree again, numbers counted by their value. That a text
/// is read as the double of its integer is the part of the standard
/// library: it is a condition of this statement, and holds of no integer
/// that a double does not hold, such as `2^53 + 1`.
pub proof fn lemma_value_round_trip(v: ValueModel)
    requires
        v.fits(MAX_DEPTH as nat),
        exact_numbers(v),
    ensures
        converted(v) is Ok,
        restored(converted(v)->Ok_0) is Ok,
        restored(converted(v)->Ok_0)->Ok_0.same_as(v),
{
    lemma_exact_numbers_read(v);
    lemma_document_fits(v, MAX_DEPTH as nat);
    lemma_models_round_trip(v);
}

/// Round trip of a document. An object of accepted depth whose numbers are
/// integers that an `i64` holds, each read as the double of that integer,
/// converts to a document, and converting the document back succeeds and
/// gives the object again, numbers counted by their value.
pub proof fn lemma_document_round_trip(v: ValueModel)
    requires
        v is Object,
        v.fits(MAX_DEPTH as nat),
        exact_numbers(v),
    ensures
        converted_document(v) is Ok,
        restored(DocumentModel::Document(converted_document(v)->Ok_0)) is Ok,
        restored(DocumentModel::Document(converted_document(v)->Ok_0))->Ok_0.same_as(v),
{
    lemma_value_round_trip(v);
    lemma_document_fields(v->Object_0);
}

/// The document tree of a tree of integers read as their own doubles,
/// without a key twice, holds no `Double` and no key twice.
pub proof fn lemma_document_plain(v: ValueModel)
    requires
        exact_numbers(v),
        v.unique_keys(),
    ensures
        document_model(v).plain(),
    decreases v,
{
    match v {
        ValueModel::Array(items) => {
            lemma_document_members(items);
            let members = document_members(items);
            assert forall|i: int| 0 <= i < members.len() implies (#[trigger] members[i]).plain() by {
                assert(v->Array_0[i] == items[i]);
                lemma_document_plain(items[i]);
            }
        },
        ValueModel::Object(entries) => {
            lemma_document_fields(entries);
            let fields = document_fields(entries);
            assert forall|i: int| 0 <= i < fields.len() implies (#[trigger] fields[i]).1.plain() by {
                assert(v->Object_0[i] == entries[i]);
                lemma_document_plain(entries[i].1);
            }
            assert forall|i: int, j: int| 0 <= i < j < fields.len() implies (#[trigger] fields[i]).0
                != (#[trigger] fields[j]).0 by {
                assert(entries[i].0 != entries[j].0);
            }
        },
        _ => {},
    }
}

/// What is read exactly is read.
pub proof fn lemma_exact_numbers_read(v: ValueModel)
    requires
        exact_numbers(v),
    ensures
        numbers_read(v),
    decreases v,
{
    match v {
        ValueModel::Array(items) => {
            assert forall|i: int| 0 <= i < items.len() implies numbers_read(
                #[trigger] items[i],
            ) by {
                lemma_exact_numbers_read(items[i]);
            }
        },
        ValueModel::Object(entries) => {
            assert forall|i: int| 0 <= i < entries.len() implies numbers_read(
                (#[trigger] entries[i]).1,
            ) by {
                lemma_exact_numbers_read(entries[i].1);
            }
        },
        _ => {},
    }
}

} // verus!
