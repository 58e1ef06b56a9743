//! Documents as the bytes of the BSON format, through the `bson` crate.
//!
//! The crate's own values are opaque here. What they hold is named by
//! `element_model` and `entries_model`, and the few calls into the crate say
//! over those names what its source shows. The walks over the trees, towards
//! the crate and back, are this library's.

use crate::document::BinaryDocument;
use crate::errors::CodecError;
use crate::errors::ConversionError;
use crate::document::field_models;
use crate::document::lemma_field_models;
use crate::document::lemma_fields_fit;
use crate::document::lemma_member_models;
use crate::document::lemma_members_fit;
use crate::document::member_models;
use crate::document::DocumentModel;
use crate::document::DocumentValue;
use crate::entries::distinct_keys;
use crate::entries::lemma_position;
use crate::entries::position;
use crate::entries::upsert;
use crate::nesting::nesting_bounded;
use crate::nesting::nesting_within_limit;
use crate::number::double_finite;
use crate::number::number_of_parts;
use crate::number::Number;
use crate::value::MAX_DEPTH;
use vstd::prelude::*;

verus! {

/// `bson::Bson`: an element, carried as it is.
#[verifier::external_type_specification]
#[verifier::external_body]
pub struct ExBson(bson::Bson);

/// `bson::Document`: a document, carried as it is.
#[verifier::external_type_specification]
#[verifier::external_body]
pub struct ExBsonDocument(bson::Document);

/// `bson::ser::Error`: why a document was not written.
#[verifier::external_type_specification]
#[verifier::external_body]
pub struct ExBsonWriteError(bson::ser::Error);

/// `bson::de::Error`: why bytes were not read.
#[verifier::external_type_specification]
#[verifier::external_body]
pub struct ExBsonReadError(bson::de::Error);

/// What an element of the `bson` crate holds. A double is given by the
/// sixty-four bits of its binary form. `Other` stands for every kind of
/// element that this library does not read.
pub enum ElementModel {
    Null,
    Bool(bool),
    Int32(i32),
    Int64(i64),
    Double(u64),
    String(Seq<char>),
    Array(Seq<ElementModel>),
    Document(Seq<(Seq<char>, ElementModel)>),
    Other,
}

impl ElementModel {
    /// Whether arrays and documents are nested at most `budget` deep.
    pub open spec fn fits(self, budget: nat) -> bool
        decreases self,
    {
        match self {
            ElementModel::Array(items) => budget > 0 && forall|i: int|
                0 <= i < items.len() ==> (#[trigger] items[i]).fits((budget - 1) as nat),
            ElementModel::Document(entries) => budget > 0 && forall|i: int|
                0 <= i < entries.len() ==> (#[trigger] entries[i]).1.fits((budget - 1) as nat),
            _ => true,
        }
    }

    /// Whether the element and all that it holds is of a kind that this
    /// library reads.
    pub open spec fn readable(self) -> bool
        decreases self,
    {
        match self {
            ElementModel::Other => false,
            ElementModel::Array(items) => forall|i: int|
                0 <= i < items.len() ==> (#[trigger] items[i]).readable(),
            ElementModel::Document(entries) => forall|i: int|
                0 <= i < entries.len() ==> (#[trigger] entries[i]).1.readable(),
            _ => true,
        }
    }
}

/// What an element holds.
pub uninterp spec fn element_model(element: bson::Bson) -> ElementModel;

/// The entries of a document of the `bson` crate, in its order.
pub uninterp spec fn entries_model(document: bson::Document) -> Seq<(Seq<char>, ElementModel)>;

/// The bits of the double that the text of a decimal is read as, or `None`
/// where the text is not read as a double. Nothing is stated of it for what
/// is no number.
pub uninterp spec fn double_bits(n: Number) -> Option<u64>;

/// The decimal that a double, given by its bits, is written as;
/// `NotANumber` for a double that is none or is infinite.
pub uninterp spec fn double_decimal(bits: u64) -> Number;

/// The entries of the document that the bytes are, or `None` where they are
/// no document.
pub uninterp spec fn wire_entries(bytes: Seq<u8>) -> Option<Seq<(Seq<char>, ElementModel)>>;

/// The bytes of a document, or `None` where the format has none for it.
pub uninterp spec fn wire_bytes(entries: Seq<(Seq<char>, ElementModel)>) -> Option<Seq<u8>>;

/// What the elements of a vector hold.
pub open spec fn element_models(elements: Seq<bson::Bson>) -> Seq<ElementModel> {
    elements.map_values(|element: bson::Bson| element_model(element))
}

/// An element without the elements below it, to be made into one.
pub enum Piece {
    Null,
    Bool(bool),
    Int64(i64),
    String(String),
    Array(Vec<bson::Bson>),
    Document(bson::Document),
}

impl Piece {
    /// What the element made of the piece holds.
    pub open spec fn model(self) -> ElementModel {
        match self {
            Piece::Null => ElementModel::Null,
            Piece::Bool(b) => ElementModel::Bool(b),
            Piece::Int64(i) => ElementModel::Int64(i),
            Piece::String(s) => ElementModel::String(s@),
            Piece::Array(elements) => ElementModel::Array(element_models(elements@)),
            Piece::Document(document) => ElementModel::Document(entries_model(document)),
        }
    }
}

/// An element without the elements below it, as it is found.
pub enum Shape<'a> {
    Null,
    Bool(bool),
    Int32(i32),
    Int64(i64),
    /// The bits of the double, and the decimal that the double is written
    /// as, in the parts of a `json::number::Number`.
    Double { bits: u64, nan: bool, positive: bool, mantissa: u64, exponent: i16 },
    String(&'a str),
    Array(&'a Vec<bson::Bson>),
    Document(&'a bson::Document),
    Other,
}

/// Tells the variants of `bson::Bson` apart. For a double it gives the
/// bits, and the parts of the `json::number::Number` that the double
/// converts to.
#[verifier::external_body]
pub(crate) fn shape_of<'a>(element: &'a bson::Bson) -> (shape: Shape<'a>)
    ensures
        match shape {
            Shape::Null => element_model(*element) == ElementModel::Null,
            Shape::Bool(b) => element_model(*element) == ElementModel::Bool(b),
            Shape::Int32(i) => element_model(*element) == ElementModel::Int32(i),
            Shape::Int64(i) => element_model(*element) == ElementModel::Int64(i),
            Shape::Double { bits, nan, positive, mantissa, exponent } => {
                &&& element_model(*element) == ElementModel::Double(bits)
                &&& double_decimal(bits) == number_of_parts(nan, positive, mantissa, exponent)
            },
            Shape::String(s) => element_model(*element) == ElementModel::String(s@),
            Shape::Array(elements) => element_model(*element) == ElementModel::Array(
                element_models(elements@),
            ),
            Shape::Document(document) => element_model(*element) == ElementModel::Document(
                entries_model(*document),
            ),
            Shape::Other => element_model(*element) == ElementModel::Other,
        },
{
    match element {
        bson::Bson::Null => Shape::Null,
        bson::Bson::Boolean(b) => Shape::Bool(*b),
        bson::Bson::Int32(i) => Shape::Int32(*i),
        bson::Bson::Int64(i) => Shape::Int64(*i),
        bson::Bson::Double(x) => {
            let n = json::number::Number::from(*x);
            let (positive, mantissa, exponent) = n.as_parts();
            Shape::Double { bits: x.to_bits(), nan: n.is_nan(), positive, mantissa, exponent }
        },
        bson::Bson::String(s) => Shape::String(s),
        bson::Bson::Array(elements) => Shape::Array(elements),
        bson::Bson::Document(document) => Shape::Document(document),
        _ => Shape::Other,
    }
}

/// `bson::Document::iter`, collected: the entries of the document, in its
/// order.
#[verifier::external_body]
pub(crate) fn entries_of<'a>(document: &'a bson::Document) -> (entries: Vec<
    (&'a str, &'a bson::Bson),
>)
    ensures
        entries@.len() == entries_model(*document).len(),
        forall|i: int|
            0 <= i < entries@.len() ==> (#[trigger] entries@[i]).0@ == entries_model(*document)[i].0
                && element_model(*entries@[i].1) == entries_model(*document)[i].1,
{
    document.iter().map(|entry| (entry.0.as_str(), entry.1)).collect()
}

/// `bson::Document::from_reader` on a slice of bytes: the document that the
/// bytes are, if they are one. The crate reads a nested document by a call
/// within a call, so the bytes that nest deeper than `MAX_DEPTH` are left
/// out.
#[verifier::external_body]
pub(crate) fn read_bytes(bytes: &[u8]) -> (r: Result<bson::Document, bson::de::Error>)
    requires
        nesting_bounded(bytes@),
    ensures
        match r {
            Ok(document) => wire_entries(bytes@) == Some(entries_model(document)),
            Err(_) => wire_entries(bytes@) is None,
        },
{
    bson::Document::from_reader(bytes)
}

/// The variants of `bson::Bson` for null, booleans, 64-bit integers,
/// strings, arrays and documents: the element holds what the piece held.
#[verifier::external_body]
pub(crate) fn element_of(piece: Piece) -> (element: bson::Bson)
    ensures
        element_model(element) == piece.model(),
{
    match piece {
        Piece::Null => bson::Bson::Null,
        Piece::Bool(b) => bson::Bson::Boolean(b),
        Piece::Int64(i) => bson::Bson::Int64(i),
        Piece::String(s) => bson::Bson::String(s),
        Piece::Array(elements) => bson::Bson::Array(elements),
        Piece::Document(document) => bson::Bson::Document(document),
    }
}

/// `bson::Bson::Double` of the double that the standard library reads from
/// the text that `json::number::Number` writes for the decimal; `None`
/// where the standard library does not read the text.
#[verifier::external_body]
pub(crate) fn double_element(negative: bool, mantissa: u64, exponent: i16) -> (r: Option<
    bson::Bson,
>)
    ensures
        match r {
            Some(element) => double_bits(Number::Decimal { negative, mantissa, exponent })
                == Some(element_model(element)->Double_0) && element_model(element) is Double,
            None => double_bits(Number::Decimal { negative, mantissa, exponent }) is None,
        },
{
    let text = json::number::Number::from_parts(!negative, mantissa, exponent).to_string();
    text.parse().ok().map(bson::Bson::Double)
}

/// `bson::Bson::Double` of the double that `json::number::NAN` converts
/// to: a double that is no number. Which of the doubles that are no
/// number it is, is not stated.
#[verifier::external_body]
pub(crate) fn nan_element() -> (element: bson::Bson)
    ensures
        element_model(element) is Double,
        !double_finite(element_model(element)->Double_0),
{
    bson::Bson::Double(json::number::NAN.into())
}

/// The element for a number as a double, if its text is read as one.
fn number_element(n: Number) -> (r: Option<bson::Bson>)
    ensures
        match r {
            Some(element) => {
                &&& element_model(element) is Double
                &&& n is Decimal ==> double_bits(n) == Some(element_model(element)->Double_0)
                &&& n is NotANumber ==> !double_finite(element_model(element)->Double_0)
            },
            None => n is Decimal && double_bits(n) is None,
        },
{
    match n {
        Number::Decimal { negative, mantissa, exponent } => double_element(
            negative,
            mantissa,
            exponent,
        ),
        Number::NotANumber => Some(nan_element()),
    }
}

/// The bits of the double that a number is taken as: for a decimal, of the
/// double that its text is read as; for what is no number, of a double that
/// is no number.
pub fn read_double(n: Number) -> (r: Option<u64>)
    ensures
        n is Decimal ==> r == double_bits(n),
        n is NotANumber ==> r is Some && !double_finite(r->0),
{
    match number_element(n) {
        Some(element) => match shape_of(&element) {
            Shape::Double { bits, nan, positive, mantissa, exponent } => Some(bits),
            _ => None,
        },
        None => None,
    }
}

/// `bson::Document::new`: a document without entries.
#[verifier::external_body]
pub(crate) fn new_document() -> (document: bson::Document)
    ensures
        entries_model(document) == Seq::<(Seq<char>, ElementModel)>::empty(),
{
    bson::Document::new()
}

/// `bson::Document::insert`: the element replaces the one that the key had,
/// where the key stands; under a new key the entry comes last.
#[verifier::external_body]
pub(crate) fn insert_element(document: &mut bson::Document, key: &str, element: bson::Bson)
    ensures
        entries_model(*final(document)) == upsert(
            entries_model(*old(document)),
            key@,
            element_model(element),
        ),
{
    document.insert(key, element);
}

/// `bson::Document::to_writer` into an empty vector: the bytes of the
/// document. For a document of readable elements the outcome depends on
/// what the document holds alone. The crate writes a nested document by a
/// call within a call, so the documents nested deeper than `MAX_DEPTH` are
/// left out.
#[verifier::external_body]
pub(crate) fn document_bytes(document: &bson::Document) -> (r: Result<Vec<u8>, bson::ser::Error>)
    requires
        ElementModel::Document(entries_model(*document)).fits(MAX_DEPTH as nat),
    ensures
        ElementModel::Document(entries_model(*document)).readable() ==> match r {
            Ok(bytes) => wire_bytes(entries_model(*document)) == Some(bytes@),
            Err(_) => wire_bytes(entries_model(*document)) is None,
        },
{
    let mut bytes = Vec::new();
    document.to_writer(&mut bytes).map(|_| bytes)
}

/// An array is without a `Double` that is no number where each member is.
pub proof fn lemma_members_without_nan(items: Seq<DocumentModel>)
    ensures
        DocumentModel::Array(items).without_nan() == (forall|i: int|
            0 <= i < items.len() ==> (#[trigger] items[i]).without_nan()),
{
    if DocumentModel::Array(items).without_nan() {
        assert forall|i: int| 0 <= i < items.len() implies (#[trigger] items[i]).without_nan() by {
            assert(DocumentModel::Array(items)->Array_0[i] == items[i]);
        }
    }
}

/// A document is without a `Double` that is no number where each value is.
pub proof fn lemma_fields_without_nan(entries: Seq<(Seq<char>, DocumentModel)>)
    ensures
        DocumentModel::Document(entries).without_nan() == (forall|i: int|
            0 <= i < entries.len() ==> (#[trigger] entries[i]).1.without_nan()),
{
    if DocumentModel::Document(entries).without_nan() {
        assert forall|i: int| 0 <= i < entries.len() implies (
        #[trigger] entries[i]).1.without_nan() by {
            assert(DocumentModel::Document(entries)->Document_0[i] == entries[i]);
        }
    }
}

/// A tree without a `Double` is without one that is no number.
pub proof fn lemma_plain_without_nan(d: DocumentModel)
    requires
        d.plain(),
    ensures
        d.without_nan(),
    decreases d,
{
    match d {
        DocumentModel::Array(items) => {
            assert forall|i: int| 0 <= i < items.len() implies (#[trigger] items[i]).without_nan() by {
                lemma_plain_without_nan(items[i]);
            }
        },
        DocumentModel::Document(entries) => {
            assert forall|i: int| 0 <= i < entries.len() implies (
            #[trigger] entries[i]).1.without_nan() by {
                lemma_plain_without_nan(entries[i].1);
            }
        },
        _ => {},
    }
}

/// Whether every `Double` of the tree is no number or has a text that is
/// read as a double.
pub open spec fn doubles_read(d: DocumentModel) -> bool
    decreases d,
{
    match d {
        DocumentModel::Double(n) => n is NotANumber || double_bits(n) is Some,
        DocumentModel::Array(items) => forall|i: int|
            0 <= i < items.len() ==> doubles_read(#[trigger] items[i]),
        DocumentModel::Document(entries) => forall|i: int|
            0 <= i < entries.len() ==> doubles_read((#[trigger] entries[i]).1),
        _ => true,
    }
}

/// The doubles of an array are read where those of each member are.
pub proof fn lemma_members_read(items: Seq<DocumentModel>)
    ensures
        doubles_read(DocumentModel::Array(items)) == (forall|i: int|
            0 <= i < items.len() ==> doubles_read(#[trigger] items[i])),
{
    if doubles_read(DocumentModel::Array(items)) {
        assert forall|i: int| 0 <= i < items.len() implies doubles_read(#[trigger] items[i]) by {
            assert(DocumentModel::Array(items)->Array_0[i] == items[i]);
        }
    }
}

/// The doubles of a document are read where those of each value are.
pub proof fn lemma_fields_read(entries: Seq<(Seq<char>, DocumentModel)>)
    ensures
        doubles_read(DocumentModel::Document(entries)) == (forall|i: int|
            0 <= i < entries.len() ==> doubles_read((#[trigger] entries[i]).1)),
{
    if doubles_read(DocumentModel::Document(entries)) {
        assert forall|i: int| 0 <= i < entries.len() implies doubles_read(
            (#[trigger] entries[i]).1,
        ) by {
            assert(DocumentModel::Document(entries)->Document_0[i] == entries[i]);
        }
    }
}

/// A tree without a `Double` has none that is not read.
pub proof fn lemma_plain_doubles_read(d: DocumentModel)
    requires
        d.plain(),
    ensures
        doubles_read(d),
    decreases d,
{
    match d {
        DocumentModel::Array(items) => {
            assert forall|i: int| 0 <= i < items.len() implies doubles_read(
                #[trigger] items[i],
            ) by {
                lemma_plain_doubles_read(items[i]);
            }
        },
        DocumentModel::Document(entries) => {
            assert forall|i: int| 0 <= i < entries.len() implies doubles_read(
                (#[trigger] entries[i]).1,
            ) by {
                lemma_plain_doubles_read(entries[i].1);
            }
        },
        _ => {},
    }
}

/// The element tree that is written for a document tree without a `Double`
/// that is no number: a `Double` becomes the double that its text is read
/// as, and the entries of a document are inserted one after another.
pub open spec fn written(d: DocumentModel) -> ElementModel
    decreases d,
{
    match d {
        DocumentModel::Null => ElementModel::Null,
        DocumentModel::Bool(b) => ElementModel::Bool(b),
        DocumentModel::Int64(i) => ElementModel::Int64(i),
        DocumentModel::Double(n) => ElementModel::Double(double_bits(n)->0),
        DocumentModel::String(s) => ElementModel::String(s),
        DocumentModel::Array(items) => ElementModel::Array(
            Seq::new(
                items.len(),
                |i: int|
                    if 0 <= i < items.len() {
                        written(items[i])
                    } else {
                        ElementModel::Null
                    },
            ),
        ),
        DocumentModel::Document(entries) => ElementModel::Document(written_entries(entries)),
    }
}

/// The entries written for the entries of a document: each is inserted
/// after those before it, so that a key that comes again replaces its value.
pub open spec fn written_entries(entries: Seq<(Seq<char>, DocumentModel)>) -> Seq<
    (Seq<char>, ElementModel),
>
    decreases entries,
{
    if entries.len() == 0 {
        Seq::empty()
    } else {
        upsert(
            written_entries(entries.drop_last()),
            entries.last().0,
            written(entries.last().1),
        )
    }
}

/// The elements written for the members of an array.
pub open spec fn written_members(items: Seq<DocumentModel>) -> Seq<ElementModel> {
    items.map_values(|item: DocumentModel| written(item))
}

/// The element written for an array holds the elements of its members.
pub proof fn lemma_written_members(items: Seq<DocumentModel>)
    ensures
        written(DocumentModel::Array(items)) == ElementModel::Array(written_members(items)),
{
    reveal_with_fuel(written, 2);
    assert(written(DocumentModel::Array(items))->Array_0 =~= written_members(items));
}

/// The entries after an insertion all have what holds of the entries before
/// and of the value that came in.
pub proof fn lemma_upsert_keeps(
    entries: Seq<(Seq<char>, ElementModel)>,
    key: Seq<char>,
    value: ElementModel,
    budget: nat,
)
    requires
        forall|i: int|
            0 <= i < entries.len() ==> (#[trigger] entries[i]).1.fits(budget) && entries[i].1.readable(),
        value.fits(budget),
        value.readable(),
    ensures
        forall|i: int|
            0 <= i < upsert(entries, key, value).len() ==> (#[trigger] upsert(
                entries,
                key,
                value,
            )[i]).1.fits(budget) && upsert(entries, key, value)[i].1.readable(),
{
    lemma_position(entries, key);
}

/// Writes a document tree of accepted depth as an element; `None` where
/// the text of a `Double` is not read as a double. The element is as deep
/// as the tree. Where the tree holds a `Double` that is no number, which
/// double stands for it is not stated.
fn lower(member: &DocumentValue, budget: usize) -> (r: Option<bson::Bson>)
    requires
        member@.fits(budget as nat),
    ensures
        match r {
            Some(element) => {
                &&& doubles_read(member@)
                &&& element_model(element).fits(budget as nat)
                &&& element_model(element).readable()
                &&& member@.without_nan() ==> element_model(element) == written(member@)
            },
            None => !doubles_read(member@),
        },
    decreases budget, 0nat,
{
    match member {
        DocumentValue::Null => Some(element_of(Piece::Null)),
        DocumentValue::Bool(b) => Some(element_of(Piece::Bool(*b))),
        DocumentValue::Int64(i) => Some(element_of(Piece::Int64(*i))),
        DocumentValue::Double(n) => number_element(*n),
        DocumentValue::String(s) => Some(element_of(Piece::String(s.clone()))),
        DocumentValue::Array(members) => {
            proof {
                lemma_member_models(*members);
                lemma_members_fit(member_models(members@), budget as nat);
                lemma_members_read(member_models(members@));
                lemma_members_without_nan(member_models(members@));
                lemma_written_members(member_models(members@));
            }
            match lower_members(members, budget - 1) {
                Some(elements) => {
                    proof {
                        lemma_elements_fit(element_models(elements@), budget as nat);
                        lemma_elements_readable(element_models(elements@));
                    }
                    Some(element_of(Piece::Array(elements)))
                },
                None => None,
            }
        },
        DocumentValue::Document(fields) => {
            proof {
                lemma_field_models(*fields);
                lemma_fields_fit(field_models(fields@), budget as nat);
                lemma_fields_read(field_models(fields@));
                lemma_fields_without_nan(field_models(fields@));
            }
            match lower_fields(fields, budget - 1) {
                Some(document) => {
                    proof {
                        lemma_document_fits(entries_model(document), budget as nat);
                        lemma_document_readable(entries_model(document));
                    }
                    Some(element_of(Piece::Document(document)))
                },
                None => None,
            }
        },
    }
}

/// Writes the members of an array, in order.
fn lower_members(members: &Vec<DocumentValue>, budget: usize) -> (r: Option<Vec<bson::Bson>>)
    requires
        forall|i: int|
            0 <= i < members@.len() ==> (#[trigger] member_models(members@)[i]).fits(
                budget as nat,
            ),
    ensures
        match r {
            Some(elements) => {
                &&& forall|i: int|
                    0 <= i < members@.len() ==> doubles_read(#[trigger] member_models(members@)[i])
                &&& forall|i: int|
                    0 <= i < elements@.len() ==> (#[trigger] element_models(elements@)[i]).fits(
                        budget as nat,
                    ) && element_models(elements@)[i].readable()
                &&& (forall|i: int|
                    0 <= i < members@.len() ==> (#[trigger] member_models(
                        members@,
                    )[i]).without_nan()) ==> element_models(elements@) == written_members(
                    member_models(members@),
                )
            },
            None => exists|i: int|
                0 <= i < members@.len() && !doubles_read(#[trigger] member_models(members@)[i]),
        },
    decreases budget, 1nat,
{
    let mut elements: Vec<bson::Bson> = Vec::new();
    let mut i: usize = 0;
    while i < members.len()
        invariant
            i <= members.len(),
            elements@.len() == i,
            forall|j: int|
                0 <= j < members@.len() ==> (#[trigger] member_models(members@)[j]).fits(
                    budget as nat,
                ),
            forall|j: int| 0 <= j < i ==> doubles_read(#[trigger] member_models(members@)[j]),
            forall|j: int|
                0 <= j < i ==> element_model(#[trigger] elements@[j]).fits(budget as nat)
                    && element_model(elements@[j]).readable(),
            forall|j: int|
                0 <= j < i && members@[j]@.without_nan() ==> element_model(
                    #[trigger] elements@[j],
                ) == written(members@[j]@),
        decreases members.len() - i,
    {
        assert(member_models(members@)[i as int] == members@[i as int]@);
        match lower(&members[i], budget) {
            Some(element) => {
                elements.push(element);
            },
            None => {
                return None;
            },
        }
        i = i + 1;
    }
    proof {
        assert forall|j: int| 0 <= j < elements@.len() implies (#[trigger] element_models(
            elements@,
        )[j]).fits(budget as nat) && element_models(elements@)[j].readable() by {
            assert(element_model(elements@[j]).fits(budget as nat));
        }
        if forall|j: int|
            0 <= j < members@.len() ==> (#[trigger] member_models(members@)[j]).without_nan() {
            assert forall|j: int| 0 <= j < elements@.len() implies element_models(elements@)[j]
                == written_members(member_models(members@))[j] by {
                assert(member_models(members@)[j].without_nan());
                assert(element_model(elements@[j]) == written(members@[j]@));
            }
            assert(element_models(elements@) =~= written_members(member_models(members@)));
        }
    }
    Some(elements)
}

/// Writes the entries of a document by inserting them one after another.
fn lower_fields(fields: &Vec<(String, DocumentValue)>, budget: usize) -> (r: Option<
    bson::Document,
>)
    requires
        forall|i: int|
            0 <= i < fields@.len() ==> (#[trigger] field_models(fields@)[i]).1.fits(
                budget as nat,
            ),
    ensures
        match r {
            Some(document) => {
                &&& forall|i: int|
                    0 <= i < fields@.len() ==> doubles_read(
                        (#[trigger] field_models(fields@)[i]).1,
                    )
                &&& forall|i: int|
                    0 <= i < entries_model(document).len() ==> (#[trigger] entries_model(
                        document,
                    )[i]).1.fits(budget as nat) && entries_model(document)[i].1.readable()
                &&& (forall|i: int|
                    0 <= i < fields@.len() ==> (#[trigger] field_models(
                        fields@,
                    )[i]).1.without_nan()) ==> entries_model(document) == written_entries(
                    field_models(fields@),
                )
            },
            None => exists|i: int|
                0 <= i < fields@.len() && !doubles_read((#[trigger] field_models(fields@)[i]).1),
        },
    decreases budget, 1nat,
{
    let mut document = new_document();
    let ghost all = field_models(fields@);
    let mut i: usize = 0;
    assert(all.take(0) =~= Seq::empty());
    while i < fields.len()
        invariant
            i <= fields.len(),
            all == field_models(fields@),
            forall|j: int|
                0 <= j < fields@.len() ==> (#[trigger] field_models(fields@)[j]).1.fits(
                    budget as nat,
                ),
            forall|j: int| 0 <= j < i ==> doubles_read((#[trigger] field_models(fields@)[j]).1),
            forall|j: int|
                0 <= j < entries_model(document).len() ==> (#[trigger] entries_model(
                    document,
                )[j]).1.fits(budget as nat) && entries_model(document)[j].1.readable(),
            (forall|j: int| 0 <= j < i ==> (#[trigger] all[j]).1.without_nan())
                ==> entries_model(document) == written_entries(all.take(i as int)),
        decreases fields.len() - i,
    {
        assert(field_models(fields@)[i as int].1 == fields@[i as int].1@);
        match lower(&fields[i].1, budget) {
            Some(element) => {
                proof {
                    let next = all.take(i + 1);
                    assert(next.drop_last() =~= all.take(i as int));
                    assert(next.last() == (fields@[i as int].0@, fields@[i as int].1@));
                    lemma_upsert_keeps(
                        entries_model(document),
                        fields@[i as int].0@,
                        element_model(element),
                        budget as nat,
                    );
                    if forall|j: int| 0 <= j < i + 1 ==> (#[trigger] all[j]).1.without_nan() {
                        assert(all[i as int].1.without_nan());
                        assert forall|j: int| 0 <= j < i implies (#[trigger] all[j]).1.without_nan() by {}
                    }
                }
                insert_element(&mut document, fields[i].0.as_str(), element);
            },
            None => {
                return None;
            },
        }
        i = i + 1;
    }
    assert(all.take(fields.len() as int) =~= all);
    Some(document)
}

/// An array fits a budget where each of its elements fits one less.
pub proof fn lemma_elements_fit(models: Seq<ElementModel>, budget: nat)
    requires
        budget > 0,
    ensures
        ElementModel::Array(models).fits(budget) == (forall|i: int|
            0 <= i < models.len() ==> (#[trigger] models[i]).fits((budget - 1) as nat)),
{
    if ElementModel::Array(models).fits(budget) {
        assert forall|i: int| 0 <= i < models.len() implies (#[trigger] models[i]).fits(
            (budget - 1) as nat,
        ) by {
            assert(ElementModel::Array(models)->Array_0[i] == models[i]);
        }
    }
}

/// A document fits a budget where each of its elements fits one less.
pub proof fn lemma_document_fits(models: Seq<(Seq<char>, ElementModel)>, budget: nat)
    requires
        budget > 0,
    ensures
        ElementModel::Document(models).fits(budget) == (forall|i: int|
            0 <= i < models.len() ==> (#[trigger] models[i]).1.fits((budget - 1) as nat)),
{
    if ElementModel::Document(models).fits(budget) {
        assert forall|i: int| 0 <= i < models.len() implies (#[trigger] models[i]).1.fits(
            (budget - 1) as nat,
        ) by {
            assert(ElementModel::Document(models)->Document_0[i] == models[i]);
        }
    }
}

/// An array is readable where each of its elements is.
pub proof fn lemma_elements_readable(models: Seq<ElementModel>)
    ensures
        ElementModel::Array(models).readable() == (forall|i: int|
            0 <= i < models.len() ==> (#[trigger] models[i]).readable()),
{
    if ElementModel::Array(models).readable() {
        assert forall|i: int| 0 <= i < models.len() implies (#[trigger] models[i]).readable() by {
            assert(ElementModel::Array(models)->Array_0[i] == models[i]);
        }
    }
}

/// A document is readable where each of its elements is.
pub proof fn lemma_document_readable(models: Seq<(Seq<char>, ElementModel)>)
    ensures
        ElementModel::Document(models).readable() == (forall|i: int|
            0 <= i < models.len() ==> (#[trigger] models[i]).1.readable()),
{
    if ElementModel::Document(models).readable() {
        assert forall|i: int| 0 <= i < models.len() implies (#[trigger] models[i]).1.readable() by {
            assert(ElementModel::Document(models)->Document_0[i] == models[i]);
        }
    }
}

/// The document tree that is read from an element tree: a 32-bit integer
/// is widened, and a double is given by the decimal it is written as.
pub open spec fn read(e: ElementModel) -> DocumentModel
    decreases e,
{
    match e {
        ElementModel::Null => DocumentModel::Null,
        ElementModel::Bool(b) => DocumentModel::Bool(b),
        ElementModel::Int32(i) => DocumentModel::Int64(i as i64),
        ElementModel::Int64(i) => DocumentModel::Int64(i),
        ElementModel::Double(bits) => DocumentModel::Double(double_decimal(bits)),
        ElementModel::String(s) => DocumentModel::String(s),
        ElementModel::Array(items) => DocumentModel::Array(
            Seq::new(
                items.len(),
                |i: int|
                    if 0 <= i < items.len() {
                        read(items[i])
                    } else {
                        DocumentModel::Null
                    },
            ),
        ),
        ElementModel::Document(entries) => DocumentModel::Document(
            Seq::new(
                entries.len(),
                |i: int|
                    if 0 <= i < entries.len() {
                        (entries[i].0, read(entries[i].1))
                    } else {
                        (Seq::empty(), DocumentModel::Null)
                    },
            ),
        ),
        ElementModel::Other => DocumentModel::Null,
    }
}

/// The members read from the elements of an array.
pub open spec fn read_members(items: Seq<ElementModel>) -> Seq<DocumentModel> {
    items.map_values(|item: ElementModel| read(item))
}

/// The entries read from the entries of a document.
pub open spec fn read_fields(entries: Seq<(Seq<char>, ElementModel)>) -> Seq<
    (Seq<char>, DocumentModel),
> {
    entries.map_values(|entry: (Seq<char>, ElementModel)| (entry.0, read(entry.1)))
}

/// What is read from an array is the array of what is read from its
/// elements.
pub proof fn lemma_read_members(items: Seq<ElementModel>)
    ensures
        read(ElementModel::Array(items)) == DocumentModel::Array(read_members(items)),
{
    reveal_with_fuel(read, 2);
    assert(read(ElementModel::Array(items))->Array_0 =~= read_members(items));
}

/// What is read from a document is the document of what is read from its
/// entries.
pub proof fn lemma_read_fields(entries: Seq<(Seq<char>, ElementModel)>)
    ensures
        read(ElementModel::Document(entries)) == DocumentModel::Document(read_fields(entries)),
{
    reveal_with_fuel(read, 2);
    assert(read(ElementModel::Document(entries))->Document_0 =~= read_fields(entries));
}

/// Whether an element is nested at most `budget` deep.
fn element_fits(element: &bson::Bson, budget: usize) -> (r: bool)
    ensures
        r == element_model(*element).fits(budget as nat),
    decreases budget, 0nat,
{
    match shape_of(element) {
        Shape::Array(elements) => {
            if budget == 0 {
                return false;
            }
            let r = elements_fit(elements, budget - 1);
            proof {
                lemma_elements_fit(element_models(elements@), budget as nat);
            }
            r
        },
        Shape::Document(document) => {
            if budget == 0 {
                return false;
            }
            let r = entries_fit(document, budget - 1);
            proof {
                lemma_document_fits(entries_model(*document), budget as nat);
            }
            r
        },
        _ => true,
    }
}

/// Whether each element of a vector is nested at most `budget` deep.
fn elements_fit(elements: &Vec<bson::Bson>, budget: usize) -> (r: bool)
    ensures
        r == (forall|i: int|
            0 <= i < elements@.len() ==> (#[trigger] element_models(elements@)[i]).fits(
                budget as nat,
            )),
    decreases budget, 1nat,
{
    let mut i: usize = 0;
    while i < elements.len()
        invariant
            i <= elements.len(),
            forall|j: int|
                0 <= j < i ==> (#[trigger] element_models(elements@)[j]).fits(budget as nat),
        decreases elements.len() - i,
    {
        assert(element_models(elements@)[i as int] == element_model(elements@[i as int]));
        if !element_fits(&elements[i], budget) {
            return false;
        }
        i = i + 1;
    }
    true
}

/// Whether each element of a document is nested at most `budget` deep.
fn entries_fit(document: &bson::Document, budget: usize) -> (r: bool)
    ensures
        r == (forall|i: int|
            0 <= i < entries_model(*document).len() ==> (#[trigger] entries_model(
                *document,
            )[i]).1.fits(budget as nat)),
    decreases budget, 1nat,
{
    let entries = entries_of(document);
    let mut i: usize = 0;
    while i < entries.len()
        invariant
            i <= entries.len(),
            entries@.len() == entries_model(*document).len(),
            forall|j: int|
                0 <= j < entries@.len() ==> (#[trigger] entries@[j]).0@ == entries_model(
                    *document,
                )[j].0 && element_model(*entries@[j].1) == entries_model(*document)[j].1,
            forall|j: int|
                0 <= j < i ==> (#[trigger] entries_model(*document)[j]).1.fits(budget as nat),
        decreases entries.len() - i,
    {
        assert(element_model(*entries@[i as int].1) == entries_model(*document)[i as int].1);
        if !element_fits(entries[i].1, budget) {
            return false;
        }
        i = i + 1;
    }
    true
}

/// Reads an element of accepted depth; `None` where it is not readable.
fn lift(element: &bson::Bson, budget: usize) -> (r: Option<DocumentValue>)
    requires
        element_model(*element).fits(budget as nat),
    ensures
        match r {
            Some(member) => element_model(*element).readable() && member@ == read(
                element_model(*element),
            ),
            None => !element_model(*element).readable(),
        },
    decreases budget, 0nat,
{
    match shape_of(element) {
        Shape::Null => Some(DocumentValue::Null),
        Shape::Bool(b) => Some(DocumentValue::Bool(b)),
        Shape::Int32(i) => Some(DocumentValue::Int64(i as i64)),
        Shape::Int64(i) => Some(DocumentValue::Int64(i)),
        Shape::Double { bits, nan, positive, mantissa, exponent } => Some(
            DocumentValue::Double(Number::from_parts(nan, positive, mantissa, exponent)),
        ),
        Shape::String(s) => Some(DocumentValue::String(s.to_owned())),
        Shape::Array(elements) => {
            proof {
                lemma_elements_fit(element_models(elements@), budget as nat);
                lemma_elements_readable(element_models(elements@));
                lemma_read_members(element_models(elements@));
            }
            match lift_elements(elements, budget - 1) {
                Some(members) => {
                    proof {
                        lemma_member_models(members);
                    }
                    Some(DocumentValue::Array(members))
                },
                None => None,
            }
        },
        Shape::Document(document) => {
            proof {
                lemma_document_fits(entries_model(*document), budget as nat);
                lemma_document_readable(entries_model(*document));
                lemma_read_fields(entries_model(*document));
            }
            match lift_entries(document, budget - 1) {
                Some(fields) => {
                    proof {
                        lemma_field_models(fields);
                    }
                    Some(DocumentValue::Document(fields))
                },
                None => None,
            }
        },
        Shape::Other => None,
    }
}

/// Reads the elements of an array, in order.
fn lift_elements(elements: &Vec<bson::Bson>, budget: usize) -> (r: Option<Vec<DocumentValue>>)
    requires
        forall|i: int|
            0 <= i < elements@.len() ==> (#[trigger] element_models(elements@)[i]).fits(
                budget as nat,
            ),
    ensures
        match r {
            Some(members) => {
                &&& forall|i: int|
                    0 <= i < elements@.len() ==> (#[trigger] element_models(
                        elements@,
                    )[i]).readable()
                &&& member_models(members@) == read_members(element_models(elements@))
            },
            None => exists|i: int|
                0 <= i < elements@.len() && !(#[trigger] element_models(elements@)[i]).readable(),
        },
    decreases budget, 1nat,
{
    let mut members: Vec<DocumentValue> = Vec::new();
    let mut i: usize = 0;
    while i < elements.len()
        invariant
            i <= elements.len(),
            members@.len() == i,
            forall|j: int|
                0 <= j < elements@.len() ==> (#[trigger] element_models(elements@)[j]).fits(
                    budget as nat,
                ),
            forall|j: int| 0 <= j < i ==> (#[trigger] element_models(elements@)[j]).readable(),
            forall|j: int|
                0 <= j < i ==> (#[trigger] members@[j])@ == read(element_model(elements@[j])),
        decreases elements.len() - i,
    {
        assert(element_models(elements@)[i as int] == element_model(elements@[i as int]));
        match lift(&elements[i], budget) {
            Some(member) => {
                members.push(member);
            },
            None => {
                return None;
            },
        }
        i = i + 1;
    }
    assert(member_models(members@) =~= read_members(element_models(elements@)));
    Some(members)
}

/// Reads the entries of a document, in order.
fn lift_entries(document: &bson::Document, budget: usize) -> (r: Option<
    Vec<(String, DocumentValue)>,
>)
    requires
        forall|i: int|
            0 <= i < entries_model(*document).len() ==> (#[trigger] entries_model(
                *document,
            )[i]).1.fits(budget as nat),
    ensures
        match r {
            Some(fields) => {
                &&& forall|i: int|
                    0 <= i < entries_model(*document).len() ==> (#[trigger] entries_model(
                        *document,
                    )[i]).1.readable()
                &&& field_models(fields@) == read_fields(entries_model(*document))
            },
            None => exists|i: int|
                0 <= i < entries_model(*document).len() && !(#[trigger] entries_model(
                    *document,
                )[i]).1.readable(),
        },
    decreases budget, 1nat,
{
    let entries = entries_of(document);
    let ghost models = entries_model(*document);
    let mut fields: Vec<(String, DocumentValue)> = Vec::new();
    let mut i: usize = 0;
    while i < entries.len()
        invariant
            i <= entries.len(),
            fields@.len() == i,
            models == entries_model(*document),
            entries@.len() == models.len(),
            forall|j: int|
                0 <= j < entries@.len() ==> (#[trigger] entries@[j]).0@ == models[j].0
                    && element_model(*entries@[j].1) == models[j].1,
            forall|j: int| 0 <= j < models.len() ==> (#[trigger] models[j]).1.fits(budget as nat),
            forall|j: int| 0 <= j < i ==> (#[trigger] models[j]).1.readable(),
            forall|j: int|
                0 <= j < i ==> (#[trigger] fields@[j]).0@ == models[j].0 && fields@[j].1@ == read(
                    models[j].1,
                ),
        decreases entries.len() - i,
    {
        assert(element_model(*entries@[i as int].1) == models[i as int].1);
        match lift(entries[i].1, budget) {
            Some(member) => {
                fields.push((entries[i].0.to_owned(), member));
            },
            None => {
                return None;
            },
        }
        i = i + 1;
    }
    assert(field_models(fields@) =~= read_fields(models));
    Some(fields)
}

/// The entries written for the entries of a document, each for itself.
pub open spec fn written_fields(entries: Seq<(Seq<char>, DocumentModel)>) -> Seq<
    (Seq<char>, ElementModel),
> {
    entries.map_values(|entry: (Seq<char>, DocumentModel)| (entry.0, written(entry.1)))
}

/// Where no key comes twice, the entries written for a document are those
/// written for each of its entries, in the same order.
pub proof fn lemma_written_distinct(entries: Seq<(Seq<char>, DocumentModel)>)
    requires
        distinct_keys(entries),
    ensures
        written_entries(entries) == written_fields(entries),
    decreases entries.len(),
{
    if entries.len() == 0 {
        assert(written_entries(entries) =~= written_fields(entries));
    } else {
        let before = entries.drop_last();
        assert(distinct_keys(before)) by {
            assert forall|i: int, j: int| 0 <= i < j < before.len() implies (#[trigger] before[i]).0
                != (#[trigger] before[j]).0 by {
                assert(before[i] == entries[i]);
                assert(before[j] == entries[j]);
            }
        }
        lemma_written_distinct(before);
        lemma_position(written_fields(before), entries.last().0);
        if position(written_fields(before), entries.last().0) is Some {
            let at = position(written_fields(before), entries.last().0)->0;
            assert(written_fields(before)[at].0 == entries[at].0);
            assert(entries[at].0 != entries[entries.len() - 1].0);
        }
        assert(written_fields(before).push((entries.last().0, written(entries.last().1)))
            =~= written_fields(entries));
    }
}

/// What is written for a document tree without a `Double` and without a key
/// twice is read as that tree again.
pub proof fn lemma_read_written(d: DocumentModel)
    requires
        d.plain(),
    ensures
        read(written(d)) == d,
    decreases d,
{
    match d {
        DocumentModel::Array(items) => {
            lemma_written_members(items);
            lemma_read_members(written_members(items));
            assert forall|i: int| 0 <= i < items.len() implies read_members(
                written_members(items),
            )[i] == items[i] by {
                assert(d->Array_0[i] == items[i]);
                lemma_read_written(items[i]);
            }
            assert(read_members(written_members(items)) =~= items);
        },
        DocumentModel::Document(entries) => {
            lemma_written_distinct(entries);
            lemma_read_fields(written_fields(entries));
            assert forall|i: int| 0 <= i < entries.len() implies read_fields(
                written_fields(entries),
            )[i] == entries[i] by {
                assert(d->Document_0[i] == entries[i]);
                lemma_read_written(entries[i].1);
            }
            assert(read_fields(written_fields(entries)) =~= entries);
        },
        _ => {},
    }
}

/// The entries written for a document are as deep as its own.
pub proof fn lemma_written_entries_fit(entries: Seq<(Seq<char>, DocumentModel)>, budget: nat)
    requires
        forall|i: int| 0 <= i < entries.len() ==> (#[trigger] entries[i]).1.fits(budget),
    ensures
        forall|i: int|
            0 <= i < written_entries(entries).len() ==> (#[trigger] written_entries(
                entries,
            )[i]).1.fits(budget),
    decreases entries,
{
    if entries.len() > 0 {
        let before = entries.drop_last();
        assert forall|i: int| 0 <= i < before.len() implies (#[trigger] before[i]).1.fits(
            budget,
        ) by {
            assert(before[i] == entries[i]);
        }
        lemma_written_entries_fit(before, budget);
        assert(entries[entries.len() - 1].1.fits(budget));
        lemma_written_fits(entries.last().1, budget);
        lemma_position(written_entries(before), entries.last().0);
    }
}

/// What is written for a document tree is as deep as the tree.
pub proof fn lemma_written_fits(d: DocumentModel, budget: nat)
    requires
        d.fits(budget),
    ensures
        written(d).fits(budget),
    decreases d,
{
    match d {
        DocumentModel::Array(items) => {
            lemma_written_members(items);
            lemma_members_fit(items, budget);
            assert forall|i: int| 0 <= i < written_members(items).len() implies (
            #[trigger] written_members(items)[i]).fits((budget - 1) as nat) by {
                lemma_written_fits(items[i], (budget - 1) as nat);
            }
            lemma_elements_fit(written_members(items), budget);
        },
        DocumentModel::Document(entries) => {
            lemma_fields_fit(entries, budget);
            lemma_written_entries_fit(entries, (budget - 1) as nat);
            lemma_document_fits(written_entries(entries), budget);
        },
        _ => {},
    }
}

/// What is read is as deep as the element it is read from.
pub proof fn lemma_read_fits(e: ElementModel, budget: nat)
    requires
        e.fits(budget),
    ensures
        read(e).fits(budget),
    decreases e,
{
    match e {
        ElementModel::Array(items) => {
            lemma_read_members(items);
            lemma_elements_fit(items, budget);
            assert forall|i: int| 0 <= i < read_members(items).len() implies (
            #[trigger] read_members(items)[i]).fits((budget - 1) as nat) by {
                lemma_read_fits(items[i], (budget - 1) as nat);
            }
            lemma_members_fit(read_members(items), budget);
        },
        ElementModel::Document(entries) => {
            lemma_read_fields(entries);
            lemma_document_fits(entries, budget);
            assert forall|i: int| 0 <= i < read_fields(entries).len() implies (
            #[trigger] read_fields(entries)[i]).1.fits((budget - 1) as nat) by {
                lemma_read_fits(entries[i].1, (budget - 1) as nat);
            }
            lemma_fields_fit(read_fields(entries), budget);
        },
        _ => {},
    }
}

/// What no insertion makes unreadable: entries written for a document.
pub proof fn lemma_written_entries_readable(entries: Seq<(Seq<char>, DocumentModel)>)
    ensures
        forall|i: int|
            0 <= i < written_entries(entries).len() ==> (#[trigger] written_entries(
                entries,
            )[i]).1.readable(),
    decreases entries,
{
    if entries.len() > 0 {
        lemma_written_entries_readable(entries.drop_last());
        lemma_written_readable(entries.last().1);
        lemma_position(written_entries(entries.drop_last()), entries.last().0);
    }
}

/// An element written for a document tree is readable.
pub proof fn lemma_written_readable(d: DocumentModel)
    ensures
        written(d).readable(),
    decreases d,
{
    match d {
        DocumentModel::Array(items) => {
            lemma_written_members(items);
            assert forall|i: int| 0 <= i < written_members(items).len() implies (
            #[trigger] written_members(items)[i]).readable() by {
                lemma_written_readable(items[i]);
            }
            lemma_elements_readable(written_members(items));
        },
        DocumentModel::Document(entries) => {
            lemma_written_entries_readable(entries);
            lemma_document_readable(written_entries(entries));
        },
        _ => {},
    }
}

/// What writing a document gives: its bytes, unless the document is too
/// deep, or the text of a `Double` of it is not read as a double, or the
/// format has no bytes for it.
pub open spec fn document_wire(entries: Seq<(Seq<char>, DocumentModel)>) -> Result<
    Seq<u8>,
    ConversionError,
> {
    if !DocumentModel::Document(entries).fits(MAX_DEPTH as nat) {
        Err(ConversionError::TooDeep)
    } else if !doubles_read(DocumentModel::Document(entries)) {
        Err(ConversionError::InvalidNumber)
    } else {
        match wire_bytes(written_entries(entries)) {
            Some(bytes) => Ok(bytes),
            None => Err(ConversionError::Unwritable),
        }
    }
}

/// What reading the entries of a document gives: the document, unless it is
/// too deep or, being of accepted depth, holds an element that is not
/// readable.
pub open spec fn entries_read(entries: Seq<(Seq<char>, ElementModel)>) -> Result<
    Seq<(Seq<char>, DocumentModel)>,
    CodecError,
> {
    if !ElementModel::Document(entries).fits(MAX_DEPTH as nat) {
        Err(CodecError::TooDeep)
    } else if !ElementModel::Document(entries).readable() {
        Err(CodecError::Unsupported)
    } else {
        Ok(read_fields(entries))
    }
}

/// What reading bytes gives: `TooDeep` where the bytes nest deeper than
/// `MAX_DEPTH`, else `MalformedDocument` where they are no document, else
/// what reading the document's entries gives.
pub open spec fn wire_document(bytes: Seq<u8>) -> Result<
    Seq<(Seq<char>, DocumentModel)>,
    CodecError,
> {
    if !nesting_bounded(bytes) {
        Err(CodecError::TooDeep)
    } else {
        match wire_entries(bytes) {
            None => Err(CodecError::MalformedDocument),
            Some(entries) => entries_read(entries),
        }
    }
}

/// What holds of writing any document, whatever double is written for a
/// `Double` that is no number: success and `Unwritable` come only for a
/// document of accepted depth whose doubles are read, `TooDeep` exactly for
/// a document that is too deep, and `InvalidNumber` exactly for one of
/// accepted depth with a `Double` whose text is not read.
pub open spec fn write_outcome(
    entries: Seq<(Seq<char>, DocumentModel)>,
    failure: Option<ConversionError>,
) -> bool {
    let fits = DocumentModel::Document(entries).fits(MAX_DEPTH as nat);
    let read = doubles_read(DocumentModel::Document(entries));
    match failure {
        None => fits && read,
        Some(e) => {
            ||| e == ConversionError::TooDeep && !fits
            ||| e == ConversionError::InvalidNumber && fits && !read
            ||| e == ConversionError::Unwritable && fits && read
        },
    }
}

/// Writes a document as bytes. Where the document holds a `Double` that is
/// no number, which double is written for it is not stated, and so neither
/// are the bytes; the errors are stated for every document.
pub fn write_document(document: &BinaryDocument) -> (r: Result<Vec<u8>, ConversionError>)
    ensures
        write_outcome(
            document@,
            match r {
                Ok(bytes) => None,
                Err(e) => Some(e),
            },
        ),
        DocumentModel::Document(document@).without_nan() ==> match r {
            Ok(bytes) => document_wire(document@) == Ok::<Seq<u8>, ConversionError>(bytes@),
            Err(e) => document_wire(document@) == Err::<Seq<u8>, ConversionError>(e),
        },
{
    if !document.fits_depth(MAX_DEPTH) {
        return Err(ConversionError::TooDeep);
    }
    proof {
        lemma_fields_fit(document@, MAX_DEPTH as nat);
        lemma_fields_read(document@);
        lemma_fields_without_nan(document@);
        lemma_written_readable(DocumentModel::Document(document@));
    }
    match lower_fields(&document.entries, MAX_DEPTH - 1) {
        None => Err(ConversionError::InvalidNumber),
        Some(lowered) => {
            proof {
                lemma_document_fits(entries_model(lowered), MAX_DEPTH as nat);
            }
            match document_bytes(&lowered) {
                Ok(bytes) => Ok(bytes),
                Err(_) => Err(ConversionError::Unwritable),
            }
        },
    }
}

/// Whether two elements hold the same, the first being readable and of
/// accepted depth.
fn same_element(a: &bson::Bson, b: &bson::Bson, budget: usize) -> (r: bool)
    requires
        element_model(*a).fits(budget as nat),
        element_model(*a).readable(),
    ensures
        r == (element_model(*a) == element_model(*b)),
    decreases budget, 0nat,
{
    match shape_of(a) {
        Shape::Null => match shape_of(b) {
            Shape::Null => true,
            _ => false,
        },
        Shape::Bool(x) => match shape_of(b) {
            Shape::Bool(y) => x == y,
            _ => false,
        },
        Shape::Int32(x) => match shape_of(b) {
            Shape::Int32(y) => x == y,
            _ => false,
        },
        Shape::Int64(x) => match shape_of(b) {
            Shape::Int64(y) => x == y,
            _ => false,
        },
        Shape::Double { bits, nan, positive, mantissa, exponent } => match shape_of(b) {
            Shape::Double { bits: other, nan: n, positive: p, mantissa: m, exponent: e } => bits
                == other,
            _ => false,
        },
        Shape::String(x) => match shape_of(b) {
            Shape::String(y) => x.to_owned() == y.to_owned(),
            _ => false,
        },
        Shape::Array(x) => match shape_of(b) {
            Shape::Array(y) => {
                proof {
                    lemma_elements_fit(element_models(x@), budget as nat);
                    lemma_elements_readable(element_models(x@));
                }
                same_elements(x, y, budget - 1)
            },
            _ => false,
        },
        Shape::Document(x) => match shape_of(b) {
            Shape::Document(y) => {
                proof {
                    lemma_document_fits(entries_model(*x), budget as nat);
                    lemma_document_readable(entries_model(*x));
                }
                same_entries(x, y, budget - 1)
            },
            _ => false,
        },
        Shape::Other => false,
    }
}

/// Whether two vectors of elements hold the same.
fn same_elements(a: &Vec<bson::Bson>, b: &Vec<bson::Bson>, budget: usize) -> (r: bool)
    requires
        forall|i: int|
            0 <= i < a@.len() ==> (#[trigger] element_models(a@)[i]).fits(budget as nat)
                && element_models(a@)[i].readable(),
    ensures
        r == (element_models(a@) == element_models(b@)),
    decreases budget, 1nat,
{
    if a.len() != b.len() {
        assert(element_models(a@).len() != element_models(b@).len());
        return false;
    }
    let mut i: usize = 0;
    while i < a.len()
        invariant
            i <= a.len(),
            a.len() == b.len(),
            forall|j: int|
                0 <= j < a@.len() ==> (#[trigger] element_models(a@)[j]).fits(budget as nat)
                    && element_models(a@)[j].readable(),
            forall|j: int|
                0 <= j < i ==> (#[trigger] element_models(a@)[j]) == element_models(b@)[j],
        decreases a.len() - i,
    {
        assert(element_models(a@)[i as int] == element_model(a@[i as int]));
        assert(element_models(b@)[i as int] == element_model(b@[i as int]));
        if !same_element(&a[i], &b[i], budget) {
            return false;
        }
        i = i + 1;
    }
    assert(element_models(a@) =~= element_models(b@));
    true
}

/// Whether two documents hold the same entries in the same order.
fn same_entries(a: &bson::Document, b: &bson::Document, budget: usize) -> (r: bool)
    requires
        forall|i: int|
            0 <= i < entries_model(*a).len() ==> (#[trigger] entries_model(*a)[i]).1.fits(
                budget as nat,
            ) && entries_model(*a)[i].1.readable(),
    ensures
        r == (entries_model(*a) == entries_model(*b)),
    decreases budget, 1nat,
{
    let left = entries_of(a);
    let right = entries_of(b);
    let ghost first = entries_model(*a);
    let ghost second = entries_model(*b);
    if left.len() != right.len() {
        return false;
    }
    let mut i: usize = 0;
    while i < left.len()
        invariant
            i <= left.len(),
            left.len() == right.len(),
            first == entries_model(*a),
            second == entries_model(*b),
            left@.len() == first.len(),
            right@.len() == second.len(),
            forall|j: int|
                0 <= j < left@.len() ==> (#[trigger] left@[j]).0@ == first[j].0 && element_model(
                    *left@[j].1,
                ) == first[j].1,
            forall|j: int|
                0 <= j < right@.len() ==> (#[trigger] right@[j]).0@ == second[j].0
                    && element_model(*right@[j].1) == second[j].1,
            forall|j: int|
                0 <= j < first.len() ==> (#[trigger] first[j]).1.fits(budget as nat)
                    && first[j].1.readable(),
            forall|j: int| 0 <= j < i ==> (#[trigger] first[j]) == second[j],
        decreases left.len() - i,
    {
        assert(left@[i as int].0@ == first[i as int].0);
        assert(right@[i as int].0@ == second[i as int].0);
        assert(first[i as int].1.fits(budget as nat));
        if !(left[i].0.to_owned() == right[i].0.to_owned()) {
            return false;
        }
        if !same_element(left[i].1, right[i].1, budget) {
            return false;
        }
        i = i + 1;
    }
    assert(first =~= second);
    true
}

/// Whether writing a document and reading its bytes gives the entries that
/// were written. For a document without a `Double` that is no number this
/// is the whole of it: the document is of accepted depth, its doubles are
/// read, the format has bytes for it, the bytes nest no deeper than
/// `MAX_DEPTH`, and they are read as the entries written.
pub open spec fn read_back(entries: Seq<(Seq<char>, DocumentModel)>) -> bool {
    &&& DocumentModel::Document(entries).fits(MAX_DEPTH as nat)
    &&& doubles_read(DocumentModel::Document(entries))
    &&& wire_bytes(written_entries(entries)) is Some
    &&& nesting_bounded(wire_bytes(written_entries(entries))->0)
    &&& wire_entries(wire_bytes(written_entries(entries))->0) == Some(written_entries(entries))
}

/// Writes a document, reads the bytes, and tells whether what is read is
/// what was written.
pub fn reads_back(document: &BinaryDocument) -> (r: bool)
    ensures
        DocumentModel::Document(document@).without_nan() ==> r == read_back(document@),
{
    if !document.fits_depth(MAX_DEPTH) {
        return false;
    }
    proof {
        lemma_fields_fit(document@, MAX_DEPTH as nat);
        lemma_fields_read(document@);
        lemma_fields_without_nan(document@);
    }
    match lower_fields(&document.entries, MAX_DEPTH - 1) {
        None => false,
        Some(lowered) => {
            proof {
                lemma_document_fits(entries_model(lowered), MAX_DEPTH as nat);
                lemma_document_readable(entries_model(lowered));
            }
            match document_bytes(&lowered) {
                Err(_) => false,
                Ok(bytes) => {
                    if !nesting_within_limit(&bytes) {
                        return false;
                    }
                    match read_bytes(bytes.as_slice()) {
                        Err(_) => false,
                        Ok(parsed) => same_entries(&lowered, &parsed, MAX_DEPTH - 1),
                    }
                },
            }
        },
    }
}

/// Reads a document of the `bson` crate into a document of this library.
pub fn document_from(parsed: &bson::Document) -> (r: Result<BinaryDocument, CodecError>)
    ensures
        match r {
            Ok(document) => entries_read(entries_model(*parsed)) == Ok::<
                Seq<(Seq<char>, DocumentModel)>,
                CodecError,
            >(document@),
            Err(e) => entries_read(entries_model(*parsed)) == Err::<
                Seq<(Seq<char>, DocumentModel)>,
                CodecError,
            >(e),
        },
{
    if MAX_DEPTH == 0 || !entries_fit(parsed, MAX_DEPTH - 1) {
        proof {
            lemma_document_fits(entries_model(*parsed), MAX_DEPTH as nat);
        }
        return Err(CodecError::TooDeep);
    }
    proof {
        lemma_document_fits(entries_model(*parsed), MAX_DEPTH as nat);
        lemma_document_readable(entries_model(*parsed));
    }
    match lift_entries(parsed, MAX_DEPTH - 1) {
        Some(fields) => Ok(BinaryDocument { entries: fields }),
        None => Err(CodecError::Unsupported),
    }
}

/// Reads bytes as a document. The nesting is tested on the bytes before
/// they are handed to the `bson` crate.
pub fn read_document(bytes: &Vec<u8>) -> (r: Result<BinaryDocument, CodecError>)
    ensures
        match r {
            Ok(document) => wire_document(bytes@) == Ok::<
                Seq<(Seq<char>, DocumentModel)>,
                CodecError,
            >(document@),
            Err(e) => wire_document(bytes@) == Err::<Seq<(Seq<char>, DocumentModel)>, CodecError>(
                e,
            ),
        },
{
    if !nesting_within_limit(bytes) {
        return Err(CodecError::TooDeep);
    }
    match read_bytes(bytes.as_slice()) {
        Ok(parsed) => document_from(&parsed),
        Err(_) => Err(CodecError::MalformedDocument),
    }
}

} // verus!
