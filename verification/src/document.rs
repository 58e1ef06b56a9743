//! The binary document tree: what a value tree becomes on its way to bytes.
//!
//! It differs from the value tree in its numbers: an integer is an `Int64`,
//! and only a number with a fractional part stays a decimal, as a `Double`.

use crate::entries::distinct_keys;
use crate::number::Number;
use vstd::prelude::*;

verus! {

/// The mathematical form of a document tree. A document is the sequence of
/// its entries in insertion order.
pub enum DocumentModel {
    Null,
    Bool(bool),
    Int64(i64),
    Double(Number),
    String(Seq<char>),
    Array(Seq<DocumentModel>),
    Document(Seq<(Seq<char>, DocumentModel)>),
}

impl DocumentModel {
    /// Whether the tree holds no `Double`, and no document of it a key
    /// twice.
    pub open spec fn plain(self) -> bool
        decreases self,
    {
        match self {
            DocumentModel::Double(_) => false,
            DocumentModel::Array(items) => forall|i: int|
                0 <= i < items.len() ==> (#[trigger] items[i]).plain(),
            DocumentModel::Document(entries) => distinct_keys(entries) && forall|i: int|
                0 <= i < entries.len() ==> (#[trigger] entries[i]).1.plain(),
            _ => true,
        }
    }

    /// Whether the tree holds no `Double` that is no number.
    pub open spec fn without_nan(self) -> bool
        decreases self,
    {
        match self {
            DocumentModel::Double(n) => n.finite(),
            DocumentModel::Array(items) => forall|i: int|
                0 <= i < items.len() ==> (#[trigger] items[i]).without_nan(),
            DocumentModel::Document(entries) => forall|i: int|
                0 <= i < entries.len() ==> (#[trigger] entries[i]).1.without_nan(),
            _ => true,
        }
    }

    /// Whether arrays and documents are nested at most `budget` deep.
    pub open spec fn fits(self, budget: nat) -> bool
        decreases self,
    {
        match self {
            DocumentModel::Array(items) => budget > 0 && forall|i: int|
                0 <= i < items.len() ==> (#[trigger] items[i]).fits((budget - 1) as nat),
            DocumentModel::Document(entries) => budget > 0 && forall|i: int|
                0 <= i < entries.len() ==> (#[trigger] entries[i]).1.fits((budget - 1) as nat),
            _ => true,
        }
    }
}

/// A member of a document.
#[derive(Debug, PartialEq)]
pub enum DocumentValue {
    Null,
    Bool(bool),
    Int64(i64),
    /// A number with a fractional part, in decimal form. It becomes a binary
    /// floating-point number only when the document is written as bytes.
    Double(Number),
    String(String),
    Array(Vec<DocumentValue>),
    Document(Vec<(String, DocumentValue)>),
}

/// A document: the top of a document tree.
#[derive(Debug, PartialEq)]
pub struct BinaryDocument {
    pub entries: Vec<(String, DocumentValue)>,
}

impl View for DocumentValue {
    type V = DocumentModel;

    open spec fn view(&self) -> DocumentModel
        decreases self,
    {
        match self {
            DocumentValue::Null => DocumentModel::Null,
            DocumentValue::Bool(b) => DocumentModel::Bool(*b),
            DocumentValue::Int64(i) => DocumentModel::Int64(*i),
            DocumentValue::Double(n) => DocumentModel::Double(*n),
            DocumentValue::String(s) => DocumentModel::String(s@),
            DocumentValue::Array(items) => DocumentModel::Array(
                Seq::new(
                    items@.len(),
                    |i: int|
                        if 0 <= i < items@.len() {
                            items@[i]@
                        } else {
                            DocumentModel::Null
                        },
                ),
            ),
            DocumentValue::Document(entries) => DocumentModel::Document(
                Seq::new(
                    entries@.len(),
                    |i: int|
                        if 0 <= i < entries@.len() {
                            (entries@[i].0@, entries@[i].1@)
                        } else {
                            (Seq::empty(), DocumentModel::Null)
                        },
                ),
            ),
        }
    }
}

/// The models of the members of an array.
pub open spec fn member_models(items: Seq<DocumentValue>) -> Seq<DocumentModel> {
    items.map_values(|item: DocumentValue| item@)
}

/// The models of the entries of a document.
pub open spec fn field_models(entries: Seq<(String, DocumentValue)>) -> Seq<
    (Seq<char>, DocumentModel),
> {
    entries.map_values(|entry: (String, DocumentValue)| (entry.0@, entry.1@))
}

impl View for BinaryDocument {
    type V = Seq<(Seq<char>, DocumentModel)>;

    open spec fn view(&self) -> Seq<(Seq<char>, DocumentModel)> {
        field_models(self.entries@)
    }
}

/// The model of an array is the array of its members' models.
pub proof fn lemma_member_models(items: Vec<DocumentValue>)
    ensures
        DocumentValue::Array(items)@ == DocumentModel::Array(member_models(items@)),
{
    reveal_with_fuel(<DocumentValue as View>::view, 2);
    assert(DocumentValue::Array(items)@->Array_0 =~= member_models(items@));
}

/// The model of a nested document is the sequence of its entries' models.
pub proof fn lemma_field_models(entries: Vec<(String, DocumentValue)>)
    ensures
        DocumentValue::Document(entries)@ == DocumentModel::Document(field_models(entries@)),
{
    reveal_with_fuel(<DocumentValue as View>::view, 2);
    assert(DocumentValue::Document(entries)@->Document_0 =~= field_models(entries@));
}

/// A document fits a budget where each of its values fits one less.
pub proof fn lemma_fields_fit(models: Seq<(Seq<char>, DocumentModel)>, budget: nat)
    requires
        budget > 0,
    ensures
        DocumentModel::Document(models).fits(budget) == (forall|i: int|
            0 <= i < models.len() ==> (#[trigger] models[i]).1.fits((budget - 1) as nat)),
{
    if DocumentModel::Document(models).fits(budget) {
        assert forall|i: int| 0 <= i < models.len() implies (#[trigger] models[i]).1.fits(
            (budget - 1) as nat,
        ) by {
            assert(DocumentModel::Document(models)->Document_0[i] == models[i]);
        }
    }
}

/// An array fits a budget where each of its members fits one less.
pub proof fn lemma_members_fit(models: Seq<DocumentModel>, budget: nat)
    requires
        budget > 0,
    ensures
        DocumentModel::Array(models).fits(budget) == (forall|i: int|
            0 <= i < models.len() ==> (#[trigger] models[i]).fits((budget - 1) as nat)),
{
    if DocumentModel::Array(models).fits(budget) {
        assert forall|i: int| 0 <= i < models.len() implies (#[trigger] models[i]).fits(
            (budget - 1) as nat,
        ) by {
            assert(DocumentModel::Array(models)->Array_0[i] == models[i]);
        }
    }
}

/// Whether the members of `items` are nested at most `budget` deep.
fn members_fit(items: &Vec<DocumentValue>, budget: usize) -> (r: bool)
    ensures
        r == (forall|i: int|
            0 <= i < items@.len() ==> (#[trigger] member_models(items@)[i]).fits(budget as nat)),
    decreases budget, 1nat,
{
    let mut i: usize = 0;
    while i < items.len()
        invariant
            i <= items.len(),
            forall|j: int| 0 <= j < i ==> (#[trigger] member_models(items@)[j]).fits(budget as nat),
        decreases items.len() - i,
    {
        if !items[i].fits_depth(budget) {
            assert(member_models(items@)[i as int] == items@[i as int]@);
            return false;
        }
        assert(member_models(items@)[i as int] == items@[i as int]@);
        i = i + 1;
    }
    true
}

/// Whether the values of `entries` are nested at most `budget` deep.
fn fields_fit(entries: &Vec<(String, DocumentValue)>, budget: usize) -> (r: bool)
    ensures
        r == (forall|i: int|
            0 <= i < entries@.len() ==> (#[trigger] field_models(entries@)[i]).1.fits(
                budget as nat,
            )),
    decreases budget, 1nat,
{
    let mut i: usize = 0;
    while i < entries.len()
        invariant
            i <= entries.len(),
            forall|j: int|
                0 <= j < i ==> (#[trigger] field_models(entries@)[j]).1.fits(budget as nat),
        decreases entries.len() - i,
    {
        if !entries[i].1.fits_depth(budget) {
            assert(field_models(entries@)[i as int].1 == entries@[i as int].1@);
            return false;
        }
        assert(field_models(entries@)[i as int].1 == entries@[i as int].1@);
        i = i + 1;
    }
    true
}

impl DocumentValue {
    /// Whether arrays and documents are nested at most `budget` deep.
    pub fn fits_depth(&self, budget: usize) -> (r: bool)
        ensures
            r == self@.fits(budget as nat),
        decreases budget, 0nat,
    {
        match self {
            DocumentValue::Array(items) => {
                proof {
                    lemma_member_models(*items);
                }
                if budget == 0 {
                    return false;
                }
                let r = members_fit(items, budget - 1);
                proof {
                    lemma_members_fit(member_models(items@), budget as nat);
                }
                r
            },
            DocumentValue::Document(entries) => {
                proof {
                    lemma_field_models(*entries);
                }
                if budget == 0 {
                    return false;
                }
                let r = fields_fit(entries, budget - 1);
                proof {
                    lemma_fields_fit(field_models(entries@), budget as nat);
                }
                r
            },
            _ => true,
        }
    }
}

impl BinaryDocument {
    /// Whether the document is nested at most `budget` deep, itself counted.
    pub open spec fn fits(self, budget: nat) -> bool {
        DocumentModel::Document(self@).fits(budget)
    }

    /// Whether the document is nested at most `budget` deep, itself counted.
    pub fn fits_depth(&self, budget: usize) -> (r: bool)
        ensures
            r == self.fits(budget as nat),
    {
        if budget == 0 {
            return false;
        }
        let r = fields_fit(&self.entries, budget - 1);
        proof {
            lemma_fields_fit(self@, budget as nat);
        }
        r
    }
}

} // verus!
