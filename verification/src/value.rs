//! The value tree: null, booleans, numbers, strings, arrays and objects.
//!
//! `Value` is the tree that programs hold. `ValueModel` is the same tree as
//! mathematics sees it, with sequences in place of vectors and strings; every
//! contract of the crate is stated over it.

use crate::entries::distinct_keys;
use crate::number::Number;
use vstd::prelude::*;

verus! {

/// The deepest nesting of arrays and objects that conversions accept.
pub const MAX_DEPTH: usize = 128;

/// The mathematical form of a value tree.
///
/// An object is the sequence of its entries in insertion order. A lookup by
/// key takes the first entry that has the key.
pub enum ValueModel {
    Null,
    Bool(bool),
    Number(Number),
    String(Seq<char>),
    Array(Seq<ValueModel>),
    Object(Seq<(Seq<char>, ValueModel)>),
}

impl ValueModel {
    /// Whether arrays and objects are nested at most `budget` deep.
    /// A tree without arrays and objects fits in a budget of zero.
    pub open spec fn fits(self, budget: nat) -> bool
        decreases self,
    {
        match self {
            ValueModel::Array(items) => budget > 0 && forall|i: int|
                0 <= i < items.len() ==> (#[trigger] items[i]).fits((budget - 1) as nat),
            ValueModel::Object(entries) => budget > 0 && forall|i: int|
                0 <= i < entries.len() ==> (#[trigger] entries[i]).1.fits((budget - 1) as nat),
            _ => true,
        }
    }
}

impl ValueModel {
    /// Equality of trees in which numbers count by their value: `4e3` and
    /// `4000` are the same member.
    pub open spec fn same_as(self, other: ValueModel) -> bool
        decreases self,
    {
        match self {
            ValueModel::Null => other is Null,
            ValueModel::Bool(b) => other == ValueModel::Bool(b),
            ValueModel::Number(n) => other is Number && n.same_value(other->Number_0),
            ValueModel::String(s) => other == ValueModel::String(s),
            ValueModel::Array(items) => {
                &&& other is Array
                &&& items.len() == other->Array_0.len()
                &&& forall|i: int|
                    0 <= i < items.len() ==> (#[trigger] items[i]).same_as(other->Array_0[i])
            },
            ValueModel::Object(entries) => {
                &&& other is Object
                &&& entries.len() == other->Object_0.len()
                &&& forall|i: int|
                    0 <= i < entries.len() ==> (#[trigger] entries[i]).0 == other->Object_0[i].0
                        && entries[i].1.same_as(other->Object_0[i].1)
            },
        }
    }

    /// Whether no object of the tree has a key twice.
    pub open spec fn unique_keys(self) -> bool
        decreases self,
    {
        match self {
            ValueModel::Array(items) => forall|i: int|
                0 <= i < items.len() ==> (#[trigger] items[i]).unique_keys(),
            ValueModel::Object(entries) => distinct_keys(entries) && forall|i: int|
                0 <= i < entries.len() ==> (#[trigger] entries[i]).1.unique_keys(),
            _ => true,
        }
    }
}

/// A value tree.
///
/// An object keeps its entries in insertion order. A tree that was read
/// from text has no key twice in an object. In a tree built by hand that
/// has one, a path finds the first entry under the key, and a later entry
/// replaces the value of an earlier one when the tree is written.
#[derive(Debug, PartialEq)]
pub enum Value {
    Null,
    Bool(bool),
    Number(Number),
    String(String),
    Array(Vec<Value>),
    Object(Vec<(String, Value)>),
}

impl View for Value {
    type V = ValueModel;

    open spec fn view(&self) -> ValueModel
        decreases self,
    {
        match self {
            Value::Null => ValueModel::Null,
            Value::Bool(b) => ValueModel::Bool(*b),
            Value::Number(n) => ValueModel::Number(*n),
            Value::String(s) => ValueModel::String(s@),
            Value::Array(items) => ValueModel::Array(
                Seq::new(
                    items@.len(),
                    |i: int|
                        if 0 <= i < items@.len() {
                            items@[i]@
                        } else {
                            ValueModel::Null
                        },
                ),
            ),
            Value::Object(entries) => ValueModel::Object(
                Seq::new(
                    entries@.len(),
                    |i: int|
                        if 0 <= i < entries@.len() {
                            (entries@[i].0@, entries@[i].1@)
                        } else {
                            (Seq::empty(), ValueModel::Null)
                        },
                ),
            ),
        }
    }
}

/// The models of the members of an array.
pub open spec fn item_models(items: Seq<Value>) -> Seq<ValueModel> {
    items.map_values(|item: Value| item@)
}

/// The models of the entries of an object.
pub open spec fn entry_models(entries: Seq<(String, Value)>) -> Seq<(Seq<char>, ValueModel)> {
    entries.map_values(|entry: (String, Value)| (entry.0@, entry.1@))
}

/// The model of an array is the array of its members' models.
pub proof fn lemma_array_model(items: Vec<Value>)
    ensures
        Value::Array(items)@ == ValueModel::Array(item_models(items@)),
{
    reveal_with_fuel(<Value as View>::view, 2);
    assert(Value::Array(items)@->Array_0 =~= item_models(items@));
}

/// The model of an object is the sequence of its entries' models.
pub proof fn lemma_object_model(entries: Vec<(String, Value)>)
    ensures
        Value::Object(entries)@ == ValueModel::Object(entry_models(entries@)),
{
    reveal_with_fuel(<Value as View>::view, 2);
    assert(Value::Object(entries)@->Object_0 =~= entry_models(entries@));
}

/// An array fits a budget where each of its members fits one less.
pub proof fn lemma_items_fit(models: Seq<ValueModel>, budget: nat)
    requires
        budget > 0,
    ensures
        ValueModel::Array(models).fits(budget) == (forall|i: int|
            0 <= i < models.len() ==> (#[trigger] models[i]).fits((budget - 1) as nat)),
{
    if ValueModel::Array(models).fits(budget) {
        assert forall|i: int| 0 <= i < models.len() implies (#[trigger] models[i]).fits(
            (budget - 1) as nat,
        ) by {
            assert(ValueModel::Array(models)->Array_0[i] == models[i]);
        }
    }
}

/// An object fits a budget where each of its values fits one less.
pub proof fn lemma_entries_fit(models: Seq<(Seq<char>, ValueModel)>, budget: nat)
    requires
        budget > 0,
    ensures
        ValueModel::Object(models).fits(budget) == (forall|i: int|
            0 <= i < models.len() ==> (#[trigger] models[i]).1.fits((budget - 1) as nat)),
{
    if ValueModel::Object(models).fits(budget) {
        assert forall|i: int| 0 <= i < models.len() implies (#[trigger] models[i]).1.fits(
            (budget - 1) as nat,
        ) by {
            assert(ValueModel::Object(models)->Object_0[i] == models[i]);
        }
    }
}

impl Clone for Value {
    fn clone(&self) -> (r: Self)
        ensures
            r@ == self@,
    {
        self.duplicate()
    }
}

impl Value {
    /// Whether arrays and objects are nested at most `budget` deep.
    pub fn fits_depth(&self, budget: usize) -> (r: bool)
        ensures
            r == self@.fits(budget as nat),
        decreases budget,
    {
        match self {
            Value::Array(items) => {
                proof {
                    lemma_array_model(*items);
                }
                if budget == 0 {
                    return false;
                }
                let mut i: usize = 0;
                while i < items.len()
                    invariant
                        i <= items.len(),
                        budget > 0,
                        self@ == ValueModel::Array(item_models(items@)),
                        forall|j: int|
                            0 <= j < i ==> (#[trigger] items@[j])@.fits((budget - 1) as nat),
                    decreases items.len() - i,
                {
                    if !items[i].fits_depth(budget - 1) {
                        assert(self@->Array_0[i as int] == items@[i as int]@);
                        return false;
                    }
                    i = i + 1;
                }
                assert forall|j: int| 0 <= j < item_models(items@).len() implies (
                #[trigger] item_models(items@)[j]).fits((budget - 1) as nat) by {
                    assert(items@[j]@.fits((budget - 1) as nat));
                }
                true
            },
            Value::Object(entries) => {
                proof {
                    lemma_object_model(*entries);
                }
                if budget == 0 {
                    return false;
                }
                let mut i: usize = 0;
                while i < entries.len()
                    invariant
                        i <= entries.len(),
                        budget > 0,
                        self@ == ValueModel::Object(entry_models(entries@)),
                        forall|j: int|
                            0 <= j < i ==> (#[trigger] entries@[j]).1@.fits((budget - 1) as nat),
                    decreases entries.len() - i,
                {
                    if !entries[i].1.fits_depth(budget - 1) {
                        assert(self@->Object_0[i as int].1 == entries@[i as int].1@);
                        return false;
                    }
                    i = i + 1;
                }
                assert forall|j: int| 0 <= j < entry_models(entries@).len() implies (
                #[trigger] entry_models(entries@)[j]).1.fits((budget - 1) as nat) by {
                    assert(entries@[j].1@.fits((budget - 1) as nat));
                }
                true
            },
            _ => true,
        }
    }

    /// A copy of the tree. The copy is made by a call within a call, as
    /// deep as the tree is nested; a tree that was read from text or from
    /// a document is nested at most `MAX_DEPTH` deep.
    pub fn duplicate(&self) -> (r: Value)
        ensures
            r@ == self@,
        decreases self,
    {
        match self {
            Value::Null => Value::Null,
            Value::Bool(b) => Value::Bool(*b),
            Value::Number(n) => Value::Number(*n),
            Value::String(s) => Value::String(s.clone()),
            Value::Array(items) => {
                let mut copies: Vec<Value> = Vec::new();
                let mut i: usize = 0;
                while i < items.len()
                    invariant
                        i <= items.len(),
                        copies@.len() == i,
                        *self == Value::Array(*items),
                        forall|j: int| 0 <= j < i ==> (#[trigger] copies@[j])@ == items@[j]@,
                    decreases items.len() - i,
                {
                    proof {
                        assert(decreases_to!(*self => self->Array_0));
                        assert(decreases_to!(*items => items@));
                        assert(decreases_to!(items@ => items@[i as int]));
                    }
                    copies.push(items[i].duplicate());
                    i = i + 1;
                }
                proof {
                    lemma_array_model(*items);
                    lemma_array_model(copies);
                    assert(item_models(copies@) =~= item_models(items@));
                }
                Value::Array(copies)
            },
            Value::Object(entries) => {
                let mut copies: Vec<(String, Value)> = Vec::new();
                let mut i: usize = 0;
                while i < entries.len()
                    invariant
                        i <= entries.len(),
                        copies@.len() == i,
                        *self == Value::Object(*entries),
                        forall|j: int|
                            0 <= j < i ==> (#[trigger] copies@[j]).0@ == entries@[j].0@
                                && copies@[j].1@ == entries@[j].1@,
                    decreases entries.len() - i,
                {
                    proof {
                        assert(decreases_to!(*self => self->Object_0));
                        assert(decreases_to!(*entries => entries@));
                        assert(decreases_to!(entries@ => entries@[i as int]));
                        assert(decreases_to!(entries@[i as int] => entries@[i as int].1));
                    }
                    copies.push((entries[i].0.clone(), entries[i].1.duplicate()));
                    i = i + 1;
                }
                proof {
                    lemma_object_model(*entries);
                    lemma_object_model(copies);
                    assert(entry_models(copies@) =~= entry_models(entries@));
                }
                Value::Object(copies)
            },
        }
    }
}

} // verus!
