//! Value trees as JSON text, through the `json` crate.
//!
//! The crate's own values are opaque here. What they hold is named by
//! `json_model` and `members_model`, and the few calls into the crate say
//! over those names what its source shows. The walks over the trees, towards
//! the crate and back, are this library's.

use crate::entries::lemma_position;
use crate::entries::upsert;
use crate::errors::ConversionError;
use crate::errors::ParseError;
use crate::number::number_of_parts;
use crate::number::Number;
use crate::value::entry_models;
use crate::value::item_models;
use crate::value::lemma_array_model;
use crate::value::lemma_entries_fit;
use crate::value::lemma_items_fit;
use crate::value::lemma_object_model;
use crate::value::Value;
use crate::value::ValueModel;
use crate::value::MAX_DEPTH;
use vstd::prelude::*;
use vstd::string::StringSliceAdditionalSpecFns;
use vstd::utf8::encode_utf8;

verus! {

/// `json::JsonValue`: a value, carried as it is.
#[verifier::external_type_specification]
#[verifier::external_body]
pub struct ExJsonValue(json::JsonValue);

/// `json::object::Object`: the entries of an object, carried as they are.
#[verifier::external_type_specification]
#[verifier::external_body]
pub struct ExJsonObject(json::object::Object);

/// What a value of the `json` crate holds.
pub uninterp spec fn json_model(value: json::JsonValue) -> ValueModel;

/// The entries of an object of the `json` crate, in its order.
pub uninterp spec fn members_model(object: json::object::Object) -> Seq<(Seq<char>, ValueModel)>;

/// What parsing a text with the `json` crate gives: the tree, `TooDeep`
/// where the crate gives up for the nesting or for the length of an
/// integer, `Syntax` for any other failure.
pub uninterp spec fn parsed_text(text: Seq<char>) -> Result<ValueModel, ParseError>;

/// The longest run of decimal digits that is read as one number. The `json`
/// crate counts the digits of a number in sixteen bits.
pub const MAX_DIGITS: usize = 32767;

/// Whether a byte is a decimal digit.
pub open spec fn is_digit_byte(b: u8) -> bool {
    48 <= b <= 57
}

/// The number of decimal digits in a row that end before the position
/// `end`.
pub open spec fn digit_run(bytes: Seq<u8>, end: int) -> nat
    decreases end,
{
    if end <= 0 || !is_digit_byte(bytes[end - 1]) {
        0
    } else {
        1 + digit_run(bytes, end - 1)
    }
}

/// Whether no more than `limit` decimal digits stand in a row.
pub open spec fn digits_bounded(bytes: Seq<u8>, limit: nat) -> bool {
    forall|end: int| 0 <= end <= bytes.len() ==> #[trigger] digit_run(bytes, end) <= limit
}

/// The number of decimal digits in a row that end before the position
/// `end`, where a decimal point stands before the first of them; else
/// zero.
pub open spec fn fraction_run(bytes: Seq<u8>, end: int) -> nat {
    let run = digit_run(bytes, end);
    if end - run >= 1 && bytes[end - run - 1] == 46 {
        run
    } else {
        0
    }
}

/// Whether no more than `limit` decimal digits stand in a row behind a
/// decimal point.
pub open spec fn fractions_bounded(bytes: Seq<u8>, limit: nat) -> bool {
    forall|end: int| 0 <= end <= bytes.len() ==> #[trigger] fraction_run(bytes, end) <= limit
}

/// Whether the text holds no more than `MAX_DIGITS` decimal digits in a
/// row behind a decimal point.
pub fn fractions_within_limit(text: &str) -> (r: bool)
    ensures
        r == fractions_bounded(text.spec_bytes(), MAX_DIGITS as nat),
{
    let bytes = text.as_bytes();
    let mut run: usize = 0;
    let mut dotted = false;
    let mut i: usize = 0;
    while i < bytes.len()
        invariant
            i <= bytes.len(),
            bytes@ == text.spec_bytes(),
            run == digit_run(bytes@, i as int),
            run <= i,
            run > 0 ==> dotted == (i - run >= 1 && bytes@[i - run - 1] == 46),
            run > 0 && dotted ==> run <= MAX_DIGITS,
            forall|end: int| 0 <= end <= i ==> #[trigger] fraction_run(bytes@, end) <= MAX_DIGITS,
        decreases bytes.len() - i,
    {
        let b = bytes[i];
        if 48 <= b && b <= 57 {
            if run == 0 {
                dotted = i > 0 && bytes[i - 1] == 46;
            }
            if dotted && run == MAX_DIGITS {
                assert(fraction_run(bytes@, i + 1) == MAX_DIGITS + 1);
                return false;
            }
            run = run + 1;
        } else {
            run = 0;
        }
        i = i + 1;
    }
    true
}

/// Whether the text holds no more than `MAX_DIGITS` decimal digits in a
/// row.
pub fn digits_within_limit(text: &str) -> (r: bool)
    ensures
        r == digits_bounded(text.spec_bytes(), MAX_DIGITS as nat),
{
    let bytes = text.as_bytes();
    let mut run: usize = 0;
    let mut i: usize = 0;
    while i < bytes.len()
        invariant
            i <= bytes.len(),
            bytes@ == text.spec_bytes(),
            run == digit_run(bytes@, i as int),
            run <= MAX_DIGITS,
            forall|end: int| 0 <= end <= i ==> #[trigger] digit_run(bytes@, end) <= MAX_DIGITS,
        decreases bytes.len() - i,
    {
        let b = bytes[i];
        if 48 <= b && b <= 57 {
            if run == MAX_DIGITS {
                assert(digit_run(bytes@, i + 1) == MAX_DIGITS + 1);
                return false;
            }
            run = run + 1;
        } else {
            run = 0;
        }
        i = i + 1;
    }
    true
}

/// The compact JSON text of a tree.
pub uninterp spec fn compact_text(v: ValueModel) -> Seq<char>;

/// What the values of a vector hold.
pub open spec fn json_models(values: Seq<json::JsonValue>) -> Seq<ValueModel> {
    values.map_values(|value: json::JsonValue| json_model(value))
}

/// A value without the values below it, as it is found.
pub enum JsonShape<'a> {
    Null,
    Bool(bool),
    /// The parts of the `json::number::Number`.
    Number { nan: bool, positive: bool, mantissa: u64, exponent: i16 },
    String(&'a str),
    Array(&'a Vec<json::JsonValue>),
    Object(&'a json::object::Object),
}

/// A value without the values below it, to be made into one.
pub enum JsonPiece {
    Null,
    Bool(bool),
    String(String),
    Array(Vec<json::JsonValue>),
    Object(json::object::Object),
}

impl JsonPiece {
    /// What the value made of the piece holds.
    pub open spec fn model(self) -> ValueModel {
        match self {
            JsonPiece::Null => ValueModel::Null,
            JsonPiece::Bool(b) => ValueModel::Bool(b),
            JsonPiece::String(s) => ValueModel::String(s@),
            JsonPiece::Array(values) => ValueModel::Array(json_models(values@)),
            JsonPiece::Object(object) => ValueModel::Object(members_model(object)),
        }
    }
}

/// `json::parse`, and which of the crate's errors came back. The crate
/// counts the digits behind a decimal point without a check, so the texts
/// with longer runs of such digits are left out.
#[verifier::external_body]
pub(crate) fn parse_json(text: &str) -> (r: Result<json::JsonValue, ParseError>)
    requires
        fractions_bounded(text.spec_bytes(), MAX_DIGITS as nat),
    ensures
        match r {
            Ok(value) => parsed_text(text@) == Ok::<ValueModel, ParseError>(json_model(value)),
            Err(e) => parsed_text(text@) == Err::<ValueModel, ParseError>(e),
        },
{
    match json::parse(text) {
        Ok(value) => Ok(value),
        Err(json::Error::ExceededDepthLimit) => Err(ParseError::TooDeep),
        Err(_) => Err(ParseError::Syntax),
    }
}

/// `json::JsonValue::dump`: the compact text of the value. The crate writes
/// a nested value by a call within a call, so the values nested deeper than
/// `MAX_DEPTH` are left out.
#[verifier::external_body]
pub(crate) fn dump_json(value: &json::JsonValue) -> (text: String)
    requires
        json_model(*value).fits(MAX_DEPTH as nat),
    ensures
        text@ == compact_text(json_model(*value)),
{
    value.dump()
}

/// Tells the variants of `json::JsonValue` apart; a short string is a
/// string.
#[verifier::external_body]
pub(crate) fn json_shape<'a>(value: &'a json::JsonValue) -> (shape: JsonShape<'a>)
    ensures
        match shape {
            JsonShape::Null => json_model(*value) == ValueModel::Null,
            JsonShape::Bool(b) => json_model(*value) == ValueModel::Bool(b),
            JsonShape::Number { nan, positive, mantissa, exponent } => json_model(*value)
                == ValueModel::Number(number_of_parts(nan, positive, mantissa, exponent)),
            JsonShape::String(s) => json_model(*value) == ValueModel::String(s@),
            JsonShape::Array(values) => json_model(*value) == ValueModel::Array(
                json_models(values@),
            ),
            JsonShape::Object(object) => json_model(*value) == ValueModel::Object(
                members_model(*object),
            ),
        },
{
    match value {
        json::JsonValue::Null => JsonShape::Null,
        json::JsonValue::Boolean(b) => JsonShape::Bool(*b),
        json::JsonValue::Number(n) => {
            let (positive, mantissa, exponent) = n.as_parts();
            JsonShape::Number { nan: n.is_nan(), positive, mantissa, exponent }
        },
        json::JsonValue::Short(s) => JsonShape::String(s.as_str()),
        json::JsonValue::String(s) => JsonShape::String(s),
        json::JsonValue::Array(values) => JsonShape::Array(values),
        json::JsonValue::Object(object) => JsonShape::Object(object),
    }
}

/// `json::object::Object::iter`, collected: the entries of the object, in
/// its order.
#[verifier::external_body]
pub(crate) fn members_of<'a>(object: &'a json::object::Object) -> (members: Vec<
    (&'a str, &'a json::JsonValue),
>)
    ensures
        members@.len() == members_model(*object).len(),
        forall|i: int|
            0 <= i < members@.len() ==> (#[trigger] members@[i]).0@ == members_model(*object)[i].0
                && json_model(*members@[i].1) == members_model(*object)[i].1,
{
    object.iter().collect()
}

/// The variants of `json::JsonValue` for null, booleans, strings, arrays
/// and objects: the value holds what the piece held.
#[verifier::external_body]
pub(crate) fn json_of(piece: JsonPiece) -> (value: json::JsonValue)
    ensures
        json_model(value) == piece.model(),
{
    match piece {
        JsonPiece::Null => json::JsonValue::Null,
        JsonPiece::Bool(b) => json::JsonValue::Boolean(b),
        JsonPiece::String(s) => json::JsonValue::String(s),
        JsonPiece::Array(values) => json::JsonValue::Array(values),
        JsonPiece::Object(object) => json::JsonValue::Object(object),
    }
}

/// `json::number::Number::from_parts` in a `json::JsonValue`: the decimal
/// without the zeros that end its mantissa below the decimal point.
#[verifier::external_body]
pub(crate) fn number_json(negative: bool, mantissa: u64, exponent: i16) -> (value: json::JsonValue)
    ensures
        json_model(value) == ValueModel::Number(
            Number::Decimal { negative, mantissa, exponent }.trimmed(),
        ),
{
    json::JsonValue::Number(json::number::Number::from_parts(!negative, mantissa, exponent))
}

/// `json::number::NAN` in a `json::JsonValue`.
#[verifier::external_body]
pub(crate) fn nan_json() -> (value: json::JsonValue)
    ensures
        json_model(value) == ValueModel::Number(Number::NotANumber),
{
    json::JsonValue::Number(json::number::NAN)
}

/// `json::object::Object::new`: an object without entries.
#[verifier::external_body]
pub(crate) fn new_object() -> (object: json::object::Object)
    ensures
        members_model(object) == Seq::<(Seq<char>, ValueModel)>::empty(),
{
    json::object::Object::new()
}

/// `json::object::Object::insert`: the value replaces the one that the key
/// had, where the key stands; under a new key the entry comes last.
#[verifier::external_body]
pub(crate) fn insert_member(object: &mut json::object::Object, key: &str, value: json::JsonValue)
    ensures
        members_model(*final(object)) == upsert(
            members_model(*old(object)),
            key@,
            json_model(value),
        ),
{
    object.insert(key, value);
}

/// The tree that is handed to the `json` crate for a value tree: a number
/// loses the zeros that end its mantissa below the decimal point, and the
/// entries of an object are inserted one after another.
pub open spec fn json_form(v: ValueModel) -> ValueModel
    decreases v,
{
    match v {
        ValueModel::Number(n) => ValueModel::Number(n.trimmed()),
        ValueModel::Array(items) => ValueModel::Array(
            Seq::new(
                items.len(),
                |i: int|
                    if 0 <= i < items.len() {
                        json_form(items[i])
                    } else {
                        ValueModel::Null
                    },
            ),
        ),
        ValueModel::Object(entries) => ValueModel::Object(json_members(entries)),
        _ => v,
    }
}

/// The entries handed over for the entries of an object: each is inserted
/// after those before it, so that a key that comes again replaces its value.
pub open spec fn json_members(entries: Seq<(Seq<char>, ValueModel)>) -> Seq<
    (Seq<char>, ValueModel),
>
    decreases entries,
{
    if entries.len() == 0 {
        Seq::empty()
    } else {
        upsert(json_members(entries.drop_last()), entries.last().0, json_form(entries.last().1))
    }
}

/// The trees handed over for the members of an array.
pub open spec fn json_items(items: Seq<ValueModel>) -> Seq<ValueModel> {
    items.map_values(|item: ValueModel| json_form(item))
}

/// The tree handed over for an array is the array of its members' trees.
pub proof fn lemma_json_items(items: Seq<ValueModel>)
    ensures
        json_form(ValueModel::Array(items)) == ValueModel::Array(json_items(items)),
{
    reveal_with_fuel(json_form, 2);
    assert(json_form(ValueModel::Array(items))->Array_0 =~= json_items(items));
}

/// The entries handed over for an object are as deep as its own.
pub proof fn lemma_json_members_fit(entries: Seq<(Seq<char>, ValueModel)>, budget: nat)
    requires
        forall|i: int| 0 <= i < entries.len() ==> (#[trigger] entries[i]).1.fits(budget),
    ensures
        forall|i: int|
            0 <= i < json_members(entries).len() ==> (#[trigger] json_members(entries)[i]).1.fits(
                budget,
            ),
    decreases entries,
{
    if entries.len() > 0 {
        let before = entries.drop_last();
        assert forall|i: int| 0 <= i < before.len() implies (#[trigger] before[i]).1.fits(
            budget,
        ) by {
            assert(before[i] == entries[i]);
        }
        lemma_json_members_fit(before, budget);
        assert(entries[entries.len() - 1].1.fits(budget));
        lemma_json_form_fits(entries.last().1, budget);
        lemma_position(json_members(before), entries.last().0);
    }
}

/// The tree handed over for a value tree is as deep as the tree.
pub proof fn lemma_json_form_fits(v: ValueModel, budget: nat)
    requires
        v.fits(budget),
    ensures
        json_form(v).fits(budget),
    decreases v,
{
    match v {
        ValueModel::Array(items) => {
            lemma_json_items(items);
            lemma_items_fit(items, budget);
            assert forall|i: int| 0 <= i < json_items(items).len() implies (#[trigger] json_items(
                items,
            )[i]).fits((budget - 1) as nat) by {
                lemma_json_form_fits(items[i], (budget - 1) as nat);
            }
            lemma_items_fit(json_items(items), budget);
        },
        ValueModel::Object(entries) => {
            lemma_entries_fit(entries, budget);
            lemma_json_members_fit(entries, (budget - 1) as nat);
            lemma_entries_fit(json_members(entries), budget);
        },
        _ => {},
    }
}

/// Hands a value tree of accepted depth to the `json` crate.
fn lower(value: &Value, budget: usize) -> (r: json::JsonValue)
    requires
        value@.fits(budget as nat),
    ensures
        json_model(r) == json_form(value@),
    decreases budget, 0nat,
{
    match value {
        Value::Null => json_of(JsonPiece::Null),
        Value::Bool(b) => json_of(JsonPiece::Bool(*b)),
        Value::Number(n) => match *n {
            Number::Decimal { negative, mantissa, exponent } => number_json(
                negative,
                mantissa,
                exponent,
            ),
            Number::NotANumber => nan_json(),
        },
        Value::String(s) => json_of(JsonPiece::String(s.clone())),
        Value::Array(items) => {
            proof {
                lemma_array_model(*items);
                lemma_items_fit(item_models(items@), budget as nat);
                lemma_json_items(item_models(items@));
            }
            json_of(JsonPiece::Array(lower_items(items, budget - 1)))
        },
        Value::Object(entries) => {
            proof {
                lemma_object_model(*entries);
                lemma_entries_fit(entry_models(entries@), budget as nat);
            }
            json_of(JsonPiece::Object(lower_entries(entries, budget - 1)))
        },
    }
}

/// Hands over the members of an array, in order.
fn lower_items(items: &Vec<Value>, budget: usize) -> (values: Vec<json::JsonValue>)
    requires
        forall|i: int|
            0 <= i < items@.len() ==> (#[trigger] item_models(items@)[i]).fits(budget as nat),
    ensures
        json_models(values@) == json_items(item_models(items@)),
    decreases budget, 1nat,
{
    let mut values: Vec<json::JsonValue> = Vec::new();
    let mut i: usize = 0;
    while i < items.len()
        invariant
            i <= items.len(),
            values@.len() == i,
            forall|j: int|
                0 <= j < items@.len() ==> (#[trigger] item_models(items@)[j]).fits(budget as nat),
            forall|j: int|
                0 <= j < i ==> json_model(#[trigger] values@[j]) == json_form(items@[j]@),
        decreases items.len() - i,
    {
        assert(item_models(items@)[i as int] == items@[i as int]@);
        values.push(lower(&items[i], budget));
        i = i + 1;
    }
    assert(json_models(values@) =~= json_items(item_models(items@)));
    values
}

/// Hands over the entries of an object by inserting them one after another.
fn lower_entries(entries: &Vec<(String, Value)>, budget: usize) -> (object: json::object::Object)
    requires
        forall|i: int|
            0 <= i < entries@.len() ==> (#[trigger] entry_models(entries@)[i]).1.fits(
                budget as nat,
            ),
    ensures
        members_model(object) == json_members(entry_models(entries@)),
    decreases budget, 1nat,
{
    let mut object = new_object();
    let ghost all = entry_models(entries@);
    let mut i: usize = 0;
    assert(all.take(0) =~= Seq::empty());
    while i < entries.len()
        invariant
            i <= entries.len(),
            all == entry_models(entries@),
            forall|j: int|
                0 <= j < entries@.len() ==> (#[trigger] entry_models(entries@)[j]).1.fits(
                    budget as nat,
                ),
            members_model(object) == json_members(all.take(i as int)),
        decreases entries.len() - i,
    {
        assert(entry_models(entries@)[i as int].1 == entries@[i as int].1@);
        let value = lower(&entries[i].1, budget);
        proof {
            let next = all.take(i + 1);
            assert(next.drop_last() =~= all.take(i as int));
            assert(next.last() == (entries@[i as int].0@, entries@[i as int].1@));
        }
        insert_member(&mut object, entries[i].0.as_str(), value);
        i = i + 1;
    }
    assert(all.take(entries.len() as int) =~= all);
    object
}

/// Takes a value of the `json` crate as a value tree; `None` where it is
/// nested deeper than `budget`.
fn lift(value: &json::JsonValue, budget: usize) -> (r: Option<Value>)
    ensures
        match r {
            Some(v) => json_model(*value).fits(budget as nat) && v@ == json_model(*value),
            None => !json_model(*value).fits(budget as nat),
        },
    decreases budget, 0nat,
{
    match json_shape(value) {
        JsonShape::Null => Some(Value::Null),
        JsonShape::Bool(b) => Some(Value::Bool(b)),
        JsonShape::Number { nan, positive, mantissa, exponent } => Some(
            Value::Number(Number::from_parts(nan, positive, mantissa, exponent)),
        ),
        JsonShape::String(s) => Some(Value::String(s.to_owned())),
        JsonShape::Array(values) => {
            if budget == 0 {
                return None;
            }
            proof {
                lemma_items_fit(json_models(values@), budget as nat);
            }
            match lift_values(values, budget - 1) {
                Some(items) => {
                    proof {
                        lemma_array_model(items);
                    }
                    Some(Value::Array(items))
                },
                None => None,
            }
        },
        JsonShape::Object(object) => {
            if budget == 0 {
                return None;
            }
            proof {
                lemma_entries_fit(members_model(*object), budget as nat);
            }
            match lift_members(object, budget - 1) {
                Some(entries) => {
                    proof {
                        lemma_object_model(entries);
                    }
                    Some(Value::Object(entries))
                },
                None => None,
            }
        },
    }
}

/// Takes the values of an array, in order.
fn lift_values(values: &Vec<json::JsonValue>, budget: usize) -> (r: Option<Vec<Value>>)
    ensures
        match r {
            Some(items) => {
                &&& forall|i: int|
                    0 <= i < values@.len() ==> (#[trigger] json_models(values@)[i]).fits(
                        budget as nat,
                    )
                &&& item_models(items@) == json_models(values@)
            },
            None => exists|i: int|
                0 <= i < values@.len() && !(#[trigger] json_models(values@)[i]).fits(
                    budget as nat,
                ),
        },
    decreases budget, 1nat,
{
    let mut items: Vec<Value> = Vec::new();
    let mut i: usize = 0;
    while i < values.len()
        invariant
            i <= values.len(),
            items@.len() == i,
            forall|j: int| 0 <= j < i ==> (#[trigger] json_models(values@)[j]).fits(budget as nat),
            forall|j: int| 0 <= j < i ==> (#[trigger] items@[j])@ == json_model(values@[j]),
        decreases values.len() - i,
    {
        assert(json_models(values@)[i as int] == json_model(values@[i as int]));
        match lift(&values[i], budget) {
            Some(item) => {
                items.push(item);
            },
            None => {
                return None;
            },
        }
        i = i + 1;
    }
    assert(item_models(items@) =~= json_models(values@));
    Some(items)
}

/// Takes the entries of an object, in order.
fn lift_members(object: &json::object::Object, budget: usize) -> (r: Option<Vec<(String, Value)>>)
    ensures
        match r {
            Some(entries) => {
                &&& forall|i: int|
                    0 <= i < members_model(*object).len() ==> (#[trigger] members_model(
                        *object,
                    )[i]).1.fits(budget as nat)
                &&& entry_models(entries@) == members_model(*object)
            },
            None => exists|i: int|
                0 <= i < members_model(*object).len() && !(#[trigger] members_model(
                    *object,
                )[i]).1.fits(budget as nat),
        },
    decreases budget, 1nat,
{
    let members = members_of(object);
    let ghost models = members_model(*object);
    let mut entries: Vec<(String, Value)> = Vec::new();
    let mut i: usize = 0;
    while i < members.len()
        invariant
            i <= members.len(),
            entries@.len() == i,
            models == members_model(*object),
            members@.len() == models.len(),
            forall|j: int|
                0 <= j < members@.len() ==> (#[trigger] members@[j]).0@ == models[j].0
                    && json_model(*members@[j].1) == models[j].1,
            forall|j: int| 0 <= j < i ==> (#[trigger] models[j]).1.fits(budget as nat),
            forall|j: int|
                0 <= j < i ==> (#[trigger] entries@[j]).0@ == models[j].0 && entries@[j].1@
                    == models[j].1,
        decreases members.len() - i,
    {
        assert(json_model(*members@[i as int].1) == models[i as int].1);
        match lift(members[i].1, budget) {
            Some(item) => {
                entries.push((members[i].0.to_owned(), item));
            },
            None => {
                return None;
            },
        }
        i = i + 1;
    }
    assert(entry_models(entries@) =~= models);
    Some(entries)
}

/// What reading a text gives: `DigitsTooLong` where more than
/// `MAX_DIGITS` digits stand in a row behind a decimal point, or where the
/// parser gives up and more than `MAX_DIGITS` digits stand in a row
/// anywhere; else the error of the parser; else `TooDeep` where the tree is
/// deeper than `MAX_DEPTH`; else the tree.
pub open spec fn text_value(text: Seq<char>) -> Result<ValueModel, ParseError> {
    if !fractions_bounded(encode_utf8(text), MAX_DIGITS as nat) {
        Err(ParseError::DigitsTooLong)
    } else {
        match parsed_text(text) {
            Err(e) => if e == ParseError::TooDeep && !digits_bounded(
                encode_utf8(text),
                MAX_DIGITS as nat,
            ) {
                Err(ParseError::DigitsTooLong)
            } else {
                Err(e)
            },
            Ok(v) => if v.fits(MAX_DEPTH as nat) {
                Ok(v)
            } else {
                Err(ParseError::TooDeep)
            },
        }
    }
}

/// What writing a tree gives: the compact text of the tree as it is handed
/// to the `json` crate, unless the tree is too deep.
pub open spec fn value_text(v: ValueModel) -> Result<Seq<char>, ConversionError> {
    if v.fits(MAX_DEPTH as nat) {
        Ok(compact_text(json_form(v)))
    } else {
        Err(ConversionError::TooDeep)
    }
}

/// Takes a value of the `json` crate as a value tree.
pub fn value_from(parsed: &json::JsonValue) -> (r: Result<Value, ParseError>)
    ensures
        match r {
            Ok(v) => json_model(*parsed).fits(MAX_DEPTH as nat) && v@ == json_model(*parsed),
            Err(e) => !json_model(*parsed).fits(MAX_DEPTH as nat) && e == ParseError::TooDeep,
        },
{
    match lift(parsed, MAX_DEPTH) {
        Some(v) => Ok(v),
        None => Err(ParseError::TooDeep),
    }
}

/// Reads a JSON text as a value tree.
pub fn parse_text(text: &str) -> (r: Result<Value, ParseError>)
    ensures
        match r {
            Ok(v) => text_value(text@) == Ok::<ValueModel, ParseError>(v@),
            Err(e) => text_value(text@) == Err::<ValueModel, ParseError>(e),
        },
{
    if !fractions_within_limit(text) {
        return Err(ParseError::DigitsTooLong);
    }
    match parse_json(text) {
        Ok(parsed) => value_from(&parsed),
        Err(ParseError::TooDeep) => {
            if digits_within_limit(text) {
                Err(ParseError::TooDeep)
            } else {
                Err(ParseError::DigitsTooLong)
            }
        },
        Err(e) => Err(e),
    }
}

/// Writes a value tree as compact JSON text.
pub fn to_text(value: &Value) -> (r: Result<String, ConversionError>)
    ensures
        match r {
            Ok(text) => value_text(value@) == Ok::<Seq<char>, ConversionError>(text@),
            Err(e) => value_text(value@) == Err::<Seq<char>, ConversionError>(e),
        },
{
    if !value.fits_depth(MAX_DEPTH) {
        return Err(ConversionError::TooDeep);
    }
    let lowered = lower(value, MAX_DEPTH);
    proof {
        lemma_json_form_fits(value@, MAX_DEPTH as nat);
    }
    Ok(dump_json(&lowered))
}

} // verus!
