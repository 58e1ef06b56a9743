//! Dotted paths into a value tree.
//!
//! A path is a text of segments separated by dots. A segment names a key of
//! the object at hand; where that key holds an array and the path goes on,
//! the segment after it is the decimal index of a member of the array.

use crate::value::entry_models;
use crate::value::lemma_array_model;
use crate::value::lemma_object_model;
use crate::value::Value;
use crate::value::ValueModel;
use vstd::prelude::*;

verus! {

/// The character between two segments of a path.
pub const SEPARATOR: char = '.';

/// The pieces of `text` between the occurrences of `separator`. A text
/// without the separator is one piece; two separators in a row enclose an
/// empty piece.
pub open spec fn split(text: Seq<char>, separator: char) -> Seq<Seq<char>>
    decreases text.len(),
{
    if text.len() == 0 {
        seq![Seq::empty()]
    } else {
        let before = split(text.drop_last(), separator);
        if text.last() == separator {
            before.push(Seq::empty())
        } else {
            before.update(before.len() - 1, before.last().push(text.last()))
        }
    }
}

/// Whether `c` is one of the ten decimal digits.
pub open spec fn is_digit(c: char) -> bool {
    '0' <= c <= '9'
}

/// The number that a text of decimal digits writes.
pub open spec fn decimal_value(digits: Seq<char>) -> nat
    decreases digits.len(),
{
    if digits.len() == 0 {
        0
    } else {
        (10 * decimal_value(digits.drop_last()) + (digits.last() as int - '0' as int)) as nat
    }
}

/// The digits of an index segment: the segment itself, without the plus sign
/// that may stand before it.
pub open spec fn index_digits(segment: Seq<char>) -> Seq<char> {
    if segment.len() > 0 && segment[0] == '+' {
        segment.skip(1)
    } else {
        segment
    }
}

/// The index that a segment writes, if it writes one: at least one decimal
/// digit, and nothing else but a plus sign in front.
pub open spec fn index_of(segment: Seq<char>) -> Option<nat> {
    let digits = index_digits(segment);
    if digits.len() > 0 && (forall|i: int| 0 <= i < digits.len() ==> is_digit(#[trigger] digits[i])) {
        Some(decimal_value(digits))
    } else {
        None
    }
}

/// The value of the first entry under `key`, if there is one.
pub open spec fn lookup(entries: Seq<(Seq<char>, ValueModel)>, key: Seq<char>) -> Option<ValueModel>
    decreases entries.len(),
{
    if entries.len() == 0 {
        None
    } else if entries[0].0 == key {
        Some(entries[0].1)
    } else {
        lookup(entries.skip(1), key)
    }
}

/// The node that the segments lead to from `node`.
///
/// The first segment is a key of `node`, which has to be an object. Where
/// the segments end there, the entry's value is the result. Where the value
/// is an array, the next segment is an index into it, and the rest leads on
/// from that member. Any other value is entered with the rest of the
/// segments. A missing key, a segment that writes no index and an index past
/// the end all give `None`.
pub open spec fn descend(node: ValueModel, segments: Seq<Seq<char>>) -> Option<ValueModel>
    decreases segments.len(),
{
    if segments.len() == 0 {
        None
    } else {
        match node {
            ValueModel::Object(entries) => match lookup(entries, segments[0]) {
                None => None,
                Some(child) => if segments.len() == 1 {
                    Some(child)
                } else {
                    match child {
                        ValueModel::Array(items) => match index_of(segments[1]) {
                            None => None,
                            Some(index) => if index >= items.len() {
                                None
                            } else if segments.len() == 2 {
                                Some(items[index as int])
                            } else {
                                descend(items[index as int], segments.skip(2))
                            },
                        },
                        _ => descend(child, segments.skip(1)),
                    }
                },
            },
            _ => None,
        }
    }
}

/// The node that `path` addresses in the tree `root`. The empty path
/// addresses nothing.
pub open spec fn resolve(root: ValueModel, path: Seq<char>) -> Option<ValueModel> {
    if path.len() == 0 {
        None
    } else {
        descend(root, split(path, SEPARATOR))
    }
}

/// The texts of a vector of strings.
pub open spec fn texts(strings: Seq<String>) -> Seq<Seq<char>> {
    strings.map_values(|s: String| s@)
}

/// Cuts a path into its segments.
pub fn split_path(path: &str) -> (segments: Vec<String>)
    ensures
        texts(segments@) == split(path@, SEPARATOR),
{
    let n = path.unicode_len();
    let mut segments: Vec<String> = Vec::new();
    let mut start: usize = 0;
    let mut i: usize = 0;
    proof {
        assert(path@.subrange(0, 0) =~= Seq::<char>::empty());
        assert(texts(segments@).push(path@.subrange(0, 0)) =~= seq![Seq::<char>::empty()]);
    }
    while i < n
        invariant
            start <= i <= n == path@.len(),
            split(path@.take(i as int), SEPARATOR) == texts(segments@).push(
                path@.subrange(start as int, i as int),
            ),
        decreases n - i,
    {
        let c = path.get_char(i);
        proof {
            let next = path@.take(i + 1);
            assert(next.drop_last() == path@.take(i as int));
            assert(next.last() == c);
        }
        if c == SEPARATOR {
            let piece = path.substring_char(start, i);
            let ghost before = segments@;
            segments.push(piece.to_owned());
            start = i + 1;
            proof {
                assert(texts(segments@) == texts(before).push(piece@)) by {
                    assert(texts(segments@) =~= texts(before).push(piece@));
                }
                assert(path@.subrange(start as int, start as int) == Seq::<char>::empty());
            }
        } else {
            proof {
                let before = texts(segments@).push(path@.subrange(start as int, i as int));
                assert(path@.subrange(start as int, i as int).push(c) =~= path@.subrange(
                    start as int,
                    i + 1,
                ));
                assert(before.update(before.len() - 1, before.last().push(c)) =~= texts(
                    segments@,
                ).push(path@.subrange(start as int, i + 1)));
            }
        }
        i = i + 1;
    }
    let piece = path.substring_char(start, n);
    let ghost before = segments@;
    segments.push(piece.to_owned());
    proof {
        assert(path@.take(n as int) == path@);
        assert(texts(segments@) =~= texts(before).push(piece@));
    }
    segments
}

/// The number that a text of digits writes is at least the number that any
/// of its beginnings writes.
pub proof fn lemma_decimal_value_grows(digits: Seq<char>, k: int)
    requires
        0 <= k <= digits.len(),
        forall|i: int| 0 <= i < digits.len() ==> is_digit(#[trigger] digits[i]),
    ensures
        decimal_value(digits.take(k)) <= decimal_value(digits),
    decreases digits.len(),
{
    if k == digits.len() {
        assert(digits.take(k) == digits);
    } else {
        let shorter = digits.drop_last();
        lemma_decimal_value_grows(shorter, k);
        assert(shorter.take(k) == digits.take(k));
    }
}

/// Reads a segment as an index. `None` stands for a segment that writes no
/// index, and for one whose index is beyond every `usize`.
pub fn parse_index(segment: &str) -> (r: Option<usize>)
    ensures
        match r {
            Some(index) => index_of(segment@) == Some(index as nat),
            None => index_of(segment@) matches Some(index) ==> index > usize::MAX,
        },
{
    let n = segment.unicode_len();
    let first: usize = if n > 0 && segment.get_char(0) == '+' {
        1
    } else {
        0
    };
    if first == n {
        return None;
    }
    let ghost digits = index_digits(segment@);
    assert(digits == segment@.skip(first as int));
    let mut value: usize = 0;
    let mut i: usize = first;
    assert(digits.take(0) == Seq::<char>::empty());
    while i < n
        invariant
            first <= i <= n == segment@.len(),
            digits == segment@.skip(first as int),
            digits == index_digits(segment@),
            forall|j: int| 0 <= j < i - first ==> is_digit(#[trigger] digits[j]),
            value == decimal_value(digits.take(i - first)),
        decreases n - i,
    {
        let c = segment.get_char(i);
        assert(c == digits[i - first]);
        if !('0' <= c && c <= '9') {
            return None;
        }
        let digit: usize = (c as u32 - '0' as u32) as usize;
        proof {
            let longer = digits.take(i - first + 1);
            assert(longer.drop_last() == digits.take(i - first));
            assert(longer.last() == c);
        }
        if value > (usize::MAX - digit) / 10 {
            proof {
                if index_of(segment@) is Some {
                    lemma_decimal_value_grows(digits, i - first + 1);
                }
            }
            return None;
        }
        value = value * 10 + digit;
        i = i + 1;
    }
    assert(digits.take(n - first) == digits);
    Some(value)
}

/// The position of the first entry under `key`.
pub fn find_entry(entries: &Vec<(String, Value)>, key: &String) -> (r: Option<usize>)
    ensures
        match r {
            Some(at) => at < entries.len() && entries@[at as int].0@ == key@ && lookup(
                entry_models(entries@),
                key@,
            ) == Some(entries@[at as int].1@),
            None => lookup(entry_models(entries@), key@) is None,
        },
{
    let ghost models = entry_models(entries@);
    let mut i: usize = 0;
    assert(models.skip(0) == models);
    while i < entries.len()
        invariant
            i <= entries.len(),
            models == entry_models(entries@),
            lookup(models, key@) == lookup(models.skip(i as int), key@),
        decreases entries.len() - i,
    {
        assert(models.skip(i as int)[0] == models[i as int]);
        if entries[i].0 == *key {
            return Some(i);
        }
        assert(models.skip(i as int).skip(1) == models.skip(i + 1));
        i = i + 1;
    }
    None
}

/// The node that `path` addresses in `root`, copied out of the tree.
///
/// The way to the node is walked in a loop, one step to the segment. The
/// copy of the node is made by a call within a call, as deep as the node is
/// nested: no bound is set on it here, and a tree that was read from text or
/// from a document is nested at most `MAX_DEPTH` deep.
pub fn resolve_path(path: &str, root: &Value) -> (r: Option<Value>)
    ensures
        match r {
            Some(node) => resolve(root@, path@) == Some(node@),
            None => resolve(root@, path@) is None,
        },
{
    if path.is_empty() {
        return None;
    }
    let segments = split_path(path);
    let ghost keys = texts(segments@);
    proof {
        lemma_split_len(path@, SEPARATOR);
        assert(keys.skip(0) == keys);
    }
    let mut current: &Value = root;
    let mut k: usize = 0;
    loop
        invariant
            k < segments.len(),
            keys == texts(segments@),
            keys == split(path@, SEPARATOR),
            path@.len() > 0,
            descend(root@, keys) == descend(current@, keys.skip(k as int)),
        decreases segments.len() - k,
    {
        let ghost rest = keys.skip(k as int);
        assert(rest[0] == segments@[k as int]@);
        match current {
            Value::Object(entries) => {
                proof {
                    lemma_object_model(*entries);
                }
                match find_entry(entries, &segments[k]) {
                    None => {
                        return None;
                    },
                    Some(at) => {
                        let child = &entries[at].1;
                        if k + 1 == segments.len() {
                            return Some(child.duplicate());
                        }
                        assert(rest[1] == segments@[k + 1]@);
                        match child {
                            Value::Array(items) => {
                                proof {
                                    lemma_array_model(*items);
                                }
                                match parse_index(segments[k + 1].as_str()) {
                                    None => {
                                        assert(items.len() <= usize::MAX);
                                        return None;
                                    },
                                    Some(index) => {
                                        if index >= items.len() {
                                            return None;
                                        }
                                        if k + 2 == segments.len() {
                                            return Some(items[index].duplicate());
                                        }
                                        assert(rest.skip(2) == keys.skip(k + 2));
                                        current = &items[index];
                                        k = k + 2;
                                    },
                                }
                            },
                            _ => {
                                assert(rest.skip(1) == keys.skip(k + 1));
                                current = child;
                                k = k + 1;
                            },
                        }
                    },
                }
            },
            _ => {
                return None;
            },
        }
    }
}

/// One step from a node to a node below it.
pub enum Step {
    /// To the value of the first entry of an object under the key.
    Key(Seq<char>),
    /// To the member of an array at the index.
    Index(nat),
}

/// The node that the steps lead to from `node`, one level of the tree to
/// the step.
pub open spec fn node_at(node: ValueModel, steps: Seq<Step>) -> Option<ValueModel>
    decreases steps.len(),
{
    if steps.len() == 0 {
        Some(node)
    } else {
        match steps[0] {
            Step::Key(key) => match node {
                ValueModel::Object(entries) => match lookup(entries, key) {
                    Some(child) => node_at(child, steps.skip(1)),
                    None => None,
                },
                _ => None,
            },
            Step::Index(index) => match node {
                ValueModel::Array(items) => if index < items.len() {
                    node_at(items[index as int], steps.skip(1))
                } else {
                    None
                },
                _ => None,
            },
        }
    }
}

/// The decimal digits of a number, without leading zeros.
pub open spec fn decimal_text(n: nat) -> Seq<char>
    decreases n,
{
    if n < 10 {
        seq![('0' as int + n) as char]
    } else {
        decimal_text(n / 10).push(('0' as int + n % 10) as char)
    }
}

/// The segment that writes a step: the key itself, or the digits of the
/// index.
pub open spec fn step_text(step: Step) -> Seq<char> {
    match step {
        Step::Key(key) => key,
        Step::Index(index) => decimal_text(index),
    }
}

/// The segments that write the steps.
pub open spec fn step_texts(steps: Seq<Step>) -> Seq<Seq<char>> {
    steps.map_values(|step: Step| step_text(step))
}

/// The pieces with the separator between each two of them.
pub open spec fn join(pieces: Seq<Seq<char>>, separator: char) -> Seq<char>
    decreases pieces.len(),
{
    if pieces.len() == 0 {
        Seq::empty()
    } else if pieces.len() == 1 {
        pieces[0]
    } else {
        join(pieces.drop_last(), separator).push(separator) + pieces.last()
    }
}

/// The path that writes the steps.
pub open spec fn path_of(steps: Seq<Step>) -> Seq<char> {
    join(step_texts(steps), SEPARATOR)
}

/// Whether a path can write the steps: they begin with a key, an index
/// comes only after a key, and no key holds the separator.
pub open spec fn writable(steps: Seq<Step>) -> bool {
    &&& steps.len() > 0
    &&& steps[0] is Key
    &&& forall|i: int| 0 < i < steps.len() && (#[trigger] steps[i]) is Index ==> steps[i - 1] is Key
    &&& forall|i: int|
        0 <= i < steps.len() && (#[trigger] steps[i]) is Key ==> !steps[i]->Key_0.contains(
            SEPARATOR,
        )
}

/// A text without the separator is one piece.
pub proof fn lemma_split_one_piece(text: Seq<char>, separator: char)
    requires
        !text.contains(separator),
    ensures
        split(text, separator) == seq![text],
    decreases text.len(),
{
    if text.len() == 0 {
        assert(text =~= Seq::<char>::empty());
    } else {
        let shorter = text.drop_last();
        assert(!shorter.contains(separator)) by {
            if shorter.contains(separator) {
                let i = choose|i: int| 0 <= i < shorter.len() && shorter[i] == separator;
                assert(text[i] == separator);
            }
        }
        assert(text[text.len() - 1] != separator);
        lemma_split_one_piece(shorter, separator);
        assert(shorter.push(text.last()) =~= text);
        assert(seq![shorter].update(0, shorter.push(text.last())) =~= seq![text]);
    }
}

/// A separator and a piece without one, put behind a text, add that piece
/// to the pieces of the text.
pub proof fn lemma_split_appended(text: Seq<char>, piece: Seq<char>, separator: char)
    requires
        !piece.contains(separator),
    ensures
        split(text.push(separator) + piece, separator) == split(text, separator).push(piece),
    decreases piece.len(),
{
    let whole = text.push(separator) + piece;
    if piece.len() == 0 {
        assert(whole =~= text.push(separator));
        assert(whole.drop_last() =~= text);
        assert(piece =~= Seq::<char>::empty());
    } else {
        let shorter = piece.drop_last();
        assert(!shorter.contains(separator)) by {
            if shorter.contains(separator) {
                let i = choose|i: int| 0 <= i < shorter.len() && shorter[i] == separator;
                assert(piece[i] == separator);
            }
        }
        assert(piece[piece.len() - 1] != separator);
        lemma_split_appended(text, shorter, separator);
        assert(whole.drop_last() =~= text.push(separator) + shorter);
        assert(whole.last() == piece.last());
        let before = split(text, separator).push(shorter);
        assert(shorter.push(piece.last()) =~= piece);
        assert(before.update(before.len() - 1, before.last().push(piece.last())) =~= split(
            text,
            separator,
        ).push(piece));
    }
}

/// Pieces without the separator, joined and split again, are the pieces.
pub proof fn lemma_split_join(pieces: Seq<Seq<char>>, separator: char)
    requires
        pieces.len() > 0,
        forall|i: int| 0 <= i < pieces.len() ==> !(#[trigger] pieces[i]).contains(separator),
    ensures
        split(join(pieces, separator), separator) == pieces,
    decreases pieces.len(),
{
    if pieces.len() == 1 {
        lemma_split_one_piece(pieces[0], separator);
        assert(seq![pieces[0]] =~= pieces);
    } else {
        let before = pieces.drop_last();
        assert forall|i: int| 0 <= i < before.len() implies !(#[trigger] before[i]).contains(
            separator,
        ) by {
            assert(before[i] == pieces[i]);
        }
        lemma_split_join(before, separator);
        assert(!pieces[pieces.len() - 1].contains(separator));
        lemma_split_appended(join(before, separator), pieces.last(), separator);
        assert(before.push(pieces.last()) =~= pieces);
    }
}

/// The digits of a number write that number, and hold nothing but digits.
pub proof fn lemma_decimal_text(n: nat)
    ensures
        decimal_text(n).len() > 0,
        forall|i: int| 0 <= i < decimal_text(n).len() ==> is_digit(#[trigger] decimal_text(n)[i]),
        decimal_value(decimal_text(n)) == n,
        index_of(decimal_text(n)) == Some(n),
        !decimal_text(n).contains(SEPARATOR),
    decreases n,
{
    let text = decimal_text(n);
    if n < 10 {
        assert(text.drop_last() =~= Seq::<char>::empty());
        assert(decimal_value(text.drop_last()) == 0);
        assert(text.last() as int - '0' as int == n);
    } else {
        lemma_decimal_text(n / 10);
        let shorter = decimal_text(n / 10);
        assert(text.drop_last() =~= shorter);
        assert(text.last() as int - '0' as int == n % 10);
        assert forall|i: int| 0 <= i < text.len() implies is_digit(#[trigger] text[i]) by {
            if i < shorter.len() {
                assert(text[i] == shorter[i]);
            }
        }
    }
    assert(text[0] != '+');
    assert(index_digits(text) == text);
    if text.contains(SEPARATOR) {
        let i = choose|i: int| 0 <= i < text.len() && text[i] == SEPARATOR;
        assert(is_digit(text[i]));
    }
}

/// Steps that a path can write stay so when those before a key are left
/// out.
pub proof fn lemma_writable_from_key(steps: Seq<Step>, k: int)
    requires
        writable(steps),
        0 <= k < steps.len(),
        steps[k] is Key,
    ensures
        writable(steps.skip(k)),
{
    let rest = steps.skip(k);
    assert(rest[0] == steps[k]);
    assert forall|i: int| 0 < i < rest.len() && (#[trigger] rest[i]) is Index implies rest[i
        - 1] is Key by {
        assert(rest[i] == steps[i + k]);
        assert(rest[i - 1] == steps[i + k - 1]);
    }
    assert forall|i: int| 0 <= i < rest.len() && (
    #[trigger] rest[i]) is Key implies !rest[i]->Key_0.contains(SEPARATOR) by {
        assert(rest[i] == steps[i + k]);
    }
}

/// Along steps that a path can write, the segments of the path lead where
/// the steps lead.
pub proof fn lemma_descend_follows_steps(node: ValueModel, steps: Seq<Step>)
    requires
        writable(steps),
        node_at(node, steps) is Some,
    ensures
        descend(node, step_texts(steps)) == node_at(node, steps),
    decreases steps.len(),
{
    let segments = step_texts(steps);
    let key = steps[0]->Key_0;
    assert(segments[0] == key);
    assert(node is Object);
    let child = lookup(node->Object_0, key)->0;
    let rest = steps.skip(1);
    assert(node_at(node, steps) == node_at(child, rest));
    if steps.len() == 1 {
        assert(rest.len() == 0);
    } else {
        assert(rest[0] == steps[1]);
        assert(segments[1] == step_text(steps[1]));
        if child is Array {
            assert(steps[1] is Index);
            let index = steps[1]->Index_0;
            let member = child->Array_0[index as int];
            let after = steps.skip(2);
            assert(rest.skip(1) =~= after);
            assert(node_at(child, rest) == node_at(member, after));
            lemma_decimal_text(index);
            if steps.len() == 2 {
                assert(after.len() == 0);
            } else {
                assert(steps[2] is Key) by {
                    if steps[2] is Index {
                        assert(steps[2 - 1] is Key);
                    }
                }
                lemma_writable_from_key(steps, 2);
                assert(segments.skip(2) =~= step_texts(after));
                lemma_descend_follows_steps(member, after);
            }
        } else {
            assert(steps[1] is Key);
            lemma_writable_from_key(steps, 1);
            assert(segments.skip(1) =~= step_texts(rest));
            lemma_descend_follows_steps(child, rest);
        }
    }
}

/// A path that addresses a node resolves to that node. Whatever node of a
/// tree is reached by steps that a path can write, the path that writes
/// them, unless it is the empty text, resolves to that node.
pub proof fn lemma_resolve_finds_addressed_node(root: ValueModel, steps: Seq<Step>)
    requires
        writable(steps),
        node_at(root, steps) is Some,
        path_of(steps).len() > 0,
    ensures
        resolve(root, path_of(steps)) == node_at(root, steps),
{
    let segments = step_texts(steps);
    assert forall|i: int| 0 <= i < segments.len() implies !(#[trigger] segments[i]).contains(
        SEPARATOR,
    ) by {
        match steps[i] {
            Step::Key(key) => {},
            Step::Index(index) => {
                lemma_decimal_text(index);
            },
        }
    }
    lemma_split_join(segments, SEPARATOR);
    lemma_descend_follows_steps(root, steps);
}

/// The empty path addresses nothing, whatever the tree.
pub proof fn lemma_empty_path_absent(root: ValueModel)
    ensures
        resolve(root, Seq::<char>::empty()) is None,
{
}

/// A path addresses nothing where its first segment is no key of the root,
/// or the root is no object.
pub proof fn lemma_missing_key_absent(root: ValueModel, path: Seq<char>)
    requires
        root is Object ==> lookup(root->Object_0, split(path, SEPARATOR)[0]) is None,
    ensures
        resolve(root, path) is None,
{
    lemma_split_len(path, SEPARATOR);
}

/// A text has at least one piece.
pub proof fn lemma_split_len(text: Seq<char>, separator: char)
    ensures
        split(text, separator).len() >= 1,
    decreases text.len(),
{
    if text.len() > 0 {
        lemma_split_len(text.drop_last(), separator);
    }
}

} // verus!
