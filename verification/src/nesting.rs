//! How deep the bytes of a binary document are nested, read from the bytes.
//!
//! The `bson` crate reads a nested document by a call within a call and sets
//! no bound of its own. This walk follows the lengths that the bytes state,
//! as that crate does, and so tells before the bytes are handed over whether
//! the nesting stays within `MAX_DEPTH`. Where the bytes cannot be followed
//! any further the walk ends: the crate stops reading there as well.

use crate::value::MAX_DEPTH;
use vstd::prelude::*;

verus! {

/// The length that the four bytes from `at` state, least byte first, or -1
/// where it is negative or four bytes do not stand before `end`.
pub open spec fn length_at(bytes: Seq<u8>, at: int, end: int) -> int {
    if at < 0 || at + 4 > end || bytes[at + 3] >= 128 {
        -1
    } else {
        bytes[at] as int + 256 * (bytes[at + 1] as int) + 65536 * (bytes[at + 2] as int) + 16777216
            * (bytes[at + 3] as int)
    }
}

/// The position of the first zero byte from `at` on, or `end` where none
/// stands before `end`.
pub open spec fn zero_from(bytes: Seq<u8>, at: int, end: int) -> int
    decreases end - at,
{
    if at >= end {
        end
    } else if bytes[at] == 0 {
        at
    } else {
        zero_from(bytes, at + 1, end)
    }
}

/// The number of bytes that the value of an element takes, by the tag of
/// the element and, for some tags, the length stated at the value's
/// beginning; -1 where the tag is none or the length is not a length.
pub open spec fn value_size(bytes: Seq<u8>, tag: u8, at: int, end: int) -> int {
    let stated = length_at(bytes, at, end);
    if tag == 0x08 {
        1
    } else if tag == 0x10 {
        4
    } else if tag == 0x01 || tag == 0x09 || tag == 0x11 || tag == 0x12 {
        8
    } else if tag == 0x07 {
        12
    } else if tag == 0x13 {
        16
    } else if tag == 0x06 || tag == 0x0A || tag == 0x7F || tag == 0xFF {
        0
    } else if tag == 0x02 || tag == 0x0D || tag == 0x0E {
        if stated < 0 {
            -1
        } else {
            stated + 4
        }
    } else if tag == 0x03 || tag == 0x04 {
        if stated < 5 {
            -1
        } else {
            stated
        }
    } else if tag == 0x05 {
        if stated < 0 {
            -1
        } else {
            stated + 5
        }
    } else if tag == 0x0C {
        if stated < 0 {
            -1
        } else {
            stated + 16
        }
    } else if tag == 0x0F {
        stated
    } else if tag == 0x0B {
        let pattern_end = zero_from(bytes, at, end);
        let options_end = zero_from(bytes, pattern_end + 1, end);
        if pattern_end >= end || options_end >= end {
            -1
        } else {
            options_end + 1 - at
        }
    } else {
        -1
    }
}

/// Whether the elements from `at` up to `end`, as far as they can be
/// followed, hold documents and arrays nested at most `budget` deep.
pub open spec fn elements_shallow(bytes: Seq<u8>, at: int, end: int, budget: nat) -> bool
    decreases budget, end - at,
{
    let key_end = zero_from(bytes, at + 1, end);
    let value_at = key_end + 1;
    let size = value_size(bytes, bytes[at], value_at, end);
    if at < 0 || at + 1 >= end || key_end >= end || key_end <= at || size < 0 || value_at + size
        > end {
        true
    } else if (bytes[at] == 0x03 || bytes[at] == 0x04) && (budget == 0 || !elements_shallow(
        bytes,
        value_at + 4,
        value_at + size,
        (budget - 1) as nat,
    )) {
        false
    } else if bytes[at] == 0x0F && scope_at(bytes, value_at, size) >= 0 && (budget == 0
        || !elements_shallow(
        bytes,
        scope_at(bytes, value_at, size) + 4,
        value_at + size,
        (budget - 1) as nat,
    )) {
        false
    } else {
        elements_shallow(bytes, value_at + size, end, budget)
    }
}

/// Where the document of a code with scope begins, or -1 where the value
/// has no room for one.
pub open spec fn scope_at(bytes: Seq<u8>, value_at: int, size: int) -> int {
    let code = length_at(bytes, value_at + 4, value_at + size);
    if code < 0 || 8 + code + 5 > size {
        -1
    } else {
        value_at + 8 + code
    }
}

/// Whether the bytes, as far as they can be followed from the length that
/// they begin with, hold documents and arrays nested at most `MAX_DEPTH`
/// deep, the whole document counted.
pub open spec fn nesting_bounded(bytes: Seq<u8>) -> bool {
    let stated = length_at(bytes, 0, bytes.len() as int);
    if stated < 5 || stated > bytes.len() {
        true
    } else {
        elements_shallow(bytes, 4, stated, (MAX_DEPTH - 1) as nat)
    }
}

/// The length stated at `at`, if it is one.
fn stated_length(bytes: &Vec<u8>, at: usize, end: usize) -> (r: Option<usize>)
    requires
        at <= end <= bytes.len(),
    ensures
        match r {
            Some(length) => length_at(bytes@, at as int, end as int) == length,
            None => length_at(bytes@, at as int, end as int) == -1,
        },
{
    if end - at < 4 || bytes[at + 3] >= 128 {
        None
    } else {
        let low: u32 = bytes[at] as u32 + 256 * (bytes[at + 1] as u32);
        let high: u32 = bytes[at + 2] as u32 + 256 * (bytes[at + 3] as u32);
        let length: u32 = low + 65536 * high;
        Some(length as usize)
    }
}

/// The position of the first zero byte from `at` on.
fn zero_position(bytes: &Vec<u8>, at: usize, end: usize) -> (p: usize)
    requires
        at <= end <= bytes.len(),
    ensures
        p == zero_from(bytes@, at as int, end as int),
        at <= p <= end,
{
    let mut p: usize = at;
    while p < end && bytes[p] != 0
        invariant
            at <= p <= end <= bytes.len(),
            zero_from(bytes@, at as int, end as int) == zero_from(bytes@, p as int, end as int),
        decreases end - p,
    {
        p = p + 1;
    }
    p
}

/// The number of bytes that the value of an element takes.
fn size_of_value(bytes: &Vec<u8>, tag: u8, at: usize, end: usize) -> (r: Option<usize>)
    requires
        at <= end <= bytes.len(),
    ensures
        match r {
            Some(size) => value_size(bytes@, tag, at as int, end as int) == size,
            None => value_size(bytes@, tag, at as int, end as int) < 0,
        },
{
    if tag == 0x08 {
        Some(1)
    } else if tag == 0x10 {
        Some(4)
    } else if tag == 0x01 || tag == 0x09 || tag == 0x11 || tag == 0x12 {
        Some(8)
    } else if tag == 0x07 {
        Some(12)
    } else if tag == 0x13 {
        Some(16)
    } else if tag == 0x06 || tag == 0x0A || tag == 0x7F || tag == 0xFF {
        Some(0)
    } else if tag == 0x0B {
        let pattern_end = zero_position(bytes, at, end);
        if pattern_end >= end {
            return None;
        }
        let options_end = zero_position(bytes, pattern_end + 1, end);
        if options_end >= end {
            return None;
        }
        Some(options_end + 1 - at)
    } else {
        match stated_length(bytes, at, end) {
            None => None,
            Some(stated) => {
                if stated > end - at {
                    proof {
                        assert(value_size(bytes@, tag, at as int, end as int) < 0 || value_size(
                            bytes@,
                            tag,
                            at as int,
                            end as int,
                        ) > end - at);
                    }
                }
                if tag == 0x02 || tag == 0x0D || tag == 0x0E {
                    Some(stated + 4)
                } else if tag == 0x03 || tag == 0x04 {
                    if stated < 5 {
                        None
                    } else {
                        Some(stated)
                    }
                } else if tag == 0x05 {
                    Some(stated + 5)
                } else if tag == 0x0C {
                    Some(stated + 16)
                } else if tag == 0x0F {
                    Some(stated)
                } else {
                    None
                }
            },
        }
    }
}

/// Whether the elements from `start` up to `end` hold documents and arrays
/// nested at most `budget` deep.
fn elements_are_shallow(bytes: &Vec<u8>, start: usize, end: usize, budget: usize) -> (r: bool)
    requires
        start <= end <= bytes.len(),
    ensures
        r == elements_shallow(bytes@, start as int, end as int, budget as nat),
    decreases budget,
{
    let mut at: usize = start;
    loop
        invariant
            start <= at <= end <= bytes.len(),
            elements_shallow(bytes@, start as int, end as int, budget as nat) == elements_shallow(
                bytes@,
                at as int,
                end as int,
                budget as nat,
            ),
        decreases end - at,
    {
        if end - at <= 1 {
            return true;
        }
        let key_end = zero_position(bytes, at + 1, end);
        if key_end >= end {
            return true;
        }
        let value_at = key_end + 1;
        let tag = bytes[at];
        match size_of_value(bytes, tag, value_at, end) {
            None => {
                return true;
            },
            Some(size) => {
                if size > end - value_at {
                    return true;
                }
                if tag == 0x03 || tag == 0x04 {
                    if budget == 0 {
                        return false;
                    }
                    if !elements_are_shallow(bytes, value_at + 4, value_at + size, budget - 1) {
                        return false;
                    }
                } else if tag == 0x0F && size >= 13 {
                    match stated_length(bytes, value_at + 4, value_at + size) {
                        None => {},
                        Some(code) => {
                            if code <= size - 13 {
                                if budget == 0 {
                                    return false;
                                }
                                if !elements_are_shallow(
                                    bytes,
                                    value_at + 8 + code + 4,
                                    value_at + size,
                                    budget - 1,
                                ) {
                                    return false;
                                }
                            }
                        },
                    }
                }
                at = value_at + size;
            },
        }
    }
}

/// Whether the bytes hold documents and arrays nested at most `MAX_DEPTH`
/// deep.
pub fn nesting_within_limit(bytes: &Vec<u8>) -> (r: bool)
    ensures
        r == nesting_bounded(bytes@),
{
    match stated_length(bytes, 0, bytes.len()) {
        None => true,
        Some(stated) => {
            if stated < 5 || stated > bytes.len() {
                true
            } else {
                elements_are_shallow(bytes, 4, stated, MAX_DEPTH - 1)
            }
        },
    }
}

} // verus!
