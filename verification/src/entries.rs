//! Keyed entries in insertion order, as the maps of the outside crates keep
//! them: a key occurs once, and a second insertion under a key replaces the
//! value where the key stands.

use vstd::prelude::*;

verus! {

/// The position of the first entry under `key`.
pub open spec fn position<M>(entries: Seq<(Seq<char>, M)>, key: Seq<char>) -> Option<int>
    decreases entries.len(),
{
    if entries.len() == 0 {
        None
    } else if entries.last().0 == key && position(entries.drop_last(), key) is None {
        Some(entries.len() - 1)
    } else {
        position(entries.drop_last(), key)
    }
}

/// The entries after the insertion of `value` under `key`: the value
/// replaces the one that the key had, or else the entry comes last.
pub open spec fn upsert<M>(entries: Seq<(Seq<char>, M)>, key: Seq<char>, value: M) -> Seq<
    (Seq<char>, M),
> {
    match position(entries, key) {
        Some(at) => entries.update(at, (key, value)),
        None => entries.push((key, value)),
    }
}

/// Whether no key occurs twice.
pub open spec fn distinct_keys<M>(entries: Seq<(Seq<char>, M)>) -> bool {
    forall|i: int, j: int|
        0 <= i < j < entries.len() ==> (#[trigger] entries[i]).0 != (#[trigger] entries[j]).0
}

/// A position is that of an entry with the key, and `None` means that no
/// entry has the key.
pub proof fn lemma_position<M>(entries: Seq<(Seq<char>, M)>, key: Seq<char>)
    ensures
        match position(entries, key) {
            Some(at) => 0 <= at < entries.len() && entries[at].0 == key,
            None => forall|i: int| 0 <= i < entries.len() ==> (#[trigger] entries[i]).0 != key,
        },
    decreases entries.len(),
{
    if entries.len() > 0 {
        lemma_position(entries.drop_last(), key);
        if position(entries, key) is None {
            assert forall|i: int| 0 <= i < entries.len() implies (#[trigger] entries[i]).0
                != key by {
                if i < entries.len() - 1 {
                    assert(entries.drop_last()[i] == entries[i]);
                }
            }
        }
    }
}

} // verus!
