//! The mathematical model of the persistent map: its contents as a sequence
//! of `(id, bytes)` entries in ascending id order, each id at most once.

use vstd::prelude::*;

verus! {

/// Entry ids strictly increase along the sequence; in particular no id
/// occurs twice.
pub open spec fn entries_sorted(s: Seq<(u64, Seq<u8>)>) -> bool {
    forall|i: int, j: int| 0 <= i < j < s.len() ==> s[i].0 < s[j].0
}

/// The bytes stored under an id: those of its first entry, if any. On a
/// sorted sequence the first match is the only one.
pub open spec fn spec_entries_lookup(s: Seq<(u64, Seq<u8>)>, k: u64) -> Option<Seq<u8>>
    decreases s.len(),
{
    if s.len() == 0 {
        None
    } else if s[0].0 == k {
        Some(s[0].1)
    } else {
        spec_entries_lookup(s.drop_first(), k)
    }
}

/// The sequence after storing `v` under `k`: the entry is placed at its
/// ordered position, replacing an existing entry with the same id.
pub open spec fn spec_entries_insert(s: Seq<(u64, Seq<u8>)>, k: u64, v: Seq<u8>) -> Seq<
    (u64, Seq<u8>),
>
    decreases s.len(),
{
    if s.len() == 0 {
        seq![(k, v)]
    } else if k < s[0].0 {
        seq![(k, v)] + s
    } else if k == s[0].0 {
        seq![(k, v)] + s.drop_first()
    } else {
        seq![s[0]] + spec_entries_insert(s.drop_first(), k, v)
    }
}

/// Inserting into a sorted sequence keeps it sorted.
pub proof fn lemma_entries_insert_sorted(s: Seq<(u64, Seq<u8>)>, k: u64, v: Seq<u8>)
    requires
        entries_sorted(s),
    ensures
        entries_sorted(spec_entries_insert(s, k, v)),
    decreases s.len(),
{
    if s.len() == 0 {
    } else if k < s[0].0 {
    } else if k == s[0].0 {
        assert(entries_sorted(s.drop_first()));
    } else {
        assert(entries_sorted(s.drop_first()));
        lemma_entries_insert_sorted(s.drop_first(), k, v);
        let rest = spec_entries_insert(s.drop_first(), k, v);
        let out = seq![s[0]] + rest;
        assert forall|i: int, j: int| 0 <= i < j < out.len() implies out[i].0 < out[j].0 by {
            if i == 0 {
                lemma_entries_insert_keys(s.drop_first(), k, v, j - 1);
            }
        }
    }
}

/// Every id in an inserted sequence is the new id or one already present.
proof fn lemma_entries_insert_keys(s: Seq<(u64, Seq<u8>)>, k: u64, v: Seq<u8>, i: int)
    requires
        0 <= i < spec_entries_insert(s, k, v).len(),
    ensures
        spec_entries_insert(s, k, v)[i].0 == k || exists|j: int|
            0 <= j < s.len() && s[j].0 == #[trigger] spec_entries_insert(s, k, v)[i].0,
    decreases s.len(),
{
    if s.len() == 0 {
    } else if k < s[0].0 {
        if i > 0 {
            assert(s[i - 1].0 == spec_entries_insert(s, k, v)[i].0);
        }
    } else if k == s[0].0 {
        if i > 0 {
            assert(s[i].0 == spec_entries_insert(s, k, v)[i].0);
        }
    } else {
        if i == 0 {
            assert(s[0].0 == spec_entries_insert(s, k, v)[0].0);
        } else {
            lemma_entries_insert_keys(s.drop_first(), k, v, i - 1);
            let inner = spec_entries_insert(s.drop_first(), k, v);
            if inner[i - 1].0 != k {
                let j = choose|j: int|
                    0 <= j < s.drop_first().len() && s.drop_first()[j].0 == inner[i - 1].0;
                assert(s[j + 1].0 == spec_entries_insert(s, k, v)[i].0);
            }
        }
    }
}

} // verus!
