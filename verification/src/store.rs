//! The record store: a durable counter assigning ids and an ordered
//! persistent map from id to encoded record, both living in fixed slots of
//! one backing memory, with read-only queries over the map's iteration
//! order.

use vstd::prelude::*;
use ic_stable_structures::DefaultMemoryImpl;
use crate::backing::{
    counter_get, counter_init, counter_set, counter_value, map_entries, map_entries_vec, map_get,
    map_init, map_insert, slots_get, slots_init, CounterCell, RecordMap,
};
use crate::codec::{decode, encode, spec_decode, spec_encode, spec_fits};
use crate::model::{entries_sorted, lemma_entries_insert_sorted, spec_entries_insert,
    spec_entries_lookup};
use crate::record::{Recipe, RecipeModel, StoreError};

verus! {

/// The slot index of the id counter.
pub const COUNTER_SLOT: u8 = 0;

/// The slot index of the record map.
pub const RECORDS_SLOT: u8 = 1;

/// Every stored byte string decodes to a record.
pub open spec fn all_decodable(s: Seq<(u64, Seq<u8>)>) -> bool {
    forall|i: int| 0 <= i < s.len() ==> spec_decode(#[trigger] s[i].1) is Some
}

/// The records the entries decode to, in entry order.
pub open spec fn records_of(s: Seq<(u64, Seq<u8>)>) -> Seq<RecipeModel> {
    Seq::new(s.len(), |i: int| spec_decode(s[i].1)->Some_0)
}

/// What a full scan filtered to one category returns when every entry
/// decodes.
pub open spec fn spec_search_by_category(s: Seq<(u64, Seq<u8>)>, c: Seq<char>) -> Seq<
    RecipeModel,
> {
    records_of(s).filter(|r: RecipeModel| r.category == c)
}

/// What a scan for the first record with a name returns: the outer `None`
/// means corruption was hit before any match.
pub open spec fn spec_search_by_name(s: Seq<(u64, Seq<u8>)>, name: Seq<char>) -> Option<
    Option<RecipeModel>,
>
    decreases s.len(),
{
    if s.len() == 0 {
        Some(None)
    } else {
        match spec_decode(s[0].1) {
            None => None,
            Some(r) => if r.name == name {
                Some(Some(r))
            } else {
                spec_search_by_name(s.drop_first(), name)
            },
        }
    }
}

/// What a point lookup returns: the outer `None` means the stored bytes
/// are corrupt, the inner one that the id is absent.
pub open spec fn spec_get(s: Seq<(u64, Seq<u8>)>, id: u64) -> Option<Option<RecipeModel>> {
    match spec_entries_lookup(s, id) {
        None => Some(None),
        Some(b) => match spec_decode(b) {
            None => None,
            Some(r) => Some(Some(r)),
        },
    }
}

/// The caller's fields under the assigned id.
pub open spec fn with_id(r: RecipeModel, id: u64) -> RecipeModel {
    RecipeModel { id, ..r }
}

/// The deep view of one entry of the collected entry vector is the entry
/// of the model sequence.
proof fn lemma_entry_views(entries: &Vec<(u64, Vec<u8>)>, i: int)
    requires
        0 <= i < entries@.len(),
    ensures
        entries.deep_view().len() == entries@.len(),
        entries.deep_view()[i].0 == entries@[i].0,
        entries.deep_view()[i].1 == entries@[i].1@,
{
    assert(entries.deep_view()[i] == entries@[i].deep_view());
    assert(entries@[i].1.deep_view() =~= entries@[i].1@);
}

/// Extending the scanned prefix by one entry appends that entry's record.
proof fn lemma_records_push(s: Seq<(u64, Seq<u8>)>, i: int)
    requires
        0 <= i < s.len(),
    ensures
        records_of(s.take(i + 1)) == records_of(s.take(i)).push(spec_decode(s[i].1)->Some_0),
{
    let lhs = records_of(s.take(i + 1));
    let rhs = records_of(s.take(i)).push(spec_decode(s[i].1)->Some_0);
    assert forall|j: int| 0 <= j < i + 1 implies lhs[j] == rhs[j] by {
        assert(s.take(i + 1)[j] == s[j]);
        if j < i {
            assert(s.take(i)[j] == s[j]);
        }
    }
    assert(lhs =~= rhs);
}

/// A store connected to its backing memory: slot 0 holds the id counter,
/// slot 1 the map from id to encoded record.
pub struct RecipeStore {
    counter: CounterCell,
    map: RecordMap,
}

impl RecipeStore {
    /// The map's entries.
    pub closed spec fn entries(&self) -> Seq<(u64, Seq<u8>)> {
        map_entries(&self.map)
    }

    /// The id the next successful insert will assign.
    pub closed spec fn next_id(&self) -> u64 {
        counter_value(&self.counter)
    }

    /// Entries stay in ascending id order.
    pub open spec fn wf(&self) -> bool {
        entries_sorted(self.entries())
    }

    /// Connects to the store kept in the given backing memory, or lays out
    /// a fresh one (counter zero, no records) where the memory is empty.
    /// Reopening the same memory finds the prior contents intact.
    pub fn open(memory: DefaultMemoryImpl) -> (store: RecipeStore)
        ensures
            store.wf(),
    {
        let mgr = slots_init(memory);
        let counter = counter_init(slots_get(&mgr, COUNTER_SLOT));
        let map = map_init(slots_get(&mgr, RECORDS_SLOT));
        RecipeStore { counter, map }
    }

    /// The current counter value, for callers that must rule out id
    /// exhaustion before inserting.
    pub fn next_id_value(&self) -> (v: u64)
        ensures
            v == self.next_id(),
    {
        counter_get(&self.counter)
    }

    /// Stores the caller's fields under the next id: the record is encoded
    /// first, and only if it fits within the size bound is the counter
    /// advanced and the entry persisted. On failure the store is unchanged
    /// and no id is consumed.
    pub fn add_recipe(&mut self, recipe: Recipe) -> (res: Result<Recipe, StoreError>)
        requires
            old(self).wf(),
            old(self).next_id() < u64::MAX,
        ensures
            final(self).wf(),
            match res {
                Ok(r) => {
                    &&& r@ == with_id(recipe@, old(self).next_id())
                    &&& spec_fits(r@)
                    &&& final(self).next_id() == old(self).next_id() + 1
                    &&& final(self).entries() == spec_entries_insert(
                        old(self).entries(),
                        r@.id,
                        spec_encode(r@),
                    )
                },
                Err(e) => {
                    &&& e == StoreError::SizeExceeded
                    &&& !spec_fits(with_id(recipe@, old(self).next_id()))
                    &&& final(self).entries() == old(self).entries()
                    &&& final(self).next_id() == old(self).next_id()
                },
            },
    {
        let id = counter_get(&self.counter);
        let Recipe { id: _, name, category, ingredients, instructions } = recipe;
        let stored = Recipe { id, name, category, ingredients, instructions };
        proof {
            assert(stored@ =~= with_id(recipe@, id));
        }
        let bytes = match encode(&stored) {
            Ok(b) => b,
            Err(e) => {
                return Err(e);
            },
        };
        counter_set(&mut self.counter, id + 1);
        map_insert(&mut self.map, id, bytes);
        proof {
            lemma_entries_insert_sorted(old(self).entries(), id, spec_encode(stored@));
        }
        Ok(stored)
    }

    /// Stores the caller's fields under the next id as [`Self::add_recipe`]
    /// does, but refuses a name that some stored record already carries.
    /// Whether duplicate names are acceptable is the caller's policy: this
    /// entry point enforces uniqueness, `add_recipe` does not.
    pub fn add_recipe_unique(&mut self, recipe: Recipe) -> (res: Result<Recipe, StoreError>)
        requires
            old(self).wf(),
            old(self).next_id() < u64::MAX,
        ensures
            final(self).wf(),
            match res {
                Ok(r) => {
                    &&& spec_search_by_name(old(self).entries(), recipe@.name) == Some(
                        None::<RecipeModel>,
                    )
                    &&& r@ == with_id(recipe@, old(self).next_id())
                    &&& spec_fits(r@)
                    &&& final(self).next_id() == old(self).next_id() + 1
                    &&& final(self).entries() == spec_entries_insert(
                        old(self).entries(),
                        r@.id,
                        spec_encode(r@),
                    )
                },
                Err(e) => {
                    &&& final(self).entries() == old(self).entries()
                    &&& final(self).next_id() == old(self).next_id()
                    &&& match e {
                        StoreError::DuplicateName => spec_search_by_name(
                            old(self).entries(),
                            recipe@.name,
                        ) matches Some(Some(_)),
                        StoreError::Corrupted => spec_search_by_name(
                            old(self).entries(),
                            recipe@.name,
                        ) is None,
                        StoreError::SizeExceeded => {
                            &&& spec_search_by_name(old(self).entries(), recipe@.name) == Some(
                                None::<RecipeModel>,
                            )
                            &&& !spec_fits(with_id(recipe@, old(self).next_id()))
                        },
                    }
                },
            },
    {
        match self.search_by_name(recipe.name.clone()) {
            Ok(Some(_)) => Err(StoreError::DuplicateName),
            Ok(None) => self.add_recipe(recipe),
            Err(e) => Err(e),
        }
    }

    /// Returns the record stored under an id, or nothing where the id is
    /// absent; corrupt stored bytes are reported, not hidden.
    pub fn get(&self, id: u64) -> (res: Result<Option<Recipe>, StoreError>)
        ensures
            match res {
                Ok(Some(r)) => spec_get(self.entries(), id) == Some(Some(r@)),
                Ok(None) => spec_get(self.entries(), id) == Some(None::<RecipeModel>),
                Err(e) => {
                    &&& e == StoreError::Corrupted
                    &&& spec_get(self.entries(), id) is None
                },
            },
    {
        match map_get(&self.map, id) {
            None => Ok(None),
            Some(b) => {
                proof {
                    assert(b.deep_view() =~= b@);
                }
                match decode(&b) {
                    Ok(r) => Ok(Some(r)),
                    Err(e) => Err(e),
                }
            },
        }
    }

    /// A full scan: every stored record, in ascending id order. Fails
    /// exactly when some stored entry does not decode.
    #[verifier::loop_isolation(false)]
    pub fn get_all_recipes(&self) -> (res: Result<Vec<Recipe>, StoreError>)
        ensures
            match res {
                Ok(v) => {
                    &&& all_decodable(self.entries())
                    &&& v.deep_view() == records_of(self.entries())
                },
                Err(e) => {
                    &&& e == StoreError::Corrupted
                    &&& !all_decodable(self.entries())
                },
            },
    {
        let entries = map_entries_vec(&self.map);
        let n = entries.len();
        let mut out: Vec<Recipe> = Vec::new();
        let mut i: usize = 0;
        while i < n
            invariant
                i <= n,
                n == entries@.len(),
                forall|j: int| 0 <= j < i ==> spec_decode(#[trigger] self.entries()[j].1) is Some,
                out.deep_view() == records_of(self.entries().take(i as int)),
            decreases n - i,
        {
            proof {
                lemma_entry_views(&entries, i as int);
            }
            let b = &entries[i].1;
            match decode(b) {
                Ok(r) => {
                    proof {
                        lemma_records_push(self.entries(), i as int);
                        assert(spec_decode(self.entries()[i as int].1) == Some(r@));
                    }
                    let ghost old_view = out.deep_view();
                    let ghost old_at = out@;
                    out.push(r);
                    proof {
                        assert forall|j: int|
                            0 <= j < out@.len() implies out.deep_view()[j] == old_view.push(r@)[j]
                        by {
                            if j < out@.len() - 1 {
                                assert(out@[j] == old_at[j]);
                            }
                        }
                        assert(out.deep_view() =~= old_view.push(r@));
                        assert(out.deep_view() =~= records_of(
                            self.entries().take(i + 1 as int),
                        ));
                    }
                    i = i + 1;
                },
                Err(_) => {
                    proof {
                        assert(spec_decode(self.entries()[i as int].1) is None);
                    }
                    return Err(StoreError::Corrupted);
                },
            }
        }
        proof {
            assert(self.entries().take(n as int) =~= self.entries());
        }
        Ok(out)
    }

    /// A full scan keeping the records whose category equals the argument,
    /// in ascending id order. Fails exactly when some stored entry does
    /// not decode.
    #[verifier::loop_isolation(false)]
    pub fn search_by_category(&self, category: String) -> (res: Result<Vec<Recipe>, StoreError>)
        ensures
            match res {
                Ok(v) => {
                    &&& all_decodable(self.entries())
                    &&& v.deep_view() == spec_search_by_category(self.entries(), category@)
                },
                Err(e) => {
                    &&& e == StoreError::Corrupted
                    &&& !all_decodable(self.entries())
                },
            },
    {
        let ghost pred = (|r: RecipeModel| r.category == category@);
        let entries = map_entries_vec(&self.map);
        let n = entries.len();
        let mut out: Vec<Recipe> = Vec::new();
        let mut i: usize = 0;
        while i < n
            invariant
                i <= n,
                n == entries@.len(),
                forall|j: int| 0 <= j < i ==> spec_decode(#[trigger] self.entries()[j].1) is Some,
                out.deep_view() == records_of(self.entries().take(i as int)).filter(pred),
            decreases n - i,
        {
            proof {
                lemma_entry_views(&entries, i as int);
            }
            let b = &entries[i].1;
            match decode(b) {
                Ok(r) => {
                    proof {
                        lemma_records_push(self.entries(), i as int);
                        assert(spec_decode(self.entries()[i as int].1) == Some(r@));
                        lemma_filter_push(records_of(self.entries().take(i as int)), pred, r@);
                    }
                    if r.category == category {
                        let ghost old_view = out.deep_view();
                        let ghost old_at = out@;
                        out.push(r);
                        proof {
                            assert forall|j: int|
                                0 <= j < out@.len() implies out.deep_view()[j] == old_view.push(
                                r@,
                            )[j] by {
                                if j < out@.len() - 1 {
                                    assert(out@[j] == old_at[j]);
                                }
                            }
                            assert(out.deep_view() =~= old_view.push(r@));
                            assert(pred(r@));
                        }
                    } else {
                        proof {
                            assert(!pred(r@));
                        }
                    }
                    i = i + 1;
                },
                Err(_) => {
                    proof {
                        assert(spec_decode(self.entries()[i as int].1) is None);
                    }
                    return Err(StoreError::Corrupted);
                },
            }
        }
        proof {
            assert(self.entries().take(n as int) =~= self.entries());
        }
        Ok(out)
    }

    /// A scan in ascending id order returning the first record whose name
    /// equals the argument; where several share the name, the lowest id
    /// wins by construction. Fails only on corrupt bytes met before a
    /// match.
    #[verifier::loop_isolation(false)]
    pub fn search_by_name(&self, name: String) -> (res: Result<Option<Recipe>, StoreError>)
        ensures
            match res {
                Ok(Some(r)) => spec_search_by_name(self.entries(), name@) == Some(Some(r@)),
                Ok(None) => spec_search_by_name(self.entries(), name@) == Some(
                    None::<RecipeModel>,
                ),
                Err(e) => {
                    &&& e == StoreError::Corrupted
                    &&& spec_search_by_name(self.entries(), name@) is None
                },
            },
    {
        let entries = map_entries_vec(&self.map);
        let n = entries.len();
        let mut i: usize = 0;
        proof {
            assert(self.entries().skip(0) =~= self.entries());
        }
        while i < n
            invariant
                i <= n,
                n == entries@.len(),
                spec_search_by_name(self.entries(), name@) == spec_search_by_name(
                    self.entries().skip(i as int),
                    name@,
                ),
            decreases n - i,
        {
            proof {
                lemma_entry_views(&entries, i as int);
                assert(self.entries().skip(i as int)[0] == self.entries()[i as int]);
                assert(self.entries().skip(i as int).drop_first() =~= self.entries().skip(
                    i + 1 as int,
                ));
            }
            let b = &entries[i].1;
            match decode(b) {
                Ok(r) => {
                    proof {
                        assert(spec_decode(self.entries().skip(i as int)[0].1) == Some(r@));
                    }
                    if r.name == name {
                        proof {
                            assert(spec_search_by_name(self.entries().skip(i as int), name@)
                                == Some(Some(r@)));
                        }
                        return Ok(Some(r));
                    }
                    i = i + 1;
                },
                Err(_) => {
                    proof {
                        assert(spec_search_by_name(self.entries().skip(i as int), name@)
                            is None);
                    }
                    return Err(StoreError::Corrupted);
                },
            }
        }
        proof {
            assert(self.entries().skip(n as int) =~= Seq::<(u64, Seq<u8>)>::empty());
        }
        Ok(None)
    }
}

/// Filtering a sequence extended by one element keeps the old result and
/// appends the element exactly when it satisfies the predicate.
proof fn lemma_filter_push(s: Seq<RecipeModel>, pred: spec_fn(RecipeModel) -> bool, x: RecipeModel)
    ensures
        s.push(x).filter(pred) == if pred(x) {
            s.filter(pred).push(x)
        } else {
            s.filter(pred)
        },
{
    reveal(Seq::filter);
    assert(s.push(x).drop_last() =~= s);
    assert(s.push(x).last() == x);
}

/// One run of successful inserts, as their contracts describe it: the k-th
/// insert assigns the counter value it found and leaves the counter one
/// higher for the next.
pub open spec fn counter_steps(nexts: Seq<u64>, recs: Seq<RecipeModel>) -> bool {
    &&& nexts.len() == recs.len() + 1
    &&& forall|k: int|
        0 <= k < recs.len() ==> (#[trigger] recs[k]).id == nexts[k] && nexts[k + 1] == nexts[k]
            + 1
}

/// Ids assigned by a run of successful inserts strictly increase and none
/// repeats.
pub proof fn lemma_insert_ids_strictly_increase(nexts: Seq<u64>, recs: Seq<RecipeModel>)
    requires
        counter_steps(nexts, recs),
    ensures
        forall|i: int, j: int| 0 <= i < j < recs.len() ==> recs[i].id < recs[j].id,
{
    assert forall|i: int, j: int| 0 <= i < j < recs.len() implies recs[i].id < recs[j].id by {
        lemma_counter_advances(nexts, recs, i, j);
        assert(recs[i].id == nexts[i]);
        assert(recs[j].id == nexts[j]);
    }
}

proof fn lemma_counter_advances(nexts: Seq<u64>, recs: Seq<RecipeModel>, i: int, j: int)
    requires
        counter_steps(nexts, recs),
        0 <= i <= j < nexts.len(),
    ensures
        nexts[j] == nexts[i] + (j - i),
    decreases j - i,
{
    if i < j {
        lemma_counter_advances(nexts, recs, i, j - 1);
        assert(recs[j - 1].id == nexts[j - 1]);
    }
}

/// A category search returns exactly the members of the full scan whose
/// category equals the argument, in the full scan's order.
pub proof fn lemma_category_partition(s: Seq<(u64, Seq<u8>)>, c: Seq<char>)
    ensures
        spec_search_by_category(s, c) == records_of(s).filter(|r: RecipeModel| r.category == c),
        forall|i: int|
            0 <= i < spec_search_by_category(s, c).len() ==> (#[trigger] spec_search_by_category(
                s,
                c,
            )[i]).category == c,
{
    broadcast use vstd::seq_lib::group_filter_ensures;

    let pred = (|r: RecipeModel| r.category == c);
    assert forall|i: int| 0 <= i < spec_search_by_category(s, c).len() implies (
    #[trigger] spec_search_by_category(s, c)[i]).category == c by {
        assert(pred(records_of(s).filter(pred)[i]));
    }
}

} // verus!
