//! The stored record and the store's error taxonomy.

use vstd::prelude::*;

verus! {

/// One stored recipe entry: an assigned identifier plus the caller-supplied
/// fields. A record is created exactly once by an insert and is immutable
/// thereafter; there is no update or delete operation.
#[derive(Debug, Clone, PartialEq, Eq)]
pub struct Recipe {
    pub id: u64,
    pub name: String,
    pub category: String,
    pub ingredients: Vec<String>,
    pub instructions: String,
}

/// The mathematical value of a [`Recipe`]: every string is a sequence of
/// characters.
#[verifier::ext_equal]
pub struct RecipeModel {
    pub id: u64,
    pub name: Seq<char>,
    pub category: Seq<char>,
    pub ingredients: Seq<Seq<char>>,
    pub instructions: Seq<char>,
}

impl View for Recipe {
    type V = RecipeModel;

    open spec fn view(&self) -> RecipeModel {
        RecipeModel {
            id: self.id,
            name: self.name@,
            category: self.category@,
            ingredients: self.ingredients.deep_view(),
            instructions: self.instructions@,
        }
    }
}

impl DeepView for Recipe {
    type V = RecipeModel;

    open spec fn deep_view(&self) -> RecipeModel {
        self.view()
    }
}

/// What can go wrong inside the store.
///
/// Exhaustion of the backing address space is not represented here: the
/// backing crate treats it as fatal, and so does this library.
#[derive(Debug, Clone, Copy, PartialEq, Eq)]
pub enum StoreError {
    /// The record's encoded form exceeds the fixed maximum size; nothing was
    /// stored and no identifier was consumed.
    SizeExceeded,
    /// Bytes read back from the backing memory do not parse as a record.
    /// This can only arise from storage-level corruption, since every byte
    /// written by the store comes from the codec.
    Corrupted,
    /// A record with the same name is already stored; raised only by the
    /// insert variant that enforces name uniqueness.
    DuplicateName,
}

} // verus!
