//! Keys: the names of ingredients, of query instances and of dependencies.

use vstd::prelude::*;
use vstd::std_specs::convert::FromSpecImpl;

verus! {

/// Names an ingredient of the database: a tracked function, an input, a table
/// of entities.
#[derive(Copy, Clone, Debug, PartialEq, Eq, PartialOrd, Ord, Hash, Structural)]
pub struct IngredientIndex(pub u32);

/// Names one row of an ingredient.
#[derive(Copy, Clone, Debug, PartialEq, Eq, PartialOrd, Ord, Hash, Structural)]
pub struct Id(pub u32);

/// Names one query instance: an ingredient together with a row of it.
///
/// Keys are ordered by their ingredient first and by their row second. The
/// order says nothing about the queries; it serves to put keys into a fixed
/// sequence.
#[derive(Copy, Clone, Debug, PartialEq, Eq, PartialOrd, Ord, Hash, Structural)]
pub struct DatabaseKeyIndex {
    pub ingredient_index: IngredientIndex,
    pub key_index: Id,
}

impl DatabaseKeyIndex {
    /// The order on keys, as a relation that is never reflexive.
    pub open spec fn spec_precedes(self, other: DatabaseKeyIndex) -> bool {
        ||| self.ingredient_index.0 < other.ingredient_index.0
        ||| self.ingredient_index.0 == other.ingredient_index.0 && self.key_index.0
            < other.key_index.0
    }

    /// True if this key comes strictly before `other`.
    pub fn precedes(self, other: DatabaseKeyIndex) -> (before: bool)
        ensures
            before == self.spec_precedes(other),
    {
        self.ingredient_index.0 < other.ingredient_index.0 || (self.ingredient_index.0
            == other.ingredient_index.0 && self.key_index.0 < other.key_index.0)
    }
}

/// Names something that a query can depend on: one query instance, or the
/// whole table of an ingredient.
#[derive(Copy, Clone, Debug, PartialEq, Eq, PartialOrd, Ord, Hash)]
pub struct DependencyIndex {
    pub ingredient_index: IngredientIndex,
    /// `None` stands for the whole table.
    pub key_index: Option<Id>,
}

impl DependencyIndex {
    /// The dependency on the whole table of an ingredient.
    pub open spec fn spec_for_table(ingredient_index: IngredientIndex) -> DependencyIndex {
        DependencyIndex { ingredient_index, key_index: None }
    }

    /// The dependency on one query instance.
    pub open spec fn spec_for_key(key: DatabaseKeyIndex) -> DependencyIndex {
        DependencyIndex {
            ingredient_index: key.ingredient_index,
            key_index: Some(key.key_index),
        }
    }

    /// The dependency on the whole table of an ingredient.
    pub fn for_table(ingredient_index: IngredientIndex) -> (table: DependencyIndex)
        ensures
            table == DependencyIndex::spec_for_table(ingredient_index),
    {
        DependencyIndex { ingredient_index, key_index: None }
    }

    /// True if both name the same thing.
    pub fn same(self, other: DependencyIndex) -> (same: bool)
        ensures
            same == (self == other),
    {
        self.ingredient_index.0 == other.ingredient_index.0 && match (
            self.key_index,
            other.key_index,
        ) {
            (Some(a), Some(b)) => a.0 == b.0,
            (None, None) => true,
            _ => false,
        }
    }
}

impl From<DatabaseKeyIndex> for DependencyIndex {
    fn from(key: DatabaseKeyIndex) -> (dependency: DependencyIndex) {
        DependencyIndex {
            ingredient_index: key.ingredient_index,
            key_index: Some(key.key_index),
        }
    }
}

impl FromSpecImpl<DatabaseKeyIndex> for DependencyIndex {
    open spec fn obeys_from_spec() -> bool {
        true
    }

    open spec fn from_spec(key: DatabaseKeyIndex) -> DependencyIndex {
        DependencyIndex::spec_for_key(key)
    }
}

} // verus!
