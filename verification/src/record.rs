//! The persisted form of the provenance store: root records with their
//! children nested inside them.

use vstd::prelude::*;

use crate::forest::{Entry, Forest};
use crate::text::texts;

verus! {

/// One record of the persisted store.
#[derive(Debug)]
pub struct TableEntry {
    /// The labels of the dataset.
    pub labels: Vec<String>,
    /// The display name of the dataset.
    pub name: String,
    /// What was derived from the dataset, by key.
    pub children: Vec<(String, TableEntry)>,
    /// The key of the dataset it was derived from, in a list of one.
    pub parent: Option<Vec<String>>,
}

/// The parent that a record names: the first key of its list.
pub open spec fn record_parent(e: TableEntry) -> Option<Seq<char>> {
    match e.parent {
        Some(v) => if v@.len() > 0 {
            Some(v@[0]@)
        } else {
            None
        },
        None => None,
    }
}

/// What a record says of its own dataset.
pub open spec fn record_entry(e: TableEntry) -> Entry {
    Entry { name: e.name@, labels: texts(e.labels@), parent: record_parent(e) }
}

/// Whether a record names exactly the parent `parent`.
pub open spec fn names_parent(e: TableEntry, parent: Option<Seq<char>>) -> bool {
    match parent {
        Some(p) => e.parent matches Some(v) && v@.len() == 1 && v@[0]@ == p,
        None => e.parent is None,
    }
}

/// The entries that the record `e`, filed under `key`, holds: its own and
/// those of the records nested in it.
pub open spec fn tree_map(key: Seq<char>, e: TableEntry) -> Forest
    decreases e, 0nat,
{
    forest_map(e.children@, e.children@.len()).insert(key, record_entry(e))
}

/// The entries that the first `n` records of `entries` hold.
pub open spec fn forest_map(entries: Seq<(String, TableEntry)>, n: nat) -> Forest
    decreases entries, n,
{
    if n == 0 || n > entries.len() {
        Map::empty()
    } else {
        forest_map(entries, (n - 1) as nat).union_prefer_right(
            tree_map(entries[n - 1].0@, entries[n - 1].1),
        )
    }
}

/// Whether the record `e`, filed under `key`, is well-formed as a child of
/// `parent`: it names that parent, its nested records are well-formed as
/// its children, and no key occurs twice in it.
pub open spec fn valid_tree(key: Seq<char>, e: TableEntry, parent: Option<Seq<char>>) -> bool
    decreases e, 0nat,
{
    &&& names_parent(e, parent)
    &&& valid_forest(e.children@, e.children@.len(), Some(key))
    &&& !forest_map(e.children@, e.children@.len()).dom().contains(key)
}

/// Whether the first `n` records of `entries` are well-formed as children
/// of `parent`, and no key occurs in two of them.
pub open spec fn valid_forest(
    entries: Seq<(String, TableEntry)>,
    n: nat,
    parent: Option<Seq<char>>,
) -> bool
    decreases entries, n,
{
    if n == 0 || n > entries.len() {
        true
    } else {
        &&& valid_forest(entries, (n - 1) as nat, parent)
        &&& valid_tree(entries[n - 1].0@, entries[n - 1].1, parent)
        &&& forest_map(entries, (n - 1) as nat).dom().disjoint(
            tree_map(entries[n - 1].0@, entries[n - 1].1).dom(),
        )
    }
}

/// The first `n` records hold what the first `i` of them hold, and what
/// each single one of them holds.
pub proof fn lemma_forest_map_grows(entries: Seq<(String, TableEntry)>, i: nat, n: nat)
    requires
        i <= n <= entries.len(),
    ensures
        forest_map(entries, i).dom().subset_of(forest_map(entries, n).dom()),
        i < n ==> tree_map(entries[i as int].0@, entries[i as int].1).dom().subset_of(
            forest_map(entries, n).dom(),
        ),
    decreases n - i,
{
    if i < n {
        lemma_forest_map_grows(entries, i + 1, n);
        assert(forest_map(entries, i + 1) == forest_map(entries, i).union_prefer_right(
            tree_map(entries[i as int].0@, entries[i as int].1),
        ));
    }
}

/// Where the first `n` records are well-formed, so are the first `i`.
pub proof fn lemma_valid_forest_prefix(
    entries: Seq<(String, TableEntry)>,
    i: nat,
    n: nat,
    parent: Option<Seq<char>>,
)
    requires
        i <= n <= entries.len(),
        valid_forest(entries, n, parent),
    ensures
        valid_forest(entries, i, parent),
    decreases n - i,
{
    if i < n {
        lemma_valid_forest_prefix(entries, i + 1, n, parent);
    }
}

/// What the first `n` records hold, and whether they are well-formed,
/// depends on those records only.
pub proof fn lemma_forest_map_prefix(
    a: Seq<(String, TableEntry)>,
    b: Seq<(String, TableEntry)>,
    n: nat,
    parent: Option<Seq<char>>,
)
    requires
        n <= a.len(),
        n <= b.len(),
        forall|i: int| 0 <= i < n ==> a[i] == b[i],
    ensures
        forest_map(a, n) == forest_map(b, n),
        valid_forest(a, n, parent) == valid_forest(b, n, parent),
    decreases n,
{
    if n > 0 {
        lemma_forest_map_prefix(a, b, (n - 1) as nat, parent);
    }
}

/// What a persisted store loads as: the entries its records hold, where
/// the records are well-formed roots.
pub open spec fn spec_from_roots(entries: Seq<(String, TableEntry)>) -> Option<Forest> {
    if valid_forest(entries, entries.len(), None) {
        Some(forest_map(entries, entries.len()))
    } else {
        None
    }
}

} // verus!
