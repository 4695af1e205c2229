//! The model of the provenance store: a forest of entries, each naming
//! the dataset it was derived from, and what the operations of the store
//! do to it.

use vstd::prelude::*;

verus! {

/// What the store knows of one dataset.
pub struct Entry {
    /// The display name of the dataset.
    pub name: Seq<char>,
    /// Its labels, each written as a label name, a space and a value.
    pub labels: Seq<Seq<char>>,
    /// The key of the dataset it was derived from, if any.
    pub parent: Option<Seq<char>>,
}

/// The mathematical model of a store: its entries by key.
pub type Forest = Map<Seq<char>, Entry>;

/// The entry reached from `k` by following `n` parent references.
pub open spec fn up(m: Forest, k: Seq<char>, n: nat) -> Option<Seq<char>>
    decreases n,
{
    if n == 0 {
        if m.dom().contains(k) {
            Some(k)
        } else {
            None
        }
    } else {
        match up(m, k, (n - 1) as nat) {
            Some(a) => m[a].parent,
            None => None,
        }
    }
}

/// Whether `x` is `d` itself or was derived from it, directly or through
/// other datasets.
pub open spec fn in_subtree(m: Forest, d: Seq<char>, x: Seq<char>) -> bool {
    exists|n: nat| up(m, x, n) == Some(d)
}

/// Whether `x` was derived from `a`, directly or through other datasets.
pub open spec fn is_descendant(m: Forest, a: Seq<char>, x: Seq<char>) -> bool {
    exists|n: nat| n >= 1 && up(m, x, n) == Some(a)
}

/// Whether `rank` decreases along every parent reference of `m`, and every
/// parent named is itself an entry.
pub open spec fn ranked(m: Forest, rank: spec_fn(Seq<char>) -> nat) -> bool {
    forall|k: Seq<char>| #[trigger]
        m.dom().contains(k) ==> (m[k].parent matches Some(p) ==> m.dom().contains(p) && rank(p)
            < rank(k))
}

/// Whether `m` is a forest: every parent named is an entry, and no entry
/// is its own ancestor.
pub open spec fn is_forest(m: Forest) -> bool {
    exists|rank: spec_fn(Seq<char>) -> nat| ranked(m, rank)
}

/// Whether `source` has `target` as a direct child.
pub open spec fn has_edge(m: Forest, target: Seq<char>, source: Seq<char>) -> bool {
    m.dom().contains(source) && m.dom().contains(target) && m[target].parent == Some(source)
}

/// The direct children of `source`.
pub open spec fn children(m: Forest, source: Seq<char>) -> Set<Seq<char>> {
    Set::new(|k: Seq<char>| has_edge(m, k, source))
}

/// The entry of a dataset that was derived from nothing.
pub open spec fn root_entry(name: Seq<char>, labels: Seq<Seq<char>>) -> Entry {
    Entry { name, labels, parent: None }
}

/// The entry of a dataset that was derived from `source`.
pub open spec fn child_entry(name: Seq<char>, labels: Seq<Seq<char>>, source: Seq<char>) -> Entry {
    Entry { name, labels, parent: Some(source) }
}

/// Whether deriving `target` from `source` would make `target` its own
/// ancestor: the two are the same, or `source` was derived from `target`.
pub open spec fn derive_rejected(m: Forest, target: Seq<char>, source: Seq<char>) -> bool {
    target == source || in_subtree(m, target, source)
}

/// The store after `target` was derived from `source`: `source` is added
/// as a root if it was not tracked, and `target` becomes a child of
/// `source` that carries `labels`. What was derived from `target` stays
/// derived from it.
pub open spec fn spec_derive(
    m: Forest,
    target: Seq<char>,
    name: Seq<char>,
    labels: Seq<Seq<char>>,
    source: Seq<char>,
    source_name: Seq<char>,
    source_labels: Seq<Seq<char>>,
) -> Forest {
    let with_source = if m.dom().contains(source) {
        m
    } else {
        m.insert(source, root_entry(source_name, source_labels))
    };
    with_source.insert(target, child_entry(name, labels, source))
}

/// Whether renaming `old_key` to `new_key` would make the entry its own ancestor:
/// `old_key` was derived from the dataset that `new_key` names.
pub open spec fn rename_rejected(m: Forest, new_key: Seq<char>, old_key: Seq<char>) -> bool {
    is_descendant(m, new_key, old_key)
}

/// A parent reference after `old_key` was renamed to `new_key`.
pub open spec fn renamed_parent(parent: Option<Seq<char>>, new_key: Seq<char>, old_key: Seq<char>) -> Option<
    Seq<char>,
> {
    if parent == Some(old_key) {
        Some(new_key)
    } else {
        parent
    }
}

/// The store after `old_key` was renamed to `new_key`: the entry keeps its labels
/// and its parent, takes `new_key` as key and name, and what was derived from
/// `old_key` or from a dataset formerly tracked as `new_key` is now derived from it.
pub open spec fn spec_rename(m: Forest, new_key: Seq<char>, old_key: Seq<char>) -> Forest {
    Map::new(
        |k: Seq<char>| k == new_key || (k != old_key && m.dom().contains(k)),
        |k: Seq<char>|
            if k == new_key {
                Entry { name: new_key, labels: m[old_key].labels, parent: m[old_key].parent }
            } else {
                Entry {
                    name: m[k].name,
                    labels: m[k].labels,
                    parent: renamed_parent(m[k].parent, new_key, old_key),
                }
            },
    )
}

/// The store after `dataset` was revoked: the entries that are neither
/// `dataset` nor derived from it, unchanged.
pub open spec fn spec_revoke(m: Forest, dataset: Seq<char>) -> Forest {
    m.restrict(Set::new(|k: Seq<char>| !in_subtree(m, dataset, k)))
}

/// Once the walk upwards has left the store, it stays outside.
pub proof fn lemma_up_none(m: Forest, k: Seq<char>, n: nat, j: nat)
    requires
        up(m, k, n) is None,
        j >= n,
    ensures
        up(m, k, j) is None,
    decreases j,
{
    if j > n {
        lemma_up_none(m, k, n, (j - 1) as nat);
    }
}

/// In a forest the walk upwards passes through entries only, and the rank
/// never grows on the way.
pub proof fn lemma_up_rank(m: Forest, rank: spec_fn(Seq<char>) -> nat, k: Seq<char>, n: nat)
    requires
        ranked(m, rank),
        up(m, k, n) is Some,
    ensures
        m.dom().contains(k),
        m.dom().contains(up(m, k, n)->0),
        rank(up(m, k, n)->0) + n <= rank(k),
    decreases n,
{
    if n > 0 {
        lemma_up_rank(m, rank, k, (n - 1) as nat);
        let a = up(m, k, (n - 1) as nat)->0;
        assert(m.dom().contains(a));
    }
}

/// Walking `n + 1` steps up from an entry is walking `n` steps up from its
/// parent.
pub proof fn lemma_up_shift(m: Forest, rank: spec_fn(Seq<char>) -> nat, k: Seq<char>, n: nat)
    requires
        ranked(m, rank),
        m.dom().contains(k),
    ensures
        up(m, k, n + 1) == match m[k].parent {
            Some(p) => up(m, p, n),
            None => None,
        },
    decreases n,
{
    assert(up(m, k, n + 1) == match up(m, k, n) {
        Some(a) => m[a].parent,
        None => None,
    });
    if n == 0 {
        assert(up(m, k, 0) == Some(k));
        if let Some(p) = m[k].parent {
            assert(m.dom().contains(p));
            assert(up(m, p, 0) == Some(p));
        }
    } else {
        lemma_up_shift(m, rank, k, (n - 1) as nat);
        if let Some(p) = m[k].parent {
            assert(up(m, p, n) == match up(m, p, (n - 1) as nat) {
                Some(a) => m[a].parent,
                None => None,
            });
        }
    }
}

/// An entry whose parent lies in the subtree of `d` lies in it too.
pub proof fn lemma_child_in_subtree(
    m: Forest,
    rank: spec_fn(Seq<char>) -> nat,
    d: Seq<char>,
    k: Seq<char>,
)
    requires
        ranked(m, rank),
        m.dom().contains(k),
        m[k].parent is Some,
        in_subtree(m, d, m[k].parent->0),
    ensures
        is_descendant(m, d, k),
        in_subtree(m, d, k),
{
    let p = m[k].parent->0;
    let n = choose|n: nat| up(m, p, n) == Some(d);
    lemma_up_shift(m, rank, k, n);
    assert(up(m, k, n + 1) == Some(d));
}

/// An entry below `d` has a parent, and that parent is `d` or below it.
pub proof fn lemma_parent_in_subtree(
    m: Forest,
    rank: spec_fn(Seq<char>) -> nat,
    d: Seq<char>,
    k: Seq<char>,
)
    requires
        ranked(m, rank),
        in_subtree(m, d, k),
        k != d,
    ensures
        m.dom().contains(k),
        m[k].parent is Some,
        in_subtree(m, d, m[k].parent->0),
        is_descendant(m, d, k),
{
    let n = choose|n: nat| up(m, k, n) == Some(d);
    lemma_up_rank(m, rank, k, n);
    assert(n > 0);
    lemma_up_shift(m, rank, k, (n - 1) as nat);
    assert(up(m, k, n) == Some(d));
}

/// No entry of a forest is below itself, and what is below an entry has a
/// larger rank.
pub proof fn lemma_descendant_rank(
    m: Forest,
    rank: spec_fn(Seq<char>) -> nat,
    a: Seq<char>,
    x: Seq<char>,
)
    requires
        ranked(m, rank),
        is_descendant(m, a, x),
    ensures
        rank(a) < rank(x),
        a != x,
        in_subtree(m, a, x),
        m.dom().contains(a),
        m.dom().contains(x),
{
    let n = choose|n: nat| n >= 1 && up(m, x, n) == Some(a);
    lemma_up_rank(m, rank, x, n);
}

/// The subtree of an entry holds entries only; the subtree of anything
/// else is empty.
pub proof fn lemma_subtree_in_dom(
    m: Forest,
    rank: spec_fn(Seq<char>) -> nat,
    d: Seq<char>,
    x: Seq<char>,
)
    requires
        ranked(m, rank),
        in_subtree(m, d, x),
    ensures
        m.dom().contains(d),
        m.dom().contains(x),
        rank(d) <= rank(x),
{
    let n = choose|n: nat| up(m, x, n) == Some(d);
    lemma_up_rank(m, rank, x, n);
}

/// The store with `source` tracked: as it is, or with `source` added as a root.
pub open spec fn with_source(
    m: Forest,
    source: Seq<char>,
    source_name: Seq<char>,
    source_labels: Seq<Seq<char>>,
) -> Forest {
    if m.dom().contains(source) {
        m
    } else {
        m.insert(source, root_entry(source_name, source_labels))
    }
}

/// A rank for the store after `target` was derived from `source`: `target`
/// and what is below it move above `source`.
pub open spec fn derive_rank(
    m: Forest,
    rank: spec_fn(Seq<char>) -> nat,
    target: Seq<char>,
    source: Seq<char>,
) -> spec_fn(Seq<char>) -> nat {
    |k: Seq<char>|
        if k == target || in_subtree(m, target, k) {
            (rank(k) + rank(source) + 1) as nat
        } else {
            rank(k)
        }
}

/// Deriving keeps the store a forest, unless the derivation is rejected.
pub proof fn lemma_derive_ranked(
    m: Forest,
    rank: spec_fn(Seq<char>) -> nat,
    target: Seq<char>,
    name: Seq<char>,
    labels: Seq<Seq<char>>,
    source: Seq<char>,
    source_name: Seq<char>,
    source_labels: Seq<Seq<char>>,
)
    requires
        ranked(m, rank),
        !derive_rejected(m, target, source),
    ensures
        ranked(
            spec_derive(m, target, name, labels, source, source_name, source_labels),
            derive_rank(with_source(m, source, source_name, source_labels), rank, target, source),
        ),
{
    let middle = with_source(m, source, source_name, source_labels);
    let after = spec_derive(m, target, name, labels, source, source_name, source_labels);
    let lifted = derive_rank(middle, rank, target, source);
    assert(ranked(middle, rank));
    assert(!in_subtree(middle, target, source)) by {
        if in_subtree(middle, target, source) {
            if !m.dom().contains(source) {
                lemma_parent_in_subtree(middle, rank, target, source);
            }
        }
    }
    assert forall|k: Seq<char>| #[trigger]
        after.dom().contains(k) implies (after[k].parent matches Some(p) ==> after.dom().contains(p)
        && lifted(p) < lifted(k)) by {
        if k == target {
            assert(middle.dom().contains(source));
        } else if let Some(p) = after[k].parent {
            assert(middle.dom().contains(k));
            assert(middle[k].parent == Some(p));
            assert(middle.dom().contains(p));
            if in_subtree(middle, target, k) {
                lemma_parent_in_subtree(middle, rank, target, k);
            } else if p == target || in_subtree(middle, target, p) {
                if p == target {
                    assert(up(middle, p, 0) == Some(target));
                }
                lemma_child_in_subtree(middle, rank, target, k);
            }
        }
    }
}

/// A rank for the store after `old_key` was renamed to `new_key`: the
/// renamed entry keeps its rank, and what was derived from the entry that
/// gave way moves above it.
pub open spec fn rename_rank(
    m: Forest,
    rank: spec_fn(Seq<char>) -> nat,
    new_key: Seq<char>,
    old_key: Seq<char>,
) -> spec_fn(Seq<char>) -> nat {
    |k: Seq<char>|
        if k == new_key {
            rank(old_key)
        } else if is_descendant(m, new_key, k) {
            (rank(k) + rank(old_key) + 1) as nat
        } else {
            rank(k)
        }
}

/// Renaming keeps the store a forest, unless the renaming is rejected.
pub proof fn lemma_rename_ranked(
    m: Forest,
    rank: spec_fn(Seq<char>) -> nat,
    new_key: Seq<char>,
    old_key: Seq<char>,
)
    requires
        ranked(m, rank),
        m.dom().contains(old_key),
        !rename_rejected(m, new_key, old_key),
    ensures
        ranked(spec_rename(m, new_key, old_key), rename_rank(m, rank, new_key, old_key)),
{
    let after = spec_rename(m, new_key, old_key);
    let lifted = rename_rank(m, rank, new_key, old_key);
    assert forall|k: Seq<char>| #[trigger]
        after.dom().contains(k) implies (after[k].parent matches Some(p) ==> after.dom().contains(p)
        && lifted(p) < lifted(k)) by {
        if k == new_key {
            if let Some(p) = m[old_key].parent {
                assert(m.dom().contains(p));
                assert(p != old_key);
                if p == new_key || is_descendant(m, new_key, p) {
                    if p == new_key {
                        assert(up(m, p, 0) == Some(new_key));
                    } else {
                        lemma_descendant_rank(m, rank, new_key, p);
                    }
                    lemma_child_in_subtree(m, rank, new_key, old_key);
                }
            }
        } else if let Some(q) = m[k].parent {
            assert(m.dom().contains(k));
            assert(m.dom().contains(q));
            if q == old_key {
            } else if q == new_key {
                assert(up(m, q, 0) == Some(new_key));
                lemma_child_in_subtree(m, rank, new_key, k);
            } else if is_descendant(m, new_key, k) {
                lemma_descendant_rank(m, rank, new_key, k);
                lemma_parent_in_subtree(m, rank, new_key, k);
                let n = choose|n: nat| up(m, q, n) == Some(new_key);
                assert(n >= 1) by {
                    if n == 0 {
                        assert(up(m, q, 0) == Some(q));
                    }
                }
            } else if is_descendant(m, new_key, q) {
                lemma_descendant_rank(m, rank, new_key, q);
                lemma_child_in_subtree(m, rank, new_key, k);
            }
        }
    }
}

/// Revoking keeps the store a forest.
pub proof fn lemma_revoke_ranked(m: Forest, rank: spec_fn(Seq<char>) -> nat, dataset: Seq<char>)
    requires
        ranked(m, rank),
    ensures
        ranked(spec_revoke(m, dataset), rank),
{
    let after = spec_revoke(m, dataset);
    assert forall|k: Seq<char>| #[trigger]
        after.dom().contains(k) implies (after[k].parent matches Some(p) ==> after.dom().contains(p)
        && rank(p) < rank(k)) by {
        if let Some(p) = after[k].parent {
            assert(m.dom().contains(k));
            assert(m.dom().contains(p));
            if in_subtree(m, dataset, p) {
                lemma_child_in_subtree(m, rank, dataset, k);
            }
        }
    }
}

/// What is below an entry of the subtree of `d` is in the subtree of `d`.
pub proof fn lemma_subtree_transitive(
    m: Forest,
    rank: spec_fn(Seq<char>) -> nat,
    d: Seq<char>,
    a: Seq<char>,
    k: Seq<char>,
)
    requires
        ranked(m, rank),
        in_subtree(m, d, a),
        in_subtree(m, a, k),
    ensures
        in_subtree(m, d, k),
    decreases rank(k),
{
    if k != a {
        lemma_parent_in_subtree(m, rank, a, k);
        let p = m[k].parent->0;
        assert(rank(p) < rank(k));
        lemma_subtree_transitive(m, rank, d, a, p);
        lemma_child_in_subtree(m, rank, d, k);
    }
}

/// The entries of the subtree of `d`: `d` and what was derived from it.
pub open spec fn subtree_map(m: Forest, d: Seq<char>) -> Forest {
    m.restrict(Set::new(|k: Seq<char>| in_subtree(m, d, k)))
}

/// Walking on from where a walk has arrived is one longer walk.
pub proof fn lemma_up_compose(m: Forest, k: Seq<char>, i: nat, n: nat)
    requires
        up(m, k, i) is Some,
        m.dom().contains(up(m, k, i)->0),
    ensures
        up(m, k, i + n) == up(m, up(m, k, i)->0, n),
    decreases n,
{
    if n > 0 {
        lemma_up_compose(m, k, i, (n - 1) as nat);
    }
}

/// Two entries that a third was derived from lie on one line: one of them
/// was derived from the other, or they are the same.
pub proof fn lemma_comparable(
    m: Forest,
    rank: spec_fn(Seq<char>) -> nat,
    a: Seq<char>,
    b: Seq<char>,
    k: Seq<char>,
)
    requires
        ranked(m, rank),
        in_subtree(m, a, k),
        in_subtree(m, b, k),
    ensures
        in_subtree(m, a, b) || in_subtree(m, b, a),
{
    let i = choose|i: nat| up(m, k, i) == Some(a);
    let j = choose|j: nat| up(m, k, j) == Some(b);
    lemma_up_rank(m, rank, k, i);
    lemma_up_rank(m, rank, k, j);
    if i <= j {
        lemma_up_compose(m, k, i, (j - i) as nat);
        assert(up(m, a, (j - i) as nat) == Some(b));
    } else {
        lemma_up_compose(m, k, j, (i - j) as nat);
        assert(up(m, b, (i - j) as nat) == Some(a));
    }
}

/// Two different entries with the same parent, or both without one, have
/// nothing below them in common.
pub proof fn lemma_siblings_disjoint(
    m: Forest,
    rank: spec_fn(Seq<char>) -> nat,
    a: Seq<char>,
    b: Seq<char>,
    k: Seq<char>,
)
    requires
        ranked(m, rank),
        m.dom().contains(a),
        m.dom().contains(b),
        a != b,
        m[a].parent == m[b].parent,
    ensures
        !(in_subtree(m, a, k) && in_subtree(m, b, k)),
{
    if in_subtree(m, a, k) && in_subtree(m, b, k) {
        lemma_comparable(m, rank, a, b, k);
        if in_subtree(m, a, b) {
            lemma_parent_in_subtree(m, rank, a, b);
            lemma_subtree_in_dom(m, rank, a, m[b].parent->0);
        } else {
            lemma_parent_in_subtree(m, rank, b, a);
            lemma_subtree_in_dom(m, rank, b, m[a].parent->0);
        }
    }
}

/// What lies below `d` lies in the subtree of a direct child of `d`.
pub proof fn lemma_below_child(
    m: Forest,
    rank: spec_fn(Seq<char>) -> nat,
    d: Seq<char>,
    k: Seq<char>,
) -> (c: Seq<char>)
    requires
        ranked(m, rank),
        in_subtree(m, d, k),
        k != d,
    ensures
        has_edge(m, c, d),
        in_subtree(m, c, k),
{
    let n = choose|n: nat| up(m, k, n) == Some(d);
    lemma_up_rank(m, rank, k, n);
    assert(n > 0);
    let c = up(m, k, (n - 1) as nat)->0;
    lemma_up_rank(m, rank, k, (n - 1) as nat);
    c
}

/// Every entry lies in the subtree of an entry without a parent.
pub proof fn lemma_has_root(m: Forest, rank: spec_fn(Seq<char>) -> nat, k: Seq<char>) -> (r: Seq<
    char,
>)
    requires
        ranked(m, rank),
        m.dom().contains(k),
    ensures
        m.dom().contains(r),
        m[r].parent is None,
        in_subtree(m, r, k),
    decreases rank(k),
{
    match m[k].parent {
        None => {
            assert(up(m, k, 0) == Some(k));
            k
        },
        Some(p) => {
            let r = lemma_has_root(m, rank, p);
            lemma_child_in_subtree(m, rank, r, k);
            r
        },
    }
}

/// Whether `child` is the only entry derived directly from `parent`.
pub open spec fn only_child(m: Forest, child: Seq<char>, parent: Seq<char>) -> bool {
    forall|k: Seq<char>| has_edge(m, k, parent) ==> k == child
}

/// Whether deleting `name` takes the entries up to `n` steps above it
/// along: each of them has nothing derived from it but the entry below it
/// on the way.
pub open spec fn pruned(m: Forest, name: Seq<char>, n: nat) -> bool
    decreases n,
{
    if n == 0 {
        m.dom().contains(name)
    } else {
        &&& pruned(m, name, (n - 1) as nat)
        &&& up(m, name, (n - 1) as nat) is Some
        &&& up(m, name, n) is Some
        &&& only_child(m, up(m, name, (n - 1) as nat)->0, up(m, name, n)->0)
    }
}

/// Whether deleting `name` removes the entry `k`: `name` itself, and the
/// entries above it that are left with nothing derived from them.
pub open spec fn deleted(m: Forest, name: Seq<char>, k: Seq<char>) -> bool {
    exists|n: nat| pruned(m, name, n) && up(m, name, n) == Some(k)
}

/// A parent reference after `name` was deleted.
pub open spec fn orphaned_parent(parent: Option<Seq<char>>, name: Seq<char>) -> Option<Seq<char>> {
    if parent == Some(name) {
        None
    } else {
        parent
    }
}

/// The store with the parent references to `name` cleared.
pub open spec fn orphaned(m: Forest, name: Seq<char>) -> Forest {
    Map::new(
        |k: Seq<char>| m.dom().contains(k),
        |k: Seq<char>|
            Entry {
                name: m[k].name,
                labels: m[k].labels,
                parent: orphaned_parent(m[k].parent, name),
            },
    )
}

/// The store after `name` was deleted: what was derived from `name`
/// becomes a root, and `name` is removed together with the entries above
/// it that are left with nothing derived from them.
pub open spec fn spec_delete(m: Forest, name: Seq<char>) -> Forest {
    orphaned(m, name).restrict(Set::new(|k: Seq<char>| !deleted(m, name, k)))
}

/// Where the entries up to `n` steps above are taken along, so are those
/// up to `i` steps above.
pub proof fn lemma_pruned_prefix(m: Forest, name: Seq<char>, i: nat, n: nat)
    requires
        pruned(m, name, n),
        i <= n,
    ensures
        pruned(m, name, i),
    decreases n - i,
{
    if i < n {
        lemma_pruned_prefix(m, name, i + 1, n);
    }
}

/// Deleting keeps the store a forest.
pub proof fn lemma_delete_ranked(m: Forest, rank: spec_fn(Seq<char>) -> nat, name: Seq<char>)
    requires
        ranked(m, rank),
        m.dom().contains(name),
    ensures
        ranked(spec_delete(m, name), rank),
{
    let after = spec_delete(m, name);
    assert forall|k: Seq<char>| #[trigger]
        after.dom().contains(k) implies (after[k].parent matches Some(p) ==> after.dom().contains(p)
        && rank(p) < rank(k)) by {
        if let Some(p) = after[k].parent {
            assert(m.dom().contains(k));
            assert(m[k].parent == Some(p));
            assert(m.dom().contains(p));
            if deleted(m, name, p) {
                let n = choose|n: nat| pruned(m, name, n) && up(m, name, n) == Some(p);
                assert(up(m, name, 0) == Some(name));
                // `p` is above `name`, so it has one child only, which is
                // deleted as well; `k` is that child.
                assert(n > 0);
                assert(has_edge(m, k, p));
                assert(k == up(m, name, (n - 1) as nat)->0);
                lemma_pruned_prefix(m, name, (n - 1) as nat, n);
                assert(deleted(m, name, k));
            }
        }
    }
}

/// A walk upwards never comes by the same entry twice.
pub proof fn lemma_up_distinct(
    m: Forest,
    rank: spec_fn(Seq<char>) -> nat,
    k: Seq<char>,
    i: nat,
    j: nat,
)
    requires
        ranked(m, rank),
        i < j,
        up(m, k, i) is Some,
        up(m, k, j) is Some,
    ensures
        up(m, k, i) != up(m, k, j),
        rank(up(m, k, j)->0) < rank(up(m, k, i)->0),
{
    lemma_up_rank(m, rank, k, i);
    lemma_up_compose(m, k, i, (j - i) as nat);
    lemma_up_rank(m, rank, up(m, k, i)->0, (j - i) as nat);
}

/// Whether every entry of `s` stands before what was derived from it.
pub open spec fn ancestors_first(m: Forest, s: Seq<Seq<char>>) -> bool {
    forall|i: int, j: int|
        0 <= i < s.len() && 0 <= j < s.len() && i != j && in_subtree(m, #[trigger] s[i], #[trigger] s[j])
            ==> i < j
}

/// Whether what was derived from an entry of `s` follows it without a gap:
/// whatever stands between an entry and something derived from it was
/// derived from that entry too.
pub open spec fn subtrees_together(m: Forest, s: Seq<Seq<char>>) -> bool {
    forall|i: int, j: int, l: int|
        0 <= i <= j && j <= l < s.len() && in_subtree(m, #[trigger] s[i], #[trigger] s[l])
            ==> in_subtree(m, s[i], #[trigger] s[j])
}

/// Whether `s` lists entries in pre-order: each once, each before what
/// was derived from it, and each directly followed by all of that.
pub open spec fn is_preorder(m: Forest, s: Seq<Seq<char>>) -> bool {
    &&& s.no_duplicates()
    &&& ancestors_first(m, s)
    &&& subtrees_together(m, s)
}

/// Whether neither of `x` and `y` was derived from the other, and they
/// differ.
pub open spec fn unrelated(m: Forest, x: Seq<char>, y: Seq<char>) -> bool {
    !in_subtree(m, x, y) && !in_subtree(m, y, x)
}

/// A pre-order stays one when an entry follows it with the pre-order of
/// what was derived from that entry, where nothing of the one part is
/// related to anything of the other.
pub proof fn lemma_preorder_append(
    m: Forest,
    rank: spec_fn(Seq<char>) -> nat,
    a: Seq<Seq<char>>,
    c: Seq<char>,
    inner: Seq<Seq<char>>,
)
    requires
        ranked(m, rank),
        m.dom().contains(c),
        is_preorder(m, a),
        is_preorder(m, inner),
        forall|i: int| 0 <= i < inner.len() ==> is_descendant(m, c, #[trigger] inner[i]),
        forall|i: int| 0 <= i < a.len() ==> unrelated(m, #[trigger] a[i], c),
        forall|i: int, j: int|
            0 <= i < a.len() && 0 <= j < inner.len() ==> unrelated(m, #[trigger] a[i], #[trigger] inner[j]),
    ensures
        is_preorder(m, a + seq![c] + inner),
{
    let s = a + seq![c] + inner;
    let n = a.len() as int;
    assert(up(m, c, 0) == Some(c));
    assert forall|i: int| 0 <= i < s.len() implies #[trigger] s[i] == (if i < n {
        a[i]
    } else if i == n {
        c
    } else {
        inner[i - n - 1]
    }) by {}
    assert forall|i: int| n < i < s.len() implies is_descendant(m, c, #[trigger] s[i]) && rank(c)
        < rank(s[i]) && in_subtree(m, c, s[i]) && !in_subtree(m, s[i], c) by {
        assert(s[i] == inner[i - n - 1]);
        lemma_descendant_rank(m, rank, c, s[i]);
        if in_subtree(m, s[i], c) {
            lemma_subtree_in_dom(m, rank, s[i], c);
        }
    }
    // Whether two positions lie in the same part decides whether their
    // entries can be related at all.
    assert forall|i: int, j: int|
        0 <= i < n && n <= j < s.len() implies unrelated(m, #[trigger] s[i], #[trigger] s[j]) by {
        assert(s[i] == a[i]);
        if j > n {
            assert(s[j] == inner[j - n - 1]);
        }
    }
    assert(s.no_duplicates()) by {
        assert forall|i: int, j: int| 0 <= i < s.len() && 0 <= j < s.len() && i != j implies s[i]
            != s[j] by {
            if s[i] == s[j] {
                lemma_same_related(m, s[i]);
                if i < n && j < n {
                    assert(a[i] == a[j]);
                } else if i > n && j > n {
                    assert(inner[i - n - 1] == inner[j - n - 1]);
                } else if i < n {
                    assert(unrelated(m, s[i], s[j]));
                    assert(m.dom().contains(s[j]));
                } else if j < n {
                    assert(unrelated(m, s[j], s[i]));
                    assert(m.dom().contains(s[i]));
                } else {
                    // One of them is `c`, the other lies below `c`.
                }
            }
        }
    }
    assert(ancestors_first(m, s)) by {
        assert forall|i: int, j: int|
            0 <= i < s.len() && 0 <= j < s.len() && i != j && in_subtree(
                m,
                #[trigger] s[i],
                #[trigger] s[j],
            ) implies i < j by {
            if i < n && j < n {
                assert(a[i] == s[i] && a[j] == s[j]);
            } else if i > n && j > n {
                assert(inner[i - n - 1] == s[i] && inner[j - n - 1] == s[j]);
            } else if i < n {
            } else if j < n {
                assert(unrelated(m, s[j], s[i]));
            }
        }
    }
    assert(subtrees_together(m, s)) by {
        assert forall|i: int, j: int, l: int|
            0 <= i <= j && j <= l < s.len() && in_subtree(
                m,
                #[trigger] s[i],
                #[trigger] s[l],
            ) implies in_subtree(m, s[i], #[trigger] s[j]) by {
            if j == i || j == l {
            } else if l < n {
                assert(a[i] == s[i] && a[j] == s[j] && a[l] == s[l]);
            } else if i < n {
                assert(unrelated(m, s[i], s[l]));
            } else if i == n {
            } else {
                assert(inner[i - n - 1] == s[i] && inner[j - n - 1] == s[j] && inner[l - n - 1]
                    == s[l]);
            }
        }
    }
}

/// An entry is in its own subtree.
pub proof fn lemma_same_related(m: Forest, k: Seq<char>)
    ensures
        m.dom().contains(k) ==> in_subtree(m, k, k),
{
    if m.dom().contains(k) {
        assert(up(m, k, 0) == Some(k));
    }
}

} // verus!
