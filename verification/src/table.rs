//! The provenance store: the tracked datasets, and the operations that
//! keep them a forest.

use vstd::prelude::*;

use crate::error::Error;
use crate::forest::{
    deleted, derive_rank, derive_rejected, has_edge, in_subtree, is_descendant, is_forest,
    is_preorder, lemma_below_child, lemma_child_in_subtree, lemma_delete_ranked,
    lemma_derive_ranked, lemma_descendant_rank, lemma_has_root, lemma_parent_in_subtree,
    lemma_preorder_append, lemma_pruned_prefix, lemma_rename_ranked, lemma_revoke_ranked,
    lemma_same_related, lemma_siblings_disjoint, lemma_subtree_in_dom, lemma_subtree_transitive,
    lemma_up_distinct, lemma_up_none, lemma_up_rank, only_child, orphaned, orphaned_parent,
    pruned, ranked, rename_rank, rename_rejected, renamed_parent, root_entry, spec_delete,
    spec_derive, spec_rename, spec_revoke, subtree_map, unrelated, up, with_source, Entry,
    Forest,
};
use crate::paths::{file_name, path_file_name};
use crate::record::{
    forest_map, lemma_forest_map_grows, lemma_forest_map_prefix, lemma_valid_forest_prefix,
    names_parent, record_entry, spec_from_roots, tree_map, valid_forest, valid_tree, TableEntry,
};
use crate::permission::{label_text, opt_view, spec_label_text, spec_tag_label, tag_label};
use crate::text::{clone_texts, str_eq, texts};

verus! {

/// What the store records of the dataset at `path` whose tag reads `tag`:
/// its display name, the final component of the path, and the text of its
/// label. The label is the default where there is no readable tag; a tag
/// of an unexpected shape is an error, and so is a path without a final
/// component.
pub open spec fn spec_record(path: Seq<char>, tag: Option<Seq<char>>) -> Result<
    (Seq<char>, Seq<char>),
    Error,
> {
    match spec_tag_label(tag) {
        Ok(pair) => match path_file_name(path) {
            Some(name) => Ok((name, spec_label_text(pair))),
            None => Err(Error::NotFound),
        },
        Err(e) => Err(e),
    }
}

/// One dataset as the store holds it.
struct Node {
    key: String,
    name: String,
    labels: Vec<String>,
    parent: Option<String>,
}

impl Node {
    spec fn key(&self) -> Seq<char> {
        self.key@
    }

    spec fn entry(&self) -> Entry {
        Entry {
            name: self.name@,
            labels: texts(self.labels@),
            parent: match self.parent {
                Some(p) => Some(p@),
                None => None,
            },
        }
    }
}

/// Whether some node of `nodes` has the key `k`.
spec fn has_key(nodes: Seq<Node>, k: Seq<char>) -> bool {
    exists|i: int| 0 <= i < nodes.len() && #[trigger] nodes[i].key() == k
}

/// The position of a node with the key `k`.
spec fn position(nodes: Seq<Node>, k: Seq<char>) -> int {
    choose|i: int| 0 <= i < nodes.len() && #[trigger] nodes[i].key() == k
}

/// Whether no two nodes share a key.
spec fn distinct_keys(nodes: Seq<Node>) -> bool {
    forall|i: int, j: int|
        0 <= i < nodes.len() && 0 <= j < nodes.len() && i != j ==> #[trigger] nodes[i].key()
            != #[trigger] nodes[j].key()
}

/// The entries of `nodes` by key.
spec fn forest_of(nodes: Seq<Node>) -> Forest {
    Map::new(|k: Seq<char>| has_key(nodes, k), |k: Seq<char>| nodes[position(nodes, k)].entry())
}

/// The provenance store.
pub struct Table {
    nodes: Vec<Node>,
    rank: Ghost<spec_fn(Seq<char>) -> nat>,
    limit: Ghost<nat>,
}

impl View for Table {
    type V = Forest;

    closed spec fn view(&self) -> Forest {
        forest_of(self.nodes@)
    }
}

impl Default for Table {
    fn default() -> (t: Table)
        ensures
            t.wf(),
            t@ == Map::<Seq<char>, Entry>::empty(),
    {
        Table::new()
    }
}

/// With distinct keys, a node is found at its own position.
proof fn lemma_position(nodes: Seq<Node>, i: int)
    requires
        distinct_keys(nodes),
        0 <= i < nodes.len(),
    ensures
        has_key(nodes, nodes[i].key()),
        position(nodes, nodes[i].key()) == i,
        forest_of(nodes).dom().contains(nodes[i].key()),
        forest_of(nodes)[nodes[i].key()] == nodes[i].entry(),
{
}

/// The model after a node with a fresh key was appended.
proof fn lemma_forest_push(nodes: Seq<Node>, node: Node)
    requires
        distinct_keys(nodes),
        !has_key(nodes, node.key()),
    ensures
        distinct_keys(nodes.push(node)),
        forest_of(nodes.push(node)) == forest_of(nodes).insert(node.key(), node.entry()),
{
    let after = nodes.push(node);
    assert(distinct_keys(after));
    let expected = forest_of(nodes).insert(node.key(), node.entry());
    assert forall|k: Seq<char>| forest_of(after).dom().contains(k) <==> expected.dom().contains(
        k,
    ) by {
        if has_key(after, k) {
            let i = position(after, k);
            if i < nodes.len() {
                assert(nodes[i].key() == k);
            }
        }
        if has_key(nodes, k) {
            let i = position(nodes, k);
            assert(after[i].key() == k);
        }
        if k == node.key() {
            assert(after[nodes.len() as int].key() == k);
        }
    }
    assert forall|k: Seq<char>| forest_of(after).dom().contains(k) implies forest_of(after)[k]
        == expected[k] by {
        let i = position(after, k);
        lemma_position(after, i);
        if i < nodes.len() {
            assert(after[i] == nodes[i]);
            lemma_position(nodes, i);
        }
    }
    assert(forest_of(after) =~= expected);
}

/// The model after the node at `i` was replaced by one with the same key.
proof fn lemma_forest_update(nodes: Seq<Node>, i: int, node: Node)
    requires
        distinct_keys(nodes),
        0 <= i < nodes.len(),
        node.key() == nodes[i].key(),
    ensures
        distinct_keys(nodes.update(i, node)),
        forest_of(nodes.update(i, node)) == forest_of(nodes).insert(node.key(), node.entry()),
{
    let after = nodes.update(i, node);
    assert(distinct_keys(after)) by {
        assert forall|a: int, b: int|
            0 <= a < after.len() && 0 <= b < after.len() && a != b implies #[trigger] after[a].key()
            != #[trigger] after[b].key() by {
            assert(after[a].key() == nodes[a].key());
            assert(after[b].key() == nodes[b].key());
        }
    }
    let expected = forest_of(nodes).insert(node.key(), node.entry());
    assert forall|k: Seq<char>| forest_of(after).dom().contains(k) <==> expected.dom().contains(
        k,
    ) by {
        if has_key(after, k) {
            let j = position(after, k);
            assert(nodes[j].key() == k);
        }
        if has_key(nodes, k) {
            let j = position(nodes, k);
            assert(after[j].key() == k);
        }
        if k == node.key() {
            assert(after[i].key() == k);
        }
    }
    assert forall|k: Seq<char>| forest_of(after).dom().contains(k) implies forest_of(after)[k]
        == expected[k] by {
        let j = position(after, k);
        lemma_position(after, j);
        if j != i {
            assert(after[j] == nodes[j]);
            lemma_position(nodes, j);
        }
    }
    assert(forest_of(after) =~= expected);
}

/// The model after the node at `i` was taken out.
proof fn lemma_forest_remove(nodes: Seq<Node>, i: int)
    requires
        distinct_keys(nodes),
        0 <= i < nodes.len(),
    ensures
        distinct_keys(nodes.remove(i)),
        forest_of(nodes.remove(i)) == forest_of(nodes).remove(nodes[i].key()),
        !has_key(nodes.remove(i), nodes[i].key()),
{
    let after = nodes.remove(i);
    assert forall|a: int| 0 <= a < after.len() implies #[trigger] after[a] == nodes[if a < i {
        a
    } else {
        a + 1
    }] by {}
    assert(distinct_keys(after)) by {
        assert forall|a: int, b: int|
            0 <= a < after.len() && 0 <= b < after.len() && a != b implies #[trigger] after[a].key()
            != #[trigger] after[b].key() by {
            let a0 = if a < i {
                a
            } else {
                a + 1
            };
            let b0 = if b < i {
                b
            } else {
                b + 1
            };
            assert(after[a] == nodes[a0]);
            assert(after[b] == nodes[b0]);
        }
    }
    let gone = nodes[i].key();
    assert(!has_key(after, gone)) by {
        if has_key(after, gone) {
            let a = position(after, gone);
            let a0 = if a < i {
                a
            } else {
                a + 1
            };
            assert(after[a] == nodes[a0]);
        }
    }
    let expected = forest_of(nodes).remove(gone);
    assert forall|k: Seq<char>| forest_of(after).dom().contains(k) <==> expected.dom().contains(
        k,
    ) by {
        if has_key(after, k) {
            let a = position(after, k);
            let a0 = if a < i {
                a
            } else {
                a + 1
            };
            assert(after[a] == nodes[a0]);
            assert(nodes[a0].key() == k);
        }
        if has_key(nodes, k) && k != gone {
            let j = position(nodes, k);
            let a = if j < i {
                j
            } else {
                j - 1
            };
            assert(after[a] == nodes[j]);
            assert(after[a].key() == k);
        }
    }
    assert forall|k: Seq<char>| forest_of(after).dom().contains(k) implies forest_of(after)[k]
        == expected[k] by {
        let a = position(after, k);
        lemma_position(after, a);
        let a0 = if a < i {
            a
        } else {
            a + 1
        };
        assert(after[a] == nodes[a0]);
        lemma_position(nodes, a0);
    }
    assert(forest_of(after) =~= expected);
}

/// The key of a node after `old_key` was renamed to `new_key`.
spec fn renamed_key(k: Seq<char>, new_key: Seq<char>, old_key: Seq<char>) -> Seq<char> {
    if k == old_key {
        new_key
    } else {
        k
    }
}

/// Whether `after` is `before` with `old_key` renamed to `new_key`.
spec fn is_renamed(before: Node, after: Node, new_key: Seq<char>, old_key: Seq<char>) -> bool {
    &&& after.key() == renamed_key(before.key(), new_key, old_key)
    &&& after.entry().name == if before.key() == old_key {
        new_key
    } else {
        before.entry().name
    }
    &&& after.entry().labels == before.entry().labels
    &&& after.entry().parent == renamed_parent(before.entry().parent, new_key, old_key)
}

/// The model after every node was renamed, where nothing is tracked as
/// `new_key` unless `new_key` is `old_key`.
proof fn lemma_forest_rename(
    start: Seq<Node>,
    after: Seq<Node>,
    new_key: Seq<char>,
    old_key: Seq<char>,
)
    requires
        distinct_keys(start),
        has_key(start, old_key),
        forest_of(start)[old_key].parent != Some(old_key),
        new_key != old_key ==> !has_key(start, new_key),
        after.len() == start.len(),
        forall|j: int| 0 <= j < start.len() ==> is_renamed(start[j], #[trigger] after[j], new_key, old_key),
    ensures
        distinct_keys(after),
        forest_of(after) == spec_rename(forest_of(start), new_key, old_key),
{
    assert(distinct_keys(after)) by {
        assert forall|a: int, b: int|
            0 <= a < after.len() && 0 <= b < after.len() && a != b implies #[trigger] after[a].key()
            != #[trigger] after[b].key() by {
            assert(is_renamed(start[a], after[a], new_key, old_key));
            assert(is_renamed(start[b], after[b], new_key, old_key));
            assert(start[a].key() != start[b].key());
        }
    }
    let m = forest_of(start);
    let expected = spec_rename(m, new_key, old_key);
    assert forall|k: Seq<char>| forest_of(after).dom().contains(k) <==> expected.dom().contains(
        k,
    ) by {
        if has_key(after, k) {
            let a = position(after, k);
            assert(is_renamed(start[a], after[a], new_key, old_key));
            assert(has_key(start, start[a].key()));
        }
        if k == new_key {
            let j = position(start, old_key);
            assert(is_renamed(start[j], after[j], new_key, old_key));
            assert(after[j].key() == k);
        } else if k != old_key && has_key(start, k) {
            let j = position(start, k);
            assert(is_renamed(start[j], after[j], new_key, old_key));
            assert(after[j].key() == k);
        }
    }
    assert forall|k: Seq<char>| forest_of(after).dom().contains(k) implies forest_of(after)[k]
        == expected[k] by {
        let a = position(after, k);
        lemma_position(after, a);
        lemma_position(start, a);
        assert(is_renamed(start[a], after[a], new_key, old_key));
        assert(has_key(start, start[a].key()));
        if k == new_key {
            assert(start[a].key() == old_key);
        } else {
            assert(start[a].key() == k);
        }
    }
    assert(forest_of(after) =~= expected);
}

/// The position of the node with the key `key`, if there is one.
fn find_node(nodes: &Vec<Node>, key: &str) -> (r: Option<usize>)
    ensures
        match r {
            Some(i) => i < nodes.len() && nodes[i as int].key() == key@,
            None => !has_key(nodes@, key@),
        },
{
    let mut i: usize = 0;
    while i < nodes.len()
        invariant
            i <= nodes.len(),
            forall|j: int| 0 <= j < i ==> nodes[j].key() != key@,
        decreases nodes.len() - i,
    {
        if str_eq(nodes[i].key.as_str(), key) {
            return Some(i);
        }
        i = i + 1;
    }
    None
}

/// Whether every node that names a parent stands after that parent.
spec fn ordered(nodes: Seq<Node>) -> bool {
    forall|i: int|
        0 <= i < nodes.len() ==> ((#[trigger] nodes[i]).entry().parent matches Some(p)
            ==> exists|j: int| 0 <= j < i && #[trigger] nodes[j].key() == p)
}

/// The position of a key among `nodes`, as a rank.
spec fn position_rank(nodes: Seq<Node>) -> spec_fn(Seq<char>) -> nat {
    |k: Seq<char>| if has_key(nodes, k) { position(nodes, k) as nat } else { 0nat }
}

/// Nodes that stand after their parents form a forest, ranked by position.
proof fn lemma_ordered_ranked(nodes: Seq<Node>)
    requires
        distinct_keys(nodes),
        ordered(nodes),
    ensures
        ranked(forest_of(nodes), position_rank(nodes)),
        forall|k: Seq<char>| #[trigger]
            forest_of(nodes).dom().contains(k) ==> position_rank(nodes)(k) < nodes.len(),
{
    let m = forest_of(nodes);
    let rank = position_rank(nodes);
    assert forall|k: Seq<char>| #[trigger] m.dom().contains(k) implies (m[k].parent matches Some(
        p,
    ) ==> m.dom().contains(p) && rank(p) < rank(k)) by {
        let i = position(nodes, k);
        lemma_position(nodes, i);
        if let Some(p) = m[k].parent {
            let j = choose|j: int| 0 <= j < i && #[trigger] nodes[j].key() == p;
            lemma_position(nodes, j);
        }
    }
}

/// Appends the entries of the record `e`, filed under `key` as a child of
/// `parent`, to `nodes`; gives up at the first record that is not
/// well-formed or whose key is taken.
fn flatten_tree(key: &str, e: &TableEntry, parent: Option<&str>, nodes: &mut Vec<Node>) -> (ok:
    bool)
    requires
        distinct_keys(old(nodes)@),
        ordered(old(nodes)@),
        parent matches Some(p) ==> has_key(old(nodes)@, p@),
    ensures
        ok ==> {
            &&& valid_tree(key@, *e, opt_view(parent))
            &&& forest_of(old(nodes)@).dom().disjoint(tree_map(key@, *e).dom())
            &&& distinct_keys(final(nodes)@)
            &&& ordered(final(nodes)@)
            &&& final(nodes)@.len() >= old(nodes)@.len()
            &&& final(nodes)@.take(old(nodes)@.len() as int) == old(nodes)@
            &&& forest_of(final(nodes)@) == forest_of(old(nodes)@).union_prefer_right(
                tree_map(key@, *e),
            )
        },
        !ok ==> !(valid_tree(key@, *e, opt_view(parent)) && forest_of(old(nodes)@).dom().disjoint(
            tree_map(key@, *e).dom(),
        )),
    decreases e,
{
    let ghost start = nodes@;
    let ghost kids = e.children@;
    let named = match &e.parent {
        None => parent.is_none(),
        Some(v) => match parent {
            Some(p) => v.len() == 1 && str_eq(v[0].as_str(), p),
            None => false,
        },
    };
    if !named {
        return false;
    }
    assert(names_parent(*e, opt_view(parent)));
    if find_node(nodes, key).is_some() {
        assert(tree_map(key@, *e).dom().contains(key@));
        assert(forest_of(start).dom().contains(key@));
        return false;
    }
    let node = Node {
        key: key.to_owned(),
        name: e.name.clone(),
        labels: clone_texts(&e.labels),
        parent: match parent {
            Some(p) => Some(p.to_owned()),
            None => None,
        },
    };
    assert(node.entry() == record_entry(*e));
    proof {
        lemma_forest_push(start, node);
        assert(ordered(start.push(node))) by {
            assert forall|i: int| 0 <= i < start.push(node).len() implies ((
            #[trigger] start.push(node)[i]).entry().parent matches Some(p) ==> exists|j: int|
                0 <= j < i && #[trigger] start.push(node)[j].key() == p) by {
                if i < start.len() {
                    assert(start.push(node)[i] == start[i]);
                    if let Some(p) = start[i].entry().parent {
                        let j = choose|j: int| 0 <= j < i && #[trigger] start[j].key() == p;
                        assert(start.push(node)[j].key() == p);
                    }
                } else if let Some(p) = parent {
                    let j = position(start, p@);
                    assert(start.push(node)[j].key() == p@);
                }
            }
        }
    }
    nodes.push(node);
    assert(nodes@[start.len() as int].key() == key@);
    let ghost base = forest_of(start).insert(key@, record_entry(*e));
    let mut i: usize = 0;
    while i < e.children.len()
        invariant
            i <= e.children.len(),
            kids == e.children@,
            start == old(nodes)@,
            names_parent(*e, opt_view(parent)),
            !forest_of(start).dom().contains(key@),
            base == forest_of(start).insert(key@, record_entry(*e)),
            distinct_keys(nodes@),
            ordered(nodes@),
            has_key(nodes@, key@),
            nodes@.len() > start.len(),
            nodes@.take(start.len() as int) == start,
            valid_forest(kids, i as nat, Some(key@)),
            base.dom().disjoint(forest_map(kids, i as nat).dom()),
            forest_of(nodes@) == base.union_prefer_right(forest_map(kids, i as nat)),
        decreases e.children.len() - i,
    {
        let ghost before = nodes@;
        let ghost child = tree_map(kids[i as int].0@, kids[i as int].1);
        let ok = flatten_tree(e.children[i].0.as_str(), &e.children[i].1, Some(key), nodes);
        proof {
            lemma_forest_map_grows(kids, i as nat, kids.len());
            lemma_forest_map_grows(kids, (i + 1) as nat, kids.len());
            assert(forest_map(kids, (i + 1) as nat) == forest_map(kids, i as nat).union_prefer_right(
                child,
            ));
        }
        if !ok {
            proof {
                let whole = tree_map(key@, *e);
                if valid_tree(key@, *e, opt_view(parent)) && forest_of(start).dom().disjoint(
                    whole.dom(),
                ) {
                    lemma_valid_forest_prefix(kids, (i + 1) as nat, kids.len(), Some(key@));
                    assert(valid_tree(kids[i as int].0@, kids[i as int].1, Some(key@)));
                    assert(!forest_of(before).dom().disjoint(child.dom()));
                    let k = choose|k: Seq<char>|
                        forest_of(before).dom().contains(k) && child.dom().contains(k);
                    assert(forest_map(kids, kids.len()).dom().contains(k));
                    assert(whole.dom().contains(k));
                    if forest_of(start).dom().contains(k) {
                        assert(false);
                    } else if k == key@ {
                        assert(false);
                    } else {
                        assert(forest_map(kids, i as nat).dom().contains(k));
                        assert(false);
                    }
                }
            }
            return false;
        }
        proof {
            assert(nodes@.take(start.len() as int) =~= start) by {
                assert(nodes@.take(before.len() as int) == before);
                assert forall|j: int| 0 <= j < start.len() implies nodes@[j] == start[j] by {
                    assert(nodes@.take(before.len() as int)[j] == nodes@[j]);
                    assert(before.take(start.len() as int)[j] == before[j]);
                }
            }
            assert(has_key(nodes@, key@)) by {
                let j = position(before, key@);
                assert(nodes@.take(before.len() as int)[j] == nodes@[j]);
                assert(nodes@[j].key() == key@);
            }
            assert(base.dom().disjoint(forest_map(kids, (i + 1) as nat).dom()));
            assert(forest_of(nodes@) =~= base.union_prefer_right(
                forest_map(kids, (i + 1) as nat),
            ));
        }
        i = i + 1;
    }
    proof {
        assert(forest_of(nodes@) =~= forest_of(start).union_prefer_right(tree_map(key@, *e)));
        assert(forest_of(start).dom().disjoint(tree_map(key@, *e).dom()));
    }
    true
}

/// Whether the node at `t` has the parent `parent`.
spec fn is_child_at(nodes: Seq<Node>, t: int, parent: Option<Seq<char>>) -> bool {
    0 <= t < nodes.len() && nodes[t].entry().parent == parent
}

/// Whether `k` lies in the subtree of one of the first `j` nodes that has
/// the parent `parent`.
spec fn covered(nodes: Seq<Node>, parent: Option<Seq<char>>, j: int, k: Seq<char>) -> bool {
    exists|t: int|
        0 <= t < j && #[trigger] is_child_at(nodes, t, parent) && in_subtree(
            forest_of(nodes),
            nodes[t].key(),
            k,
        )
}

/// The entries in the subtrees of the first `j` nodes that have the parent
/// `parent`.
spec fn covered_map(nodes: Seq<Node>, parent: Option<Seq<char>>, j: int) -> Forest {
    forest_of(nodes).restrict(Set::new(|k: Seq<char>| covered(nodes, parent, j, k)))
}

/// Whether `after` is `before` with its parent reference to `name` cleared.
spec fn is_orphaned(before: Node, after: Node, name: Seq<char>) -> bool {
    &&& after.key() == before.key()
    &&& after.entry().name == before.entry().name
    &&& after.entry().labels == before.entry().labels
    &&& after.entry().parent == orphaned_parent(before.entry().parent, name)
}

/// The model after the parent references to `name` were cleared.
proof fn lemma_forest_orphan(start: Seq<Node>, after: Seq<Node>, name: Seq<char>)
    requires
        distinct_keys(start),
        after.len() == start.len(),
        forall|j: int| 0 <= j < start.len() ==> is_orphaned(start[j], #[trigger] after[j], name),
    ensures
        distinct_keys(after),
        forest_of(after) == orphaned(forest_of(start), name),
{
    assert(distinct_keys(after)) by {
        assert forall|a: int, b: int|
            0 <= a < after.len() && 0 <= b < after.len() && a != b implies #[trigger] after[a].key()
            != #[trigger] after[b].key() by {
            assert(is_orphaned(start[a], after[a], name));
            assert(is_orphaned(start[b], after[b], name));
        }
    }
    let expected = orphaned(forest_of(start), name);
    assert forall|k: Seq<char>| forest_of(after).dom().contains(k) <==> expected.dom().contains(
        k,
    ) by {
        if has_key(after, k) {
            let a = position(after, k);
            assert(is_orphaned(start[a], after[a], name));
            assert(start[a].key() == k);
        }
        if has_key(start, k) {
            let a = position(start, k);
            assert(is_orphaned(start[a], after[a], name));
            assert(after[a].key() == k);
        }
    }
    assert forall|k: Seq<char>| forest_of(after).dom().contains(k) implies forest_of(after)[k]
        == expected[k] by {
        let a = position(after, k);
        lemma_position(after, a);
        lemma_position(start, a);
        assert(is_orphaned(start[a], after[a], name));
    }
    assert(forest_of(after) =~= expected);
}

/// Whether some node names `parent` as its parent.
fn has_child(nodes: &Vec<Node>, parent: &str) -> (b: bool)
    ensures
        b == exists|i: int|
            0 <= i < nodes.len() && (#[trigger] nodes[i]).entry().parent == Some(parent@),
{
    let mut i: usize = 0;
    while i < nodes.len()
        invariant
            i <= nodes.len(),
            forall|j: int| 0 <= j < i ==> (#[trigger] nodes[j]).entry().parent != Some(parent@),
        decreases nodes.len() - i,
    {
        let found = match &nodes[i].parent {
            Some(q) => str_eq(q.as_str(), parent),
            None => false,
        };
        if found {
            return true;
        }
        i = i + 1;
    }
    false
}

impl Table {
    /// The invariant of the store: keys are distinct and the entries form
    /// a forest.
    pub closed spec fn wf(&self) -> bool {
        &&& distinct_keys(self.nodes@)
        &&& ranked(self@, self.rank@)
        &&& forall|k: Seq<char>| #[trigger] self@.dom().contains(k) ==> (self.rank@)(k) < self.limit@
    }

    /// A well-formed store holds a forest.
    pub proof fn lemma_wf_forest(&self)
        requires
            self.wf(),
        ensures
            is_forest(self@),
    {
        assert(ranked(self@, self.rank@));
    }

    /// A store that tracks nothing.
    pub fn new() -> (t: Table)
        ensures
            t.wf(),
            t@ == Map::<Seq<char>, Entry>::empty(),
    {
        let t = Table { nodes: Vec::new(), rank: Ghost(|k: Seq<char>| 0nat), limit: Ghost(1nat) };
        assert(t@ =~= Map::<Seq<char>, Entry>::empty());
        t
    }

    /// The position of the node with the key `key`, if the store has one.
    fn find(&self, key: &str) -> (r: Option<usize>)
        ensures
            match r {
                Some(i) => i < self.nodes.len() && self.nodes[i as int].key() == key@,
                None => !self@.dom().contains(key@),
            },
    {
        find_node(&self.nodes, key)
    }

    /// Whether `dataset` is tracked.
    pub fn contains(&self, dataset: &str) -> (b: bool)
        requires
            self.wf(),
        ensures
            b == self@.dom().contains(dataset@),
    {
        let found = self.find(dataset);
        proof {
            if let Some(i) = found {
                lemma_position(self.nodes@, i as int);
            }
        }
        found.is_some()
    }

    /// Whether `from` has `new_key` as a direct child.
    pub fn contains_key(&self, new_key: &str, from: &str) -> (b: bool)
        requires
            self.wf(),
        ensures
            b == has_edge(self@, new_key@, from@),
    {
        match self.find(from) {
            None => false,
            Some(s) => {
                proof {
                    lemma_position(self.nodes@, s as int);
                }
                match self.find(new_key) {
                    None => false,
                    Some(t) => {
                        proof {
                            lemma_position(self.nodes@, t as int);
                        }
                        match &self.nodes[t].parent {
                            None => false,
                            Some(p) => str_eq(p.as_str(), from),
                        }
                    },
                }
            },
        }
    }

    /// Whether `x` is `d` or was derived from it.
    fn is_within(&self, d: &str, x: &str) -> (b: bool)
        requires
            self.wf(),
        ensures
            b == in_subtree(self@, d@, x@),
    {
        let mut cur: usize = match self.find(x) {
            Some(i) => i,
            None => {
                proof {
                    assert forall|n: nat| up(self@, x@, n) is None by {
                        lemma_up_none(self@, x@, 0, n);
                    }
                }
                return false;
            },
        };
        let ghost mut steps: nat = 0;
        proof {
            lemma_position(self.nodes@, cur as int);
        }
        loop
            invariant
                self.wf(),
                cur < self.nodes.len(),
                up(self@, x@, steps) == Some(self.nodes[cur as int].key()),
                forall|j: nat| j < steps ==> up(self@, x@, j) != Some(d@),
            decreases (self.rank@)(self.nodes[cur as int].key()),
        {
            proof {
                lemma_position(self.nodes@, cur as int);
            }
            if str_eq(self.nodes[cur].key.as_str(), d) {
                return true;
            }
            match &self.nodes[cur].parent {
                None => {
                    proof {
                        assert(up(self@, x@, steps + 1) is None);
                        assert forall|n: nat| up(self@, x@, n) != Some(d@) by {
                            if n > steps {
                                lemma_up_none(self@, x@, steps + 1, n);
                            }
                        }
                    }
                    return false;
                },
                Some(p) => {
                    match self.find(p.as_str()) {
                        Some(i) => {
                            proof {
                                lemma_position(self.nodes@, i as int);
                                assert(up(self@, x@, steps + 1) == Some(p@));
                                steps = steps + 1;
                            }
                            cur = i;
                        },
                        None => {
                            assert(false);
                            return false;
                        },
                    }
                },
            }
        }
    }

    /// Makes `key` a root that carries `labels`, tracked or not before.
    fn put_root(&mut self, key: &str, name: String, labels: Vec<String>)
        requires
            old(self).wf(),
        ensures
            final(self).wf(),
            final(self)@ == old(self)@.insert(key@, root_entry(name@, texts(labels@))),
    {
        let node = Node { key: key.to_owned(), name, labels, parent: None };
        self.limit = Ghost(self.limit@ + (self.rank@)(key@) + 1);
        match self.find(key) {
            Some(i) => {
                proof {
                    lemma_forest_update(self.nodes@, i as int, node);
                }
                self.nodes.set(i, node);
            },
            None => {
                proof {
                    lemma_forest_push(self.nodes@, node);
                }
                self.nodes.push(node);
            },
        }
    }

    /// Derives `target` from `source`, given the name and labels of each.
    fn put_child(
        &mut self,
        target: &str,
        name: String,
        labels: Vec<String>,
        source: &str,
        source_name: String,
        source_labels: Vec<String>,
    ) -> (r: Result<(), Error>)
        requires
            old(self).wf(),
        ensures
            final(self).wf(),
            derive_rejected(old(self)@, target@, source@) ==> r == Err::<(), Error>(Error::Cyclic)
                && final(self)@ == old(self)@,
            !derive_rejected(old(self)@, target@, source@) ==> r is Ok && final(self)@
                == spec_derive(
                old(self)@,
                target@,
                name@,
                texts(labels@),
                source@,
                source_name@,
                texts(source_labels@),
            ),
    {
        if str_eq(target, source) || self.is_within(target, source) {
            return Err(Error::Cyclic);
        }
        let ghost before = self@;
        let ghost rank = self.rank@;
        let ghost limit = self.limit@;
        assert forall|k: Seq<char>| #[trigger] before.dom().contains(k) implies rank(k) < limit by {}
        if self.find(source).is_none() {
            let root = Node {
                key: source.to_owned(),
                name: source_name,
                labels: source_labels,
                parent: None,
            };
            proof {
                lemma_forest_push(self.nodes@, root);
            }
            self.nodes.push(root);
        }
        let ghost middle = self@;
        let node = Node {
            key: target.to_owned(),
            name,
            labels,
            parent: Some(source.to_owned()),
        };
        match self.find(target) {
            Some(i) => {
                proof {
                    lemma_forest_update(self.nodes@, i as int, node);
                }
                self.nodes.set(i, node);
            },
            None => {
                proof {
                    lemma_forest_push(self.nodes@, node);
                }
                self.nodes.push(node);
            },
        }
        self.rank = Ghost(derive_rank(middle, rank, target@, source@));
        self.limit = Ghost(limit + 2 * rank(source@) + rank(target@) + 2);
        proof {
            assert(middle == with_source(before, source@, source_name@, texts(source_labels@)));
            assert(self@ == spec_derive(
                before,
                target@,
                name@,
                texts(labels@),
                source@,
                source_name@,
                texts(source_labels@),
            ));
            lemma_derive_ranked(
                before,
                rank,
                target@,
                name@,
                texts(labels@),
                source@,
                source_name@,
                texts(source_labels@),
            );
            assert forall|k: Seq<char>| #[trigger] self@.dom().contains(k) implies (self.rank@)(k)
                < self.limit@ by {
                if k != target@ && k != source@ {
                    assert(before.dom().contains(k));
                }
                assert((self.rank@)(k) == derive_rank(middle, rank, target@, source@)(k));
                assert((self.rank@)(k) <= rank(k) + rank(source@) + 1);
            }
        }
        Ok(())
    }

    /// Re-keys the entry `old_key` as `new_key`. The entry keeps its labels and its
    /// parent, and what was derived from it stays derived from it. An entry
    /// that was tracked as `new_key` gives way, and what was derived from that
    /// one is now derived from the renamed entry.
    pub fn rename(&mut self, new_key: &str, old_key: &str) -> (r: Result<(), Error>)
        requires
            old(self).wf(),
        ensures
            final(self).wf(),
            !old(self)@.dom().contains(old_key@) ==> r == Err::<(), Error>(Error::NotFound)
                && final(self)@ == old(self)@,
            old(self)@.dom().contains(old_key@) && rename_rejected(old(self)@, new_key@, old_key@) ==> r
                == Err::<(), Error>(Error::Cyclic) && final(self)@ == old(self)@,
            old(self)@.dom().contains(old_key@) && !rename_rejected(old(self)@, new_key@, old_key@) ==> r is Ok
                && final(self)@ == spec_rename(old(self)@, new_key@, old_key@),
    {
        let ghost m = self@;
        let ghost rank = self.rank@;
        let ghost limit = self.limit@;
        assert forall|k: Seq<char>| #[trigger] m.dom().contains(k) implies rank(k) < limit by {}
        if self.find(old_key).is_none() {
            return Err(Error::NotFound);
        }
        let same = str_eq(new_key, old_key);
        let below = !same && self.is_within(new_key, old_key);
        proof {
            if is_descendant(m, new_key@, old_key@) {
                lemma_descendant_rank(m, rank, new_key@, old_key@);
            }
            if !same && in_subtree(m, new_key@, old_key@) {
                lemma_parent_in_subtree(m, rank, new_key@, old_key@);
            }
        }
        if below {
            return Err(Error::Cyclic);
        }
        assert(!is_descendant(m, new_key@, old_key@));
        assert(m.dom().contains(old_key@));
        assert(m[old_key@].parent != Some(old_key@));
        if !same {
            match self.find(new_key) {
                Some(j) => {
                    proof {
                        lemma_forest_remove(self.nodes@, j as int);
                    }
                    let _ = self.nodes.remove(j);
                },
                None => {},
            }
        }
        let ghost start = self.nodes@;
        assert(forest_of(start) =~= if same {
            m
        } else {
            m.remove(new_key@)
        });
        assert(forest_of(start).dom().contains(old_key@));
        assert(!same ==> !forest_of(start).dom().contains(new_key@));
        let mut i: usize = 0;
        while i < self.nodes.len()
            invariant
                i <= self.nodes.len(),
                self.nodes@.len() == start.len(),
                forall|j: int| 0 <= j < i ==> is_renamed(start[j], #[trigger] self.nodes@[j], new_key@, old_key@),
                forall|j: int| i <= j < start.len() ==> self.nodes@[j] == start[j],
            decreases self.nodes.len() - i,
        {
            if str_eq(self.nodes[i].key.as_str(), old_key) {
                self.nodes[i].key = new_key.to_owned();
                self.nodes[i].name = new_key.to_owned();
            }
            let repoint = match &self.nodes[i].parent {
                Some(p) => str_eq(p.as_str(), old_key),
                None => false,
            };
            if repoint {
                self.nodes[i].parent = Some(new_key.to_owned());
            }
            i = i + 1;
        }
        self.rank = Ghost(rename_rank(m, rank, new_key@, old_key@));
        self.limit = Ghost(limit + rank(old_key@) + 1);
        proof {
            lemma_forest_rename(start, self.nodes@, new_key@, old_key@);
            assert(spec_rename(forest_of(start), new_key@, old_key@) =~= spec_rename(
                m,
                new_key@,
                old_key@,
            ));
            lemma_rename_ranked(m, rank, new_key@, old_key@);
            assert forall|k: Seq<char>| #[trigger] self@.dom().contains(k) implies (self.rank@)(k)
                < self.limit@ by {
                if k != new_key@ {
                    assert(m.dom().contains(k));
                }
            }
        }
        Ok(())
    }

    /// The keys of what was derived from `parent`, in pre-order.
    fn list_below(&self, parent: &str) -> (order: Vec<String>)
        requires
            self.wf(),
            self@.dom().contains(parent@),
        ensures
            is_preorder(self@, texts(order@)),
            forall|k: Seq<char>| texts(order@).contains(k) <==> is_descendant(self@, parent@, k),
        decreases self.limit@ - (self.rank@)(parent@),
    {
        let ghost m = self@;
        let ghost rank = self.rank@;
        let ghost nodes = self.nodes@;
        let ghost above = Some(parent@);
        let mut order: Vec<String> = Vec::new();
        let mut j: usize = 0;
        assert(texts(order@) =~= Seq::<Seq<char>>::empty());
        while j < self.nodes.len()
            invariant
                self.wf(),
                m == self@,
                rank == self.rank@,
                nodes == self.nodes@,
                above == Some(parent@),
                m.dom().contains(parent@),
                j <= self.nodes.len(),
                is_preorder(m, texts(order@)),
                forall|k: Seq<char>|
                    texts(order@).contains(k) <==> covered(nodes, above, j as int, k),
            decreases self.nodes.len() - j,
        {
            let node = &self.nodes[j];
            let is_child = match &node.parent {
                Some(q) => str_eq(q.as_str(), parent),
                None => false,
            };
            assert(is_child == is_child_at(nodes, j as int, above));
            let ghost before = texts(order@);
            if is_child {
                let ghost key = nodes[j as int].key();
                proof {
                    lemma_position(nodes, j as int);
                    assert(m.dom().contains(key));
                    lemma_same_related(m, key);
                }
                let mut inner = self.list_below(node.key.as_str());
                let ghost below = texts(inner@);
                proof {
                    assert forall|i: int| 0 <= i < below.len() implies is_descendant(
                        m,
                        key,
                        #[trigger] below[i],
                    ) by {
                        assert(below.contains(below[i]));
                    }
                    // What stands in the list so far lies below other
                    // children of `parent`.
                    assert forall|x: Seq<char>, y: Seq<char>|
                        before.contains(x) && in_subtree(m, key, y) implies unrelated(m, x, y) by {
                        let t = choose|t: int|
                            0 <= t < j && #[trigger] is_child_at(nodes, t, above) && in_subtree(
                                m,
                                nodes[t].key(),
                                x,
                            );
                        lemma_position(nodes, t);
                        let sibling = nodes[t].key();
                        if in_subtree(m, x, y) {
                            lemma_subtree_transitive(m, rank, sibling, x, y);
                            lemma_siblings_disjoint(m, rank, sibling, key, y);
                        }
                        if in_subtree(m, y, x) {
                            lemma_subtree_transitive(m, rank, key, y, x);
                            lemma_siblings_disjoint(m, rank, sibling, key, x);
                        }
                    }
                    assert forall|i: int| 0 <= i < before.len() implies unrelated(
                        m,
                        #[trigger] before[i],
                        key,
                    ) by {
                        assert(before.contains(before[i]));
                    }
                    assert forall|i: int, l: int|
                        0 <= i < before.len() && 0 <= l < below.len() implies unrelated(
                        m,
                        #[trigger] before[i],
                        #[trigger] below[l],
                    ) by {
                        assert(before.contains(before[i]));
                        assert(below.contains(below[l]));
                        lemma_descendant_rank(m, rank, key, below[l]);
                    }
                    lemma_preorder_append(m, rank, before, key, below);
                }
                order.push(node.key.clone());
                order.append(&mut inner);
                proof {
                    let after = texts(order@);
                    assert(after =~= before + seq![key] + below);
                    assert forall|k: Seq<char>|
                        after.contains(k) <==> covered(nodes, above, j + 1, k) by {
                        if after.contains(k) {
                            let i = choose|i: int| 0 <= i < after.len() && after[i] == k;
                            if i < before.len() {
                                assert(before[i] == k);
                                assert(before.contains(k));
                                let t = choose|t: int|
                                    0 <= t < j && #[trigger] is_child_at(nodes, t, above)
                                        && in_subtree(m, nodes[t].key(), k);
                                assert(0 <= t < j + 1);
                            } else if i == before.len() {
                                assert(is_child_at(nodes, j as int, above));
                            } else {
                                assert(below[i - before.len() - 1] == k);
                                assert(below.contains(k));
                                lemma_descendant_rank(m, rank, key, k);
                                assert(is_child_at(nodes, j as int, above));
                            }
                        }
                        if covered(nodes, above, j + 1, k) {
                            let t = choose|t: int|
                                0 <= t < j + 1 && #[trigger] is_child_at(nodes, t, above)
                                    && in_subtree(m, nodes[t].key(), k);
                            if t < j {
                                assert(covered(nodes, above, j as int, k));
                                assert(before.contains(k));
                                let i = choose|i: int| 0 <= i < before.len() && before[i] == k;
                                assert(after[i] == k);
                            } else if k == key {
                                assert(after[before.len() as int] == k);
                            } else {
                                lemma_parent_in_subtree(m, rank, key, k);
                                assert(below.contains(k));
                                let i = choose|i: int| 0 <= i < below.len() && below[i] == k;
                                assert(after[before.len() + 1 + i] == k);
                            }
                        }
                    }
                }
            } else {
                proof {
                    assert forall|k: Seq<char>|
                        covered(nodes, above, j + 1, k) <==> covered(nodes, above, j as int, k) by {
                        if covered(nodes, above, j + 1, k) {
                            let t = choose|t: int|
                                0 <= t < j + 1 && #[trigger] is_child_at(nodes, t, above)
                                    && in_subtree(m, nodes[t].key(), k);
                            assert(t < j);
                        }
                        if covered(nodes, above, j as int, k) {
                            let t = choose|t: int|
                                0 <= t < j && #[trigger] is_child_at(nodes, t, above) && in_subtree(
                                    m,
                                    nodes[t].key(),
                                    k,
                                );
                            assert(0 <= t < j + 1);
                        }
                    }
                }
            }
            j = j + 1;
        }
        proof {
            assert forall|k: Seq<char>|
                covered(nodes, above, nodes.len() as int, k) <==> is_descendant(m, parent@, k) by {
                if covered(nodes, above, nodes.len() as int, k) {
                    let t = choose|t: int|
                        0 <= t < nodes.len() && #[trigger] is_child_at(nodes, t, above)
                            && in_subtree(m, nodes[t].key(), k);
                    lemma_position(nodes, t);
                    lemma_same_related(m, parent@);
                    lemma_child_in_subtree(m, rank, parent@, nodes[t].key());
                    lemma_descendant_rank(m, rank, parent@, nodes[t].key());
                    lemma_subtree_transitive(m, rank, parent@, nodes[t].key(), k);
                    lemma_subtree_in_dom(m, rank, nodes[t].key(), k);
                    if k == parent@ {
                        assert(false);
                    }
                    lemma_parent_in_subtree(m, rank, parent@, k);
                }
                if is_descendant(m, parent@, k) {
                    lemma_descendant_rank(m, rank, parent@, k);
                    let c = lemma_below_child(m, rank, parent@, k);
                    let t = position(nodes, c);
                    lemma_position(nodes, t);
                    assert(is_child_at(nodes, t, above));
                }
            }
        }
        order
    }

    /// Removes `dataset` and everything derived from it, and returns the
    /// keys of what was removed in pre-order: `dataset` first, and every
    /// entry directly followed by what was derived from it.
    pub fn revoke(&mut self, dataset: &str) -> (r: Result<Vec<String>, Error>)
        requires
            old(self).wf(),
        ensures
            final(self).wf(),
            match r {
                Ok(removed) => {
                    &&& old(self)@.dom().contains(dataset@)
                    &&& final(self)@ == spec_revoke(old(self)@, dataset@)
                    &&& texts(removed@).len() > 0
                    &&& texts(removed@)[0] == dataset@
                    &&& is_preorder(old(self)@, texts(removed@))
                    &&& forall|k: Seq<char>|
                        texts(removed@).contains(k) <==> in_subtree(old(self)@, dataset@, k)
                },
                Err(e) => {
                    &&& e == Error::NotFound
                    &&& !old(self)@.dom().contains(dataset@)
                    &&& final(self)@ == old(self)@
                },
            },
    {
        let ghost m = self@;
        let ghost rank = self.rank@;
        let ghost start = self.nodes@;
        let ghost limit = self.limit@;
        assert forall|k: Seq<char>| #[trigger] m.dom().contains(k) implies rank(k) < limit by {}
        match self.find(dataset) {
            None => {
                return Err(Error::NotFound);
            },
            Some(found) => {
                proof {
                    lemma_position(self.nodes@, found as int);
                }
            },
        }
        assert(m.dom().contains(dataset@));
        // List what goes while the store is whole.
        let mut removed: Vec<String> = Vec::new();
        removed.push(dataset.to_owned());
        let mut below = self.list_below(dataset);
        let ghost inner = texts(below@);
        removed.append(&mut below);
        proof {
            let listed = texts(removed@);
            let none = Seq::<Seq<char>>::empty();
            assert(listed =~= none + seq![dataset@] + inner);
            assert forall|i: int| 0 <= i < inner.len() implies is_descendant(
                m,
                dataset@,
                #[trigger] inner[i],
            ) by {
                assert(inner.contains(inner[i]));
            }
            lemma_preorder_append(m, rank, none, dataset@, inner);
            lemma_same_related(m, dataset@);
            assert forall|k: Seq<char>| listed.contains(k) <==> in_subtree(m, dataset@, k) by {
                if listed.contains(k) {
                    let i = choose|i: int| 0 <= i < listed.len() && listed[i] == k;
                    if i > 0 {
                        assert(inner[i - 1] == k);
                        assert(inner.contains(k));
                        lemma_descendant_rank(m, rank, dataset@, k);
                    }
                }
                if in_subtree(m, dataset@, k) {
                    if k == dataset@ {
                        assert(listed[0] == k);
                    } else {
                        lemma_parent_in_subtree(m, rank, dataset@, k);
                        assert(inner.contains(k));
                        let i = choose|i: int| 0 <= i < inner.len() && inner[i] == k;
                        assert(listed[i + 1] == k);
                    }
                }
            }
        }
        let n = self.nodes.len();
        let mut marks: Vec<bool> = Vec::new();
        let mut t: usize = 0;
        while t < n
            invariant
                self.wf(),
                self.nodes@ == start,
                self@ == m,
                n == start.len(),
                t <= n,
                marks@.len() == t,
                forall|j: int| 0 <= j < t ==> marks@[j] == in_subtree(m, dataset@, start[j].key()),
            decreases n - t,
        {
            let mark = self.is_within(dataset, self.nodes[t].key.as_str());
            marks.push(mark);
            t = t + 1;
        }
        let ghost mut gone: Set<Seq<char>> = Set::empty();
        let mut i: usize = n;
        while i > 0
            invariant
                i <= n,
                n == start.len(),
                marks@.len() == n,
                distinct_keys(start),
                m == forest_of(start),
                forall|j: int| 0 <= j < n ==> marks@[j] == in_subtree(m, dataset@, start[j].key()),
                distinct_keys(self.nodes@),
                self.rank@ == rank,
                self.limit@ == limit,
                self.nodes@.len() >= i,
                forall|j: int| 0 <= j < i ==> self.nodes@[j] == start[j],
                forest_of(self.nodes@) == m.remove_keys(gone),
                forall|k: Seq<char>|
                    gone.contains(k) <==> exists|j: int|
                        i <= j < n && marks@[j] && #[trigger] start[j].key() == k,
            decreases i,
        {
            i = i - 1;
            if marks[i] {
                let ghost key = start[i as int].key();
                proof {
                    lemma_forest_remove(self.nodes@, i as int);
                    assert(m.remove_keys(gone).remove(key) =~= m.remove_keys(gone.insert(key)));
                }
                let _ = self.nodes.remove(i);
                proof {
                    gone = gone.insert(key);
                    assert forall|k: Seq<char>|
                        gone.contains(k) <==> exists|j: int|
                            i <= j < n && marks@[j] && #[trigger] start[j].key() == k by {
                        if k == key {
                            assert(marks@[i as int] && start[i as int].key() == k);
                        }
                    }
                }
            }
        }
        proof {
            let after = self@;
            assert forall|k: Seq<char>| gone.contains(k) <==> in_subtree(m, dataset@, k) by {
                if in_subtree(m, dataset@, k) {
                    lemma_subtree_in_dom(m, rank, dataset@, k);
                    let j = position(start, k);
                    assert(marks@[j] && start[j].key() == k);
                }
            }
            assert(after =~= spec_revoke(m, dataset@));
            lemma_revoke_ranked(m, rank, dataset@);
        }
        Ok(removed)
    }

    /// What the store records of the dataset at `path`: its display name
    /// and its label.
    fn record(path: &str, tag: Option<&str>) -> (r: Result<(String, String), Error>)
        ensures
            match r {
                Ok(pair) => spec_record(path@, opt_view(tag)) == Ok::<(Seq<char>, Seq<char>), Error>(
                    (pair.0@, pair.1@),
                ),
                Err(e) => spec_record(path@, opt_view(tag)) == Err::<(Seq<char>, Seq<char>), Error>(
                    e,
                ),
            },
    {
        let pair = tag_label(tag)?;
        match file_name(path) {
            Some(name) => Ok((name, label_text(&pair))),
            None => Err(Error::NotFound),
        }
    }

    /// Tracks `new_key` as a root whose label is read from `tag`, the text
    /// of its label tag if it has one. A dataset that was tracked already
    /// becomes a root and takes the new label; what was derived from it
    /// stays derived from it.
    pub fn insert(&mut self, new_key: &str, tag: Option<&str>) -> (r: Result<(), Error>)
        requires
            old(self).wf(),
        ensures
            final(self).wf(),
            match spec_record(new_key@, opt_view(tag)) {
                Ok(record) => r is Ok && final(self)@ == old(self)@.insert(
                    new_key@,
                    root_entry(record.0, seq![record.1]),
                ),
                Err(e) => r == Err::<(), Error>(e) && final(self)@ == old(self)@,
            },
    {
        let (name, label) = Self::record(new_key, tag)?;
        let mut labels: Vec<String> = Vec::new();
        labels.push(label);
        assert(texts(labels@) =~= seq![label@]);
        self.put_root(new_key, name, labels);
        Ok(())
    }

    /// Records that `new_key` was derived from `from`. The labels of both
    /// are read from their tags. `from` is added as a root if it was not
    /// tracked; `new_key` becomes a child of `from` and takes the label
    /// read, whether it was tracked before or not. A derivation that would
    /// make a dataset its own ancestor is refused.
    pub fn derive(
        &mut self,
        new_key: &str,
        from: &str,
        new_tag: Option<&str>,
        from_tag: Option<&str>,
    ) -> (r: Result<(), Error>)
        requires
            old(self).wf(),
        ensures
            final(self).wf(),
            match spec_record(from@, opt_view(from_tag)) {
                Ok(source) => match spec_record(new_key@, opt_view(new_tag)) {
                    Ok(target) => if derive_rejected(old(self)@, new_key@, from@) {
                        r == Err::<(), Error>(Error::Cyclic) && final(self)@ == old(self)@
                    } else {
                        r is Ok && final(self)@ == spec_derive(
                            old(self)@,
                            new_key@,
                            target.0,
                            seq![target.1],
                            from@,
                            source.0,
                            seq![source.1],
                        )
                    },
                    Err(e) => r == Err::<(), Error>(e) && final(self)@ == old(self)@,
                },
                Err(e) => r == Err::<(), Error>(e) && final(self)@ == old(self)@,
            },
    {
        let (source_name, source_label) = Self::record(from, from_tag)?;
        let (name, label) = Self::record(new_key, new_tag)?;
        let mut source_labels: Vec<String> = Vec::new();
        source_labels.push(source_label);
        let mut labels: Vec<String> = Vec::new();
        labels.push(label);
        assert(texts(labels@) =~= seq![label@]);
        assert(texts(source_labels@) =~= seq![source_label@]);
        self.put_child(new_key, name, labels, from, source_name, source_labels)
    }

    /// Builds the store that the persisted records `roots` describe. The
    /// records must be well-formed: every root without a parent, every
    /// nested record naming the record around it as its parent, and no key
    /// twice.
    pub fn from_roots(roots: &Vec<(String, TableEntry)>) -> (r: Result<Table, Error>)
        ensures
            match r {
                Ok(t) => t.wf() && spec_from_roots(roots@) == Some(t@),
                Err(e) => e == Error::InvalidFormat && spec_from_roots(roots@) is None,
            },
    {
        let mut nodes: Vec<Node> = Vec::new();
        let mut i: usize = 0;
        assert(forest_of(nodes@) =~= forest_map(roots@, 0));
        while i < roots.len()
            invariant
                i <= roots.len(),
                distinct_keys(nodes@),
                ordered(nodes@),
                valid_forest(roots@, i as nat, None),
                forest_of(nodes@) == forest_map(roots@, i as nat),
            decreases roots.len() - i,
        {
            let ghost before = nodes@;
            let ok = flatten_tree(roots[i].0.as_str(), &roots[i].1, None, &mut nodes);
            if !ok {
                proof {
                    if valid_forest(roots@, roots@.len(), None) {
                        lemma_valid_forest_prefix(
                            roots@,
                            (i + 1) as nat,
                            roots@.len(),
                            None,
                        );
                    }
                }
                return Err(Error::InvalidFormat);
            }
            proof {
                assert(forest_map(roots@, (i + 1) as nat) == forest_map(
                    roots@,
                    i as nat,
                ).union_prefer_right(tree_map(roots@[i as int].0@, roots@[i as int].1)));
            }
            i = i + 1;
        }
        proof {
            lemma_ordered_ranked(nodes@);
        }
        let ghost rank = position_rank(nodes@);
        let ghost limit = nodes@.len();
        Ok(Table { nodes, rank: Ghost(rank), limit: Ghost(limit) })
    }

    /// The records of the nodes whose parent is `parent`, each with what
    /// was derived from it nested inside.
    fn collect(&self, parent: Option<&str>) -> (out: Vec<(String, TableEntry)>)
        requires
            self.wf(),
            parent matches Some(p) ==> self@.dom().contains(p@),
        ensures
            valid_forest(out@, out@.len(), opt_view(parent)),
            forest_map(out@, out@.len()) == covered_map(
                self.nodes@,
                opt_view(parent),
                self.nodes@.len() as int,
            ),
        decreases
                match parent {
                    Some(p) => self.limit@ - (self.rank@)(p@),
                    None => (self.limit@ + 1) as int,
                },
    {
        let ghost m = self@;
        let ghost rank = self.rank@;
        let ghost nodes = self.nodes@;
        let ghost above = opt_view(parent);
        let mut out: Vec<(String, TableEntry)> = Vec::new();
        let mut j: usize = 0;
        assert(forest_map(out@, 0) =~= covered_map(nodes, above, 0));
        while j < self.nodes.len()
            invariant
                self.wf(),
                m == self@,
                rank == self.rank@,
                nodes == self.nodes@,
                above == opt_view(parent),
                parent matches Some(p) ==> m.dom().contains(p@),
                j <= self.nodes.len(),
                valid_forest(out@, out@.len(), above),
                forest_map(out@, out@.len()) == covered_map(nodes, above, j as int),
            decreases self.nodes.len() - j,
        {
            let node = &self.nodes[j];
            let is_child = match &node.parent {
                None => parent.is_none(),
                Some(q) => match parent {
                    Some(p) => str_eq(q.as_str(), p),
                    None => false,
                },
            };
            assert(is_child == is_child_at(nodes, j as int, above));
            if is_child {
                let ghost key = nodes[j as int].key();
                proof {
                    lemma_position(nodes, j as int);
                    assert(m.dom().contains(key));
                }
                let inner = self.collect(Some(node.key.as_str()));
                let entry = TableEntry {
                    labels: clone_texts(&node.labels),
                    name: node.name.clone(),
                    children: inner,
                    parent: match &node.parent {
                        Some(q) => {
                            let mut v: Vec<String> = Vec::new();
                            v.push(q.clone());
                            Some(v)
                        },
                        None => None,
                    },
                };
                let ghost before = out@;
                proof {
                    let below = covered_map(nodes, Some(key), nodes.len() as int);
                    assert(record_entry(entry) == nodes[j as int].entry());
                    assert(names_parent(entry, above));
                    // Nothing below the node is the node itself.
                    assert(!below.dom().contains(key)) by {
                        if covered(nodes, Some(key), nodes.len() as int, key) {
                            let t = choose|t: int|
                                0 <= t < nodes.len() && #[trigger] is_child_at(nodes, t, Some(key))
                                    && in_subtree(m, nodes[t].key(), key);
                            lemma_position(nodes, t);
                            lemma_subtree_in_dom(m, rank, nodes[t].key(), key);
                        }
                    }
                    assert(valid_tree(key, entry, above));
                    // The record holds exactly the subtree of the node.
                    assert(tree_map(key, entry) =~= subtree_map(m, key)) by {
                        assert(up(m, key, 0) == Some(key));
                        assert forall|k: Seq<char>| tree_map(key, entry).dom().contains(k)
                            <==> subtree_map(m, key).dom().contains(k) by {
                            if k != key && covered(nodes, Some(key), nodes.len() as int, k) {
                                let t = choose|t: int|
                                    0 <= t < nodes.len() && #[trigger] is_child_at(
                                        nodes,
                                        t,
                                        Some(key),
                                    ) && in_subtree(m, nodes[t].key(), k);
                                lemma_position(nodes, t);
                                assert(up(m, key, 0) == Some(key));
                                lemma_child_in_subtree(m, rank, key, nodes[t].key());
                                lemma_subtree_transitive(m, rank, key, nodes[t].key(), k);
                                lemma_subtree_in_dom(m, rank, key, k);
                            }
                            if k != key && in_subtree(m, key, k) {
                                lemma_subtree_in_dom(m, rank, key, k);
                                let c = lemma_below_child(m, rank, key, k);
                                let t = position(nodes, c);
                                lemma_position(nodes, t);
                                assert(is_child_at(nodes, t, Some(key)));
                            }
                        }
                    }
                    // It shares nothing with the records gathered so far.
                    assert(forest_map(before, before.len()).dom().disjoint(
                        tree_map(key, entry).dom(),
                    )) by {
                        assert forall|k: Seq<char>|
                            !(forest_map(before, before.len()).dom().contains(k) && tree_map(
                                key,
                                entry,
                            ).dom().contains(k)) by {
                            if covered(nodes, above, j as int, k) && in_subtree(m, key, k) {
                                let t = choose|t: int|
                                    0 <= t < j && #[trigger] is_child_at(nodes, t, above)
                                        && in_subtree(m, nodes[t].key(), k);
                                lemma_position(nodes, t);
                                lemma_siblings_disjoint(m, rank, nodes[t].key(), key, k);
                            }
                        }
                    }
                }
                out.push((node.key.clone(), entry));
                proof {
                    let n = before.len();
                    lemma_forest_map_prefix(before, out@, n, above);
                    assert(out@[n as int].0@ == key);
                    assert(out@[n as int].1 == entry);
                    assert(forest_map(out@, out@.len()) == forest_map(out@, n).union_prefer_right(
                        tree_map(key, entry),
                    ));
                    assert(forest_map(out@, out@.len()) =~= covered_map(nodes, above, j + 1)) by {
                        assert forall|k: Seq<char>|
                            covered(nodes, above, j + 1, k) <==> (covered(nodes, above, j as int, k)
                                || in_subtree(m, key, k)) by {
                            if covered(nodes, above, j + 1, k) {
                                let t = choose|t: int|
                                    0 <= t < j + 1 && #[trigger] is_child_at(nodes, t, above)
                                        && in_subtree(m, nodes[t].key(), k);
                                if t < j {
                                    assert(covered(nodes, above, j as int, k));
                                }
                            }
                            if covered(nodes, above, j as int, k) {
                                let t = choose|t: int|
                                    0 <= t < j && #[trigger] is_child_at(nodes, t, above)
                                        && in_subtree(m, nodes[t].key(), k);
                                assert(0 <= t < j + 1);
                            }
                            if in_subtree(m, key, k) {
                                assert(is_child_at(nodes, j as int, above));
                            }
                        }
                        assert forall|k: Seq<char>| in_subtree(m, key, k) implies m.dom().contains(
                            k,
                        ) by {
                            lemma_subtree_in_dom(m, rank, key, k);
                        }
                    }
                }
            } else {
                proof {
                    assert(covered_map(nodes, above, j + 1) =~= covered_map(nodes, above, j as int))
                        by {
                        assert forall|k: Seq<char>|
                            covered(nodes, above, j + 1, k) <==> covered(
                                nodes,
                                above,
                                j as int,
                                k,
                            ) by {
                            if covered(nodes, above, j + 1, k) {
                                let t = choose|t: int|
                                    0 <= t < j + 1 && #[trigger] is_child_at(nodes, t, above)
                                        && in_subtree(m, nodes[t].key(), k);
                                assert(t < j);
                            }
                            if covered(nodes, above, j as int, k) {
                                let t = choose|t: int|
                                    0 <= t < j && #[trigger] is_child_at(nodes, t, above)
                                        && in_subtree(m, nodes[t].key(), k);
                                assert(0 <= t < j + 1);
                            }
                        }
                    }
                }
            }
            j = j + 1;
        }
        out
    }

    /// The persisted form of the store: the records of its roots, each
    /// with what was derived from it nested inside. Loading these records
    /// gives the same store again.
    pub fn roots(&self) -> (out: Vec<(String, TableEntry)>)
        requires
            self.wf(),
        ensures
            spec_from_roots(out@) == Some(self@),
    {
        let out = self.collect(None);
        proof {
            let m = self@;
            let rank = self.rank@;
            let nodes = self.nodes@;
            assert(covered_map(nodes, None, nodes.len() as int) =~= m) by {
                assert forall|k: Seq<char>| m.dom().contains(k) implies covered(
                    nodes,
                    None,
                    nodes.len() as int,
                    k,
                ) by {
                    let r = lemma_has_root(m, rank, k);
                    let t = position(nodes, r);
                    lemma_position(nodes, t);
                    assert(is_child_at(nodes, t, None));
                }
            }
        }
        out
    }

    /// Stops tracking `name`. What was derived from `name` becomes a root.
    /// Where that leaves the dataset that `name` was derived from with
    /// nothing derived from it, that one is removed as well, and so on
    /// upwards.
    fn _delete(&mut self, name: &str) -> (r: Result<(), Error>)
        requires
            old(self).wf(),
        ensures
            final(self).wf(),
            old(self)@.dom().contains(name@) ==> r is Ok && final(self)@ == spec_delete(
                old(self)@,
                name@,
            ),
            !old(self)@.dom().contains(name@) ==> r == Err::<(), Error>(Error::NotFound)
                && final(self)@ == old(self)@,
    {
        let ghost m = self@;
        let ghost rank = self.rank@;
        let ghost limit = self.limit@;
        assert forall|k: Seq<char>| #[trigger] m.dom().contains(k) implies rank(k) < limit by {}
        match self.find(name) {
            None => {
                return Err(Error::NotFound);
            },
            Some(found) => {
                proof {
                    lemma_position(self.nodes@, found as int);
                }
            },
        }
        let ghost start = self.nodes@;
        let mut i: usize = 0;
        while i < self.nodes.len()
            invariant
                i <= self.nodes.len(),
                self.nodes@.len() == start.len(),
                self.rank@ == rank,
                self.limit@ == limit,
                forall|j: int| 0 <= j < i ==> is_orphaned(start[j], #[trigger] self.nodes@[j], name@),
                forall|j: int| i <= j < start.len() ==> self.nodes@[j] == start[j],
            decreases self.nodes.len() - i,
        {
            let clear = match &self.nodes[i].parent {
                Some(p) => str_eq(p.as_str(), name),
                None => false,
            };
            if clear {
                self.nodes[i].parent = None;
            }
            i = i + 1;
        }
        let ghost base = orphaned(m, name@);
        proof {
            lemma_forest_orphan(start, self.nodes@, name@);
            lemma_delete_ranked(m, rank, name@);
        }
        let mut cur: String = name.to_owned();
        let ghost mut n: nat = 0;
        let ghost mut gone: Set<Seq<char>> = Set::empty();
        assert(base.remove_keys(gone) =~= base);
        loop
            invariant
                self.rank@ == rank,
                self.limit@ == limit,
                m == old(self)@,
                ranked(m, rank),
                ranked(spec_delete(m, name@), rank),
                forall|k: Seq<char>| #[trigger] m.dom().contains(k) ==> rank(k) < limit,
                base == orphaned(m, name@),
                distinct_keys(self.nodes@),
                forest_of(self.nodes@) == base.remove_keys(gone),
                m.dom().contains(name@),
                pruned(m, name@, n),
                up(m, name@, n) == Some(cur@),
                forall|k: Seq<char>|
                    gone.contains(k) <==> exists|i: nat| i < n && up(m, name@, i) == Some(k),
            decreases rank(cur@),
        {
            proof {
                lemma_up_rank(m, rank, name@, n);
                assert(!gone.contains(cur@)) by {
                    if gone.contains(cur@) {
                        let i = choose|i: nat| i < n && up(m, name@, i) == Some(cur@);
                        lemma_up_distinct(m, rank, name@, i, n);
                    }
                }
                assert(forest_of(self.nodes@).dom().contains(cur@));
            }
            let idx = match find_node(&self.nodes, cur.as_str()) {
                Some(idx) => idx,
                None => {
                    assert(false);
                    return Ok(());
                },
            };
            proof {
                lemma_position(self.nodes@, idx as int);
                lemma_forest_remove(self.nodes@, idx as int);
                assert(base.remove_keys(gone).remove(cur@) =~= base.remove_keys(gone.insert(cur@)));
                // The parent of an entry on the way up is not `name`.
                assert(m[cur@].parent != Some(name@)) by {
                    if m[cur@].parent == Some(name@) {
                        assert(up(m, name@, n + 1) == Some(name@));
                        assert(up(m, name@, 0) == Some(name@));
                        lemma_up_distinct(m, rank, name@, 0, n + 1);
                    }
                }
            }
            let node = self.nodes.remove(idx);
            let ghost before_gone = gone;
            proof {
                gone = gone.insert(cur@);
                assert forall|k: Seq<char>|
                    gone.contains(k) <==> exists|i: nat| i < n + 1 && up(m, name@, i) == Some(
                        k,
                    ) by {
                    if before_gone.contains(k) {
                        let i = choose|i: nat| i < n && up(m, name@, i) == Some(k);
                        assert(i < n + 1);
                    }
                    if exists|i: nat| i < n + 1 && up(m, name@, i) == Some(k) {
                        let i = choose|i: nat| i < n + 1 && up(m, name@, i) == Some(k);
                        if i < n {
                            assert(before_gone.contains(k));
                        }
                    }
                }
            }
            let stop = match &node.parent {
                None => true,
                Some(p) => has_child(&self.nodes, p.as_str()),
            };
            proof {
                let view = forest_of(self.nodes@);
                assert(node.entry().parent == m[cur@].parent);
                assert(up(m, name@, n + 1) == m[cur@].parent);
                if let Some(p) = m[cur@].parent {
                    assert(m.dom().contains(p));
                    if stop {
                        let t = choose|t: int|
                            0 <= t < self.nodes@.len() && (#[trigger] self.nodes@[t]).entry().parent
                                == Some(p);
                        lemma_position(self.nodes@, t);
                        let k = self.nodes@[t].key();
                        assert(view.dom().contains(k));
                        assert(m[k].parent == Some(p));
                        assert(has_edge(m, k, p));
                        assert(k != cur@);
                        assert(!only_child(m, cur@, p));
                    } else {
                        assert(only_child(m, cur@, p)) by {
                            assert forall|k: Seq<char>| has_edge(m, k, p) implies k == cur@ by {
                                if k != cur@ {
                                    assert(base[k].parent == Some(p)) by {
                                        if p == name@ {
                                            assert(up(m, name@, 0) == Some(name@));
                                            lemma_up_distinct(m, rank, name@, 0, n + 1);
                                        }
                                    }
                                    if before_gone.contains(k) {
                                        let i = choose|i: nat| i < n && up(m, name@, i) == Some(k);
                                        assert(up(m, name@, i + 1) == Some(p));
                                        lemma_up_distinct(m, rank, name@, i + 1, n + 1);
                                    }
                                    assert(view.dom().contains(k));
                                    let t = position(self.nodes@, k);
                                    lemma_position(self.nodes@, t);
                                    assert(self.nodes@[t].entry().parent == Some(p));
                                }
                            }
                        }
                    }
                }
                if stop {
                    // Nothing further up is taken along.
                    assert(!pruned(m, name@, n + 1));
                    assert forall|k: Seq<char>| deleted(m, name@, k) <==> gone.contains(k) by {
                        if deleted(m, name@, k) {
                            let j = choose|j: nat| pruned(m, name@, j) && up(m, name@, j) == Some(k);
                            if j > n {
                                lemma_pruned_prefix(m, name@, n + 1, j);
                            }
                            assert(j < n + 1);
                        }
                        if gone.contains(k) {
                            let i = choose|i: nat| i < n + 1 && up(m, name@, i) == Some(k);
                            lemma_pruned_prefix(m, name@, i, n);
                        }
                    }
                    assert(view =~= spec_delete(m, name@));
                    assert forall|k: Seq<char>| #[trigger] view.dom().contains(k) implies rank(k)
                        < limit by {
                        assert(m.dom().contains(k));
                    }
                }
            }
            if stop {
                return Ok(());
            }
            match node.parent {
                Some(p) => {
                    proof {
                        lemma_up_distinct(m, rank, name@, n, n + 1);
                        n = n + 1;
                    }
                    cur = p;
                },
                None => {
                    return Ok(());
                },
            }
        }
    }

    /// Stops tracking `dataset`. What was derived from `dataset` becomes a
    /// root. Where that leaves the dataset that `dataset` was derived from
    /// with nothing derived from it, that one is removed as well, and so on
    /// upwards.
    pub fn delete(&mut self, dataset: &str) -> (r: Result<(), Error>)
        requires
            old(self).wf(),
        ensures
            final(self).wf(),
            old(self)@.dom().contains(dataset@) ==> r is Ok && final(self)@ == spec_delete(
                old(self)@,
                dataset@,
            ),
            !old(self)@.dom().contains(dataset@) ==> r == Err::<(), Error>(Error::NotFound)
                && final(self)@ == old(self)@,
    {
        self._delete(dataset)
    }
}

} // verus!
