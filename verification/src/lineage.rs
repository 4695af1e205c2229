//! What holds of the provenance store whatever is tracked: deriving
//! records an edge once, revocation cascades, renaming preserves lineage.

use vstd::prelude::*;

use crate::forest::{
    children, derive_rank, derive_rejected, has_edge, in_subtree, is_forest,
    lemma_child_in_subtree, lemma_derive_ranked, lemma_rename_ranked, lemma_revoke_ranked,
    lemma_subtree_in_dom, lemma_subtree_transitive, ranked, rename_rejected, spec_derive,
    spec_rename, spec_revoke, up, with_source, Forest,
};

verus! {

/// Deriving a dataset from a source makes it a direct child of the
/// source. Deriving it once more with the same labels is accepted again
/// and changes nothing: the source has the same children as before.
pub proof fn law_derive_records_edge(
    m: Forest,
    target: Seq<char>,
    name: Seq<char>,
    labels: Seq<Seq<char>>,
    source: Seq<char>,
    source_name: Seq<char>,
    source_labels: Seq<Seq<char>>,
)
    requires
        is_forest(m),
        !derive_rejected(m, target, source),
    ensures
        ({
            let once = spec_derive(m, target, name, labels, source, source_name, source_labels);
            let twice = spec_derive(
                once,
                target,
                name,
                labels,
                source,
                source_name,
                source_labels,
            );
            &&& is_forest(once)
            &&& has_edge(once, target, source)
            &&& !derive_rejected(once, target, source)
            &&& twice == once
            &&& children(twice, source) == children(once, source)
        }),
{
    let rank = choose|rank: spec_fn(Seq<char>) -> nat| ranked(m, rank);
    let once = spec_derive(m, target, name, labels, source, source_name, source_labels);
    let twice = spec_derive(once, target, name, labels, source, source_name, source_labels);
    lemma_derive_ranked(m, rank, target, name, labels, source, source_name, source_labels);
    let lifted = derive_rank(
        with_source(m, source, source_name, source_labels),
        rank,
        target,
        source,
    );
    assert(ranked(once, lifted));
    assert(has_edge(once, target, source));
    if in_subtree(once, target, source) {
        lemma_subtree_in_dom(once, lifted, target, source);
        assert(once.dom().contains(target));
        assert(lifted(source) < lifted(target));
    }
    assert(twice =~= once);
}

/// Revocation cascades. Whatever was derived from the revoked dataset,
/// however indirectly, is gone with it; every other entry stays as it
/// was; and no entry that stays was derived from one that is gone.
pub proof fn law_revoke_cascades(m: Forest, dataset: Seq<char>, k: Seq<char>)
    requires
        is_forest(m),
    ensures
        is_forest(spec_revoke(m, dataset)),
        in_subtree(m, dataset, k) ==> !spec_revoke(m, dataset).dom().contains(k),
        m.dom().contains(k) && !in_subtree(m, dataset, k) ==> spec_revoke(m, dataset).dom().contains(
            k,
        ) && spec_revoke(m, dataset)[k] == m[k],
        spec_revoke(m, dataset).dom().contains(k) ==> forall|a: Seq<char>|
            in_subtree(m, a, k) ==> spec_revoke(m, dataset).dom().contains(a),
{
    let rank = choose|rank: spec_fn(Seq<char>) -> nat| ranked(m, rank);
    lemma_revoke_ranked(m, rank, dataset);
    if spec_revoke(m, dataset).dom().contains(k) {
        assert forall|a: Seq<char>| in_subtree(m, a, k) implies spec_revoke(
            m,
            dataset,
        ).dom().contains(a) by {
            lemma_subtree_in_dom(m, rank, a, k);
            if in_subtree(m, dataset, a) {
                lemma_subtree_transitive(m, rank, dataset, a, k);
            }
        }
    }
}

/// In a chain where `b` was derived from `a` and `c` from `b`, revoking
/// `a` removes all three, and revoking `b` removes `b` and `c` and leaves
/// `a` as it was.
pub proof fn law_revoke_chain(m: Forest, a: Seq<char>, b: Seq<char>, c: Seq<char>)
    requires
        is_forest(m),
        has_edge(m, b, a),
        has_edge(m, c, b),
    ensures
        !spec_revoke(m, a).dom().contains(a),
        !spec_revoke(m, a).dom().contains(b),
        !spec_revoke(m, a).dom().contains(c),
        !spec_revoke(m, b).dom().contains(b),
        !spec_revoke(m, b).dom().contains(c),
        spec_revoke(m, b).dom().contains(a),
        spec_revoke(m, b)[a] == m[a],
{
    let rank = choose|rank: spec_fn(Seq<char>) -> nat| ranked(m, rank);
    assert(up(m, a, 0) == Some(a));
    assert(up(m, b, 0) == Some(b));
    assert(in_subtree(m, a, a));
    assert(in_subtree(m, b, b));
    lemma_child_in_subtree(m, rank, a, b);
    lemma_child_in_subtree(m, rank, b, c);
    lemma_child_in_subtree(m, rank, a, c);
    if in_subtree(m, b, a) {
        lemma_subtree_in_dom(m, rank, b, a);
        assert(rank(a) < rank(b));
    }
}

/// Revocation cascades down a chain that was built by deriving. After `b`
/// was derived from `a` and `c` from `b`, revoking `a` removes all three,
/// and revoking `b` removes `b` and `c` and leaves `a`.
pub proof fn law_revoke_derived_chain(
    m: Forest,
    a: Seq<char>,
    b: Seq<char>,
    c: Seq<char>,
    a_name: Seq<char>,
    a_labels: Seq<Seq<char>>,
    b_name: Seq<char>,
    b_labels: Seq<Seq<char>>,
    c_name: Seq<char>,
    c_labels: Seq<Seq<char>>,
)
    requires
        is_forest(m),
        a != c,
        !derive_rejected(m, b, a),
        !derive_rejected(spec_derive(m, b, b_name, b_labels, a, a_name, a_labels), c, b),
    ensures
        ({
            let first = spec_derive(m, b, b_name, b_labels, a, a_name, a_labels);
            let chain = spec_derive(first, c, c_name, c_labels, b, b_name, b_labels);
            &&& chain.dom().contains(a) && chain.dom().contains(b) && chain.dom().contains(c)
            &&& !spec_revoke(chain, a).dom().contains(a)
            &&& !spec_revoke(chain, a).dom().contains(b)
            &&& !spec_revoke(chain, a).dom().contains(c)
            &&& !spec_revoke(chain, b).dom().contains(b)
            &&& !spec_revoke(chain, b).dom().contains(c)
            &&& spec_revoke(chain, b).dom().contains(a)
        }),
{
    let first = spec_derive(m, b, b_name, b_labels, a, a_name, a_labels);
    let chain = spec_derive(first, c, c_name, c_labels, b, b_name, b_labels);
    law_derive_records_edge(m, b, b_name, b_labels, a, a_name, a_labels);
    law_derive_records_edge(first, c, c_name, c_labels, b, b_name, b_labels);
    assert(has_edge(chain, b, a));
    law_revoke_chain(chain, a, b, c);
}

/// Renaming preserves lineage. After a child of `source` was renamed, and
/// the new name differs from the old one, `source` has the new name as a
/// direct child and the old name no longer; the labels are the same.
pub proof fn law_rename_preserves_lineage(
    m: Forest,
    new_key: Seq<char>,
    old_key: Seq<char>,
    source: Seq<char>,
)
    requires
        is_forest(m),
        has_edge(m, old_key, source),
        !rename_rejected(m, new_key, old_key),
        new_key != old_key,
    ensures
        is_forest(spec_rename(m, new_key, old_key)),
        has_edge(spec_rename(m, new_key, old_key), new_key, source),
        !has_edge(spec_rename(m, new_key, old_key), old_key, source),
        !spec_rename(m, new_key, old_key).dom().contains(old_key),
        spec_rename(m, new_key, old_key)[new_key].labels == m[old_key].labels,
{
    let rank = choose|rank: spec_fn(Seq<char>) -> nat| ranked(m, rank);
    lemma_rename_ranked(m, rank, new_key, old_key);
    assert(source != old_key) by {
        assert(rank(source) < rank(old_key));
    }
    if source == new_key {
        assert(up(m, source, 0) == Some(new_key));
        lemma_child_in_subtree(m, rank, new_key, old_key);
    }
}

/// What was derived from a renamed dataset is derived from its new name.
pub proof fn law_rename_keeps_children(
    m: Forest,
    new_key: Seq<char>,
    old_key: Seq<char>,
    child: Seq<char>,
)
    requires
        is_forest(m),
        has_edge(m, child, old_key),
        !rename_rejected(m, new_key, old_key),
        child != new_key,
    ensures
        has_edge(spec_rename(m, new_key, old_key), child, new_key),
        spec_rename(m, new_key, old_key)[child].labels == m[child].labels,
{
    let rank = choose|rank: spec_fn(Seq<char>) -> nat| ranked(m, rank);
    assert(rank(old_key) < rank(child));
}

} // verus!
