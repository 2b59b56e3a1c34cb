//! The table's laws, stated over the views that the operations'
//! contracts speak of and proved once for every key and value type.

use vstd::prelude::*;
use crate::keys::TableKey;
use crate::table::LinkedHashMap;

verus! {

/// Round-trip: a table produced by inserting `(k, v)` holds `v` under
/// `k`'s view, so a lookup of `k` yields `v`.
pub proof fn lemma_round_trip<K: TableKey, V>(
    t: LinkedHashMap<K, V>,
    post: LinkedHashMap<K, V>,
    k: K,
    v: V,
)
    requires
        t.wf(),
        post.wf(),
        post@ == t@.insert(k@, v),
    ensures
        post@.contains_key(k@),
        post@[k@] == v,
{
}

/// Replacement: inserting over an existing key leaves the length
/// unchanged; inserting a fresh key raises it by exactly one.
pub proof fn lemma_replacement<K: TableKey, V>(
    t: LinkedHashMap<K, V>,
    post: LinkedHashMap<K, V>,
    k: K,
    v: V,
)
    requires
        t.wf(),
        post.wf(),
        post@ == t@.insert(k@, v),
    ensures
        t@.contains_key(k@) ==> post@.len() == t@.len(),
        !t@.contains_key(k@) ==> post@.len() == t@.len() + 1,
{
    broadcast use vstd::set::axiom_set_insert_len;

    t.lemma_view_finite();
    assert(post@.dom() =~= t@.dom().insert(k@));
}

/// Removal: after removing a key the table no longer holds it; the
/// length drops by exactly one when the key was present and nothing
/// changes when it was absent.
pub proof fn lemma_removal<K: TableKey, V>(
    t: LinkedHashMap<K, V>,
    post: LinkedHashMap<K, V>,
    k: K,
)
    requires
        t.wf(),
        post.wf(),
        post@ == t@.remove(k@),
    ensures
        !post@.contains_key(k@),
        t@.contains_key(k@) ==> post@.len() + 1 == t@.len(),
        !t@.contains_key(k@) ==> post@ == t@ && post@.len() == t@.len(),
{
    t.lemma_view_finite();
    if t@.contains_key(k@) {
        t@.lemma_remove_key_len(k@);
    } else {
        assert(t@.remove(k@) =~= t@);
    }
}

} // verus!
