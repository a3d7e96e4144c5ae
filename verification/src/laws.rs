use vstd::prelude::*;

use crate::node::lemma_prefix_trans;
use crate::trie::ancestor_key;
use crate::trie::lemma_ancestor_key_some;

verus! {

/// Round-trip: after `insert(k, v)` an exact lookup of k yields v.
/// `Trie::insert` turns the view `m` into `m.insert(k, v)` and `Trie::get`
/// reads that view, so together with their contracts this pins the pair down.
pub proof fn law_round_trip<V>(m: Map<Seq<u8>, V>, k: Seq<u8>, v: V)
    ensures
        m.insert(k, v).contains_key(k),
        m.insert(k, v)[k] == v,
{
}

/// Replacement: inserting an existing key leaves the key set as it was, and
/// inserting a fresh key adds exactly that key. With the count clause of
/// `Trie::insert` this fixes how `len()` moves: unchanged on replacement, up
/// by one on a new key.
pub proof fn law_replacement<V>(m: Map<Seq<u8>, V>, k: Seq<u8>, v: V)
    ensures
        m.insert(k, v).dom() =~= m.dom().insert(k),
        m.contains_key(k) ==> m.insert(k, v).dom() =~= m.dom(),
{
}

/// Remove/get coherence: after `remove(k)` the key k reads as absent, and
/// every other key is untouched; `Trie::remove` itself returns exactly the
/// value present before, by its contract.
pub proof fn law_remove_get<V>(m: Map<Seq<u8>, V>, k: Seq<u8>)
    ensures
        !m.remove(k).contains_key(k),
        forall|k2: Seq<u8>| k2 != k ==> m.remove(k).contains_key(k2) == m.contains_key(k2),
        forall|k2: Seq<u8>| k2 != k && m.contains_key(k2) ==> m.remove(k)[k2] == m[k2],
{
}

/// Ancestor identity: a stored key is its own deepest stored prefix, so
/// `get_ancestor_value(k)` agrees with `get(k)` whenever k is present.
pub proof fn law_ancestor_identity<V>(m: Map<Seq<u8>, V>, k: Seq<u8>)
    requires
        m.contains_key(k),
    ensures
        ancestor_key(m, k) == Some(k),
{
    assert(k.is_prefix_of(k)) by {
        assert(k =~= k.subrange(0, k.len() as int));
    }
    lemma_ancestor_key_some(m, k, k);
}

/// Ancestor monotonicity: when a stored key b is a prefix of the query, the
/// ancestor found for the query is stored, is a prefix of the query, and is
/// at least as deep as b — a deeper stored key shadows every shorter one.
pub proof fn law_ancestor_monotonic<V>(m: Map<Seq<u8>, V>, b: Seq<u8>, q: Seq<u8>)
    requires
        m.contains_key(b),
        b.is_prefix_of(q),
    ensures
        ancestor_key(m, q) is Some,
        m.contains_key(ancestor_key(m, q)->0),
        (ancestor_key(m, q)->0).len() >= b.len(),
        (ancestor_key(m, q)->0).is_prefix_of(q),
    decreases q.len(),
{
    if m.contains_key(q) {
        assert(q.is_prefix_of(q)) by {
            assert(q =~= q.subrange(0, q.len() as int));
        }
    } else {
        if b.len() == q.len() {
            assert(b =~= q);
        }
        let q2 = q.drop_last();
        assert(q2.is_prefix_of(q)) by {
            assert(q2 =~= q.subrange(0, q2.len() as int));
        }
        assert(b.is_prefix_of(q2)) by {
            assert(b =~= q2.subrange(0, b.len() as int));
        }
        law_ancestor_monotonic(m, b, q2);
        lemma_prefix_trans(ancestor_key(m, q2)->0, q2, q);
    }
}

} // verus!
