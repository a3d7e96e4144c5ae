use vstd::prelude::*;

use crate::node::Node;
use crate::node::copy_front;
use crate::node::lemma_prefix_trans;
use crate::subtrie::SubTrie;
use crate::subtrie::SubTrieMut;

verus! {

/// The longest prefix of the query that the map has a key for, found by
/// peeling units off the query's end.
pub open spec fn ancestor_key<V>(m: Map<Seq<u8>, V>, q: Seq<u8>) -> Option<Seq<u8>>
    decreases q.len(),
{
    if m.contains_key(q) {
        Some(q)
    } else if q.len() == 0 {
        None::<Seq<u8>>
    } else {
        ancestor_key(m, q.drop_last())
    }
}

/// `ancestor_key` yields exactly the longest stored prefix of the query.
pub proof fn lemma_ancestor_key_some<V>(m: Map<Seq<u8>, V>, q: Seq<u8>, k: Seq<u8>)
    requires
        m.contains_key(k),
        k.is_prefix_of(q),
        forall|k2: Seq<u8>| m.contains_key(k2) && k2.is_prefix_of(q) ==> k2.len() <= k.len(),
    ensures
        ancestor_key(m, q) == Some(k),
    decreases q.len(),
{
    if m.contains_key(q) {
        assert(q.is_prefix_of(q)) by {
            assert(q =~= q.subrange(0, q.len() as int));
        }
        assert(k =~= q);
    } else {
        if k.len() == q.len() {
            assert(k =~= q);
        }
        let q2 = q.drop_last();
        assert(q2.is_prefix_of(q)) by {
            assert(q2 =~= q.subrange(0, q2.len() as int));
        }
        assert(k.is_prefix_of(q2)) by {
            assert(k =~= q2.subrange(0, k.len() as int));
        }
        assert forall|k2: Seq<u8>|
            m.contains_key(k2) && k2.is_prefix_of(q2) implies k2.len() <= k.len() by {
            lemma_prefix_trans(k2, q2, q);
        }
        lemma_ancestor_key_some(m, q2, k);
    }
}

/// When no stored key is a prefix of the query, `ancestor_key` finds none.
pub proof fn lemma_ancestor_key_none<V>(m: Map<Seq<u8>, V>, q: Seq<u8>)
    requires
        forall|k2: Seq<u8>| m.contains_key(k2) ==> !k2.is_prefix_of(q),
    ensures
        ancestor_key(m, q) is None,
    decreases q.len(),
{
    if m.contains_key(q) {
        assert(q.is_prefix_of(q)) by {
            assert(q =~= q.subrange(0, q.len() as int));
        }
    } else if q.len() > 0 {
        let q2 = q.drop_last();
        assert(q2.is_prefix_of(q)) by {
            assert(q2 =~= q.subrange(0, q2.len() as int));
        }
        assert forall|k2: Seq<u8>| m.contains_key(k2) implies !k2.is_prefix_of(q2) by {
            if k2.is_prefix_of(q2) {
                lemma_prefix_trans(k2, q2, q);
            }
        }
        lemma_ancestor_key_none(m, q2);
    }
}

/// A compressed prefix tree mapping byte-string keys to values.
///
/// Viewed as a `Map<Seq<u8>, V>`. The root node always carries the empty key;
/// `length` counts the keys currently stored.
pub struct Trie<V> {
    root: Node<V>,
    length: usize,
}

impl<V> View for Trie<V> {
    type V = Map<Seq<u8>, V>;

    closed spec fn view(&self) -> Map<Seq<u8>, V> {
        self.root.as_map()
    }
}

impl<V> Trie<V> {
    /// The structural invariants: every node's key extends its parent's by at
    /// least one unit, children are filed under pairwise distinct units, every
    /// non-root node holds a value or branches at least two ways, the root's
    /// key is empty, and `length` counts the valued nodes.
    pub closed spec fn wf(self) -> bool {
        &&& self.root.wf()
        &&& self.root.key@.len() == 0
        &&& self.length as nat == self.root.count()
    }

    /// The number of keys stored.
    pub closed spec fn spec_len(self) -> nat {
        self.root.count()
    }

    /// An empty trie: a bare root with no value and no children.
    pub fn new() -> (t: Self)
        ensures
            t.wf(),
            t@ == Map::<Seq<u8>, V>::empty(),
            t.spec_len() == 0,
    {
        let t = Trie { root: Node { key: Vec::new(), value: None, children: Vec::new() }, length: 0 };
        proof {
            assert(Node::<V>::wf_seq(t.root.children@));
            assert(t.root.wf());
            assert(Node::<V>::count_seq(t.root.children@) == 0);
            assert forall|k: Seq<u8>, v: V| !t.root.kv_in(k, v) by {}
            assert forall|k: Seq<u8>| !t@.dom().contains(k) by {
                if t.root.has_key(k) {
                    let v = choose|v: V| t.root.kv_in(k, v);
                }
            }
            assert(t@ =~= Map::<Seq<u8>, V>::empty());
        }
        t
    }

    /// The number of keys stored.
    pub fn len(&self) -> (n: usize)
        requires
            self.wf(),
        ensures
            n as nat == self.spec_len(),
            self@.dom().finite(),
            n as nat == self@.dom().len(),
    {
        proof {
            self.root.lemma_count_is_dom_len();
        }
        self.length
    }

    /// Exact lookup: the value stored under exactly this key, if any.
    pub fn get<'a>(&'a self, key: &[u8]) -> (r: Option<&'a V>)
        requires
            self.wf(),
        ensures
            match r {
                Some(v) => self@.contains_key(key@) && *v == self@[key@],
                None => !self@.contains_key(key@),
            },
    {
        proof {
            assert(self.root.key@ =~= key@.subrange(0, 0));
        }
        let r = self.root.get_node(key);
        proof {
            match r {
                Some(v) => {
                    self.root.lemma_map_at(key@, *v);
                },
                None => {},
            }
        }
        r
    }

    /// Insert a value under a key, returning the value previously stored
    /// under it, if any. The count grows only when the key is new.
    pub fn insert(&mut self, key: &[u8], value: V) -> (prev: Option<V>)
        requires
            old(self).wf(),
            old(self).spec_len() < usize::MAX,
        ensures
            final(self).wf(),
            final(self)@ == old(self)@.insert(key@, value),
            match prev {
                Some(p) => old(self)@.contains_key(key@) && p == old(self)@[key@],
                None => !old(self)@.contains_key(key@),
            },
            final(self).spec_len() == old(self).spec_len() + (if prev is Some {
                0nat
            } else {
                1nat
            }),
    {
        proof {
            assert(self.root.key@ =~= key@.subrange(0, 0));
        }
        let prev = self.root.insert_node(key, value);
        if prev.is_none() {
            self.length = self.length + 1;
        }
        proof {
            Node::<V>::lemma_map_insert(old(self).root, self.root, key@, value);
            match &prev {
                Some(p) => {
                    old(self).root.lemma_map_at(key@, *p);
                },
                None => {
                    if old(self)@.contains_key(key@) {
                        assert(old(self).root.has_key(key@));
                    }
                },
            }
        }
        prev
    }

    /// Remove a key, returning the value stored under it, if any. The
    /// structure is repaired bottom-up so no redundant node survives.
    pub fn remove(&mut self, key: &[u8]) -> (prev: Option<V>)
        requires
            old(self).wf(),
        ensures
            final(self).wf(),
            final(self)@ == old(self)@.remove(key@),
            match prev {
                Some(p) => old(self)@.contains_key(key@) && p == old(self)@[key@],
                None => !old(self)@.contains_key(key@),
            },
            final(self).spec_len() + (if prev is Some {
                1nat
            } else {
                0nat
            }) == old(self).spec_len(),
    {
        proof {
            assert(self.root.key@ =~= key@.subrange(0, 0));
        }
        let prev = self.root.remove_node(key);
        if prev.is_some() {
            self.length = self.length - 1;
        }
        proof {
            Node::<V>::lemma_map_remove(old(self).root, self.root, key@);
            match &prev {
                Some(p) => {
                    old(self).root.lemma_map_at(key@, *p);
                },
                None => {
                    if old(self)@.contains_key(key@) {
                        assert(old(self).root.has_key(key@));
                    }
                },
            }
        }
        prev
    }

    /// Decide whether the structural invariants hold of the whole graph: a
    /// diagnostic for test harnesses, and the authoritative definition of
    /// "well-formed".
    pub fn check_integrity(&self) -> (r: bool)
        ensures
            r == self.wf(),
    {
        if !self.root.key.is_empty() {
            return false;
        }
        if !self.root.check_node() {
            return false;
        }
        match self.root.count_within(self.length) {
            Some(c) => c == self.length,
            None => false,
        }
    }

    /// Some node of the structure has exactly this key, valued or not.
    pub closed spec fn has_node(self, k: Seq<u8>) -> bool {
        self.root.nk_in(k)
    }

    /// Every stored key names a structurally present node, so `subtrie` and
    /// `subtrie_mut` succeed on it and the raw navigators can reach it.
    pub proof fn lemma_contains_has_node(self, k: Seq<u8>)
        requires
            self@.contains_key(k),
        ensures
            self.has_node(k),
    {
        let v = choose|v: V| self.root.kv_in(k, v);
        self.root.lemma_kv_implies_nk(k, v);
    }

    /// Conversely, below the root no redundant node exists: a non-empty
    /// structural key is itself stored, or is exactly a point where two
    /// stored keys diverge.
    pub proof fn lemma_has_node_branches(self, k: Seq<u8>)
        requires
            self.wf(),
            self.has_node(k),
            k.len() > 0,
        ensures
            self@.contains_key(k) || exists|k2: Seq<u8>, k3: Seq<u8>|
                #[trigger] self@.contains_key(k2) && #[trigger] self@.contains_key(k3)
                    && k.is_prefix_of(k2) && k.is_prefix_of(k3) && k2.len() > k.len() && k3.len()
                    > k.len() && k2[k.len() as int] != k3[k.len() as int],
    {
        self.root.lemma_nk_branch(k);
        if self.root.has_key(k) {
            let v = choose|v: V| self.root.kv_in(k, v);
            self.root.lemma_map_at(k, v);
        } else {
            let (k2, k3) = choose|k2: Seq<u8>, k3: Seq<u8>|
                #[trigger] self.root.has_key(k2) && #[trigger] self.root.has_key(k3)
                    && k.is_prefix_of(k2) && k.is_prefix_of(k3) && k2.len() > k.len() && k3.len()
                    > k.len() && k2[k.len() as int] != k3[k.len() as int];
            let v2 = choose|v2: V| self.root.kv_in(k2, v2);
            let v3 = choose|v3: V| self.root.kv_in(k3, v3);
            self.root.lemma_map_at(k2, v2);
            self.root.lemma_map_at(k3, v3);
            assert(self@.contains_key(k2) && self@.contains_key(k3) && k.is_prefix_of(k2)
                && k.is_prefix_of(k3) && k2.len() > k.len() && k3.len() > k.len()
                && k2[k.len() as int] != k3[k.len() as int]);
        }
    }

    /// The root's key, when the root itself holds a value: the empty key.
    pub fn key<'a>(&'a self) -> (r: Option<&'a Vec<u8>>)
        requires
            self.wf(),
        ensures
            match r {
                Some(k) => k@ == Seq::<u8>::empty() && self@.contains_key(k@),
                None => !self@.contains_key(Seq::<u8>::empty()),
            },
    {
        proof {
            self.root.lemma_no_child_at_own_key();
            assert(self.root.key@ =~= Seq::<u8>::empty());
            if self.root.value is Some {
                let v = self.root.value->0;
                assert(self.root.kv_in(self.root.key@, v));
                self.root.lemma_map_at(self.root.key@, v);
            } else {
                if self.root.has_key(self.root.key@) {
                    let w = choose|w: V| self.root.kv_in(self.root.key@, w);
                    Node::<V>::lemma_kv_seq(self.root.children@, self.root.key@, w);
                }
            }
        }
        if self.root.value.is_some() {
            Some(&self.root.key)
        } else {
            None
        }
    }

    /// The value of the deepest stored key that is a prefix of the query. A
    /// key that is itself stored is its own ancestor.
    pub fn get_ancestor_value<'a>(&'a self, key: &[u8]) -> (r: Option<&'a V>)
        requires
            self.wf(),
        ensures
            match r {
                Some(v) => ancestor_key(self@, key@) is Some && self@.contains_key(
                    ancestor_key(self@, key@)->0,
                ) && *v == self@[ancestor_key(self@, key@)->0],
                None => ancestor_key(self@, key@) is None,
            },
    {
        proof {
            assert(self.root.key@ =~= key@.subrange(0, 0));
        }
        match self.root.anc_node(key) {
            Some(m) => {
                proof {
                    let v0 = choose|v0: V| m.value == Some(v0) && self.root.kv_in(m.key@, v0);
                    self.root.lemma_map_at(m.key@, v0);
                    assert forall|k2: Seq<u8>|
                        self@.contains_key(k2) && k2.is_prefix_of(key@) implies k2.len()
                        <= m.key@.len() by {
                        assert(self.root.has_key(k2));
                    }
                    lemma_ancestor_key_some(self@, key@, m.key@);
                }
                match m.value.as_ref() {
                    Some(v) => Some(v),
                    None => {
                        proof {
                            assert(false);
                        }
                        None
                    },
                }
            },
            None => {
                proof {
                    assert forall|k2: Seq<u8>| self@.contains_key(k2) implies !k2.is_prefix_of(
                        key@,
                    ) by {
                        assert(self.root.has_key(k2));
                    }
                    lemma_ancestor_key_none(self@, key@);
                }
                None
            },
        }
    }

    /// The deepest stored ancestor of the query, as a read view anchored at
    /// its node.
    pub fn get_ancestor<'a>(&'a self, key: &[u8]) -> (r: Option<SubTrie<'a, V>>)
        requires
            self.wf(),
        ensures
            match r {
                Some(st) => {
                    &&& st.wf()
                    &&& ancestor_key(self@, key@) == Some(st.anchor())
                    &&& self@.contains_key(st.anchor())
                    &&& self.has_node(st.anchor())
                    &&& st@.contains_key(st.anchor())
                    &&& forall|k: Seq<u8>|
                        #[trigger] st@.contains_key(k) <==> self@.contains_key(k)
                            && st.anchor().is_prefix_of(k)
                    &&& forall|k: Seq<u8>| #[trigger] st@.contains_key(k) ==> st@[k] == self@[k]
                },
                None => ancestor_key(self@, key@) is None,
            },
    {
        proof {
            assert(self.root.key@ =~= key@.subrange(0, 0));
        }
        match self.root.anc_node(key) {
            Some(m) => {
                proof {
                    let v0 = choose|v0: V| m.value == Some(v0) && self.root.kv_in(m.key@, v0);
                    self.root.lemma_map_at(m.key@, v0);
                    assert(m.kv_in(m.key@, v0));
                    m.lemma_map_at(m.key@, v0);
                    assert forall|k2: Seq<u8>|
                        self@.contains_key(k2) && k2.is_prefix_of(key@) implies k2.len()
                        <= m.key@.len() by {
                        assert(self.root.has_key(k2));
                    }
                    lemma_ancestor_key_some(self@, key@, m.key@);
                    self.root.lemma_kv_implies_nk(m.key@, v0);
                    assert forall|k: Seq<u8>|
                        #[trigger] m.as_map().contains_key(k) <==> self@.contains_key(k)
                            && m.key@.is_prefix_of(k) by {
                        if m.has_key(k) {
                            let v = choose|v: V| m.kv_in(k, v);
                            assert(self.root.kv_in(k, v));
                        }
                        if self.root.has_key(k) && m.key@.is_prefix_of(k) {
                            let v = choose|v: V| self.root.kv_in(k, v);
                            assert(m.kv_in(k, v));
                        }
                    }
                    assert forall|k: Seq<u8>| #[trigger] m.as_map().contains_key(k) implies
                        m.as_map()[k] == self@[k] by {
                        let v = choose|v: V| m.kv_in(k, v);
                        m.lemma_map_at(k, v);
                        assert(self.root.kv_in(k, v));
                        self.root.lemma_map_at(k, v);
                    }
                }
                Some(SubTrie::from_node(m))
            },
            None => {
                proof {
                    assert forall|k2: Seq<u8>| self@.contains_key(k2) implies !k2.is_prefix_of(
                        key@,
                    ) by {
                        assert(self.root.has_key(k2));
                    }
                    lemma_ancestor_key_none(self@, key@);
                }
                None
            },
        }
    }

    /// The deepest structural node, valued or not, whose key is a prefix of
    /// the query. On an empty structure this is the root.
    pub fn get_raw_ancestor<'a>(&'a self, key: &[u8]) -> (r: SubTrie<'a, V>)
        requires
            self.wf(),
        ensures
            r.wf(),
            r.anchor().is_prefix_of(key@),
            self.has_node(r.anchor()),
            forall|k2: Seq<u8>|
                self.has_node(k2) && k2.is_prefix_of(key@) ==> k2.len() <= r.anchor().len(),
            forall|k: Seq<u8>|
                #[trigger] r@.contains_key(k) <==> self@.contains_key(k)
                    && r.anchor().is_prefix_of(k),
            forall|k: Seq<u8>| #[trigger] r@.contains_key(k) ==> r@[k] == self@[k],
    {
        proof {
            assert(self.root.key@ =~= key@.subrange(0, 0));
        }
        let m = self.root.raw_anc_node(key);
        proof {
            assert forall|k: Seq<u8>|
                #[trigger] m.as_map().contains_key(k) <==> self@.contains_key(k)
                    && m.key@.is_prefix_of(k) by {
                if m.has_key(k) {
                    let v = choose|v: V| m.kv_in(k, v);
                    assert(self.root.kv_in(k, v));
                }
                if self.root.has_key(k) && m.key@.is_prefix_of(k) {
                    let v = choose|v: V| self.root.kv_in(k, v);
                    assert(m.kv_in(k, v));
                }
            }
            assert forall|k: Seq<u8>| #[trigger] m.as_map().contains_key(k) implies m.as_map()[k]
                == self@[k] by {
                let v = choose|v: V| m.kv_in(k, v);
                m.lemma_map_at(k, v);
                assert(self.root.kv_in(k, v));
                self.root.lemma_map_at(k, v);
            }
        }
        SubTrie::from_node(m)
    }

    /// Follow the query past its end into the unique deeper node, resolving a
    /// query that stops in the middle of a compressed edge to the node at the
    /// far end of that edge.
    pub fn get_raw_descendant<'a>(&'a self, key: &[u8]) -> (r: Option<SubTrie<'a, V>>)
        requires
            self.wf(),
        ensures
            match r {
                Some(st) => {
                    &&& st.wf()
                    &&& key@.is_prefix_of(st.anchor())
                    &&& self.has_node(st.anchor())
                    &&& forall|k2: Seq<u8>|
                        self.has_node(k2) && key@.is_prefix_of(k2) ==> st.anchor().is_prefix_of(k2)
                    &&& forall|k: Seq<u8>|
                        #[trigger] st@.contains_key(k) <==> self@.contains_key(k)
                            && st.anchor().is_prefix_of(k)
                    &&& forall|k: Seq<u8>| #[trigger] st@.contains_key(k) ==> st@[k] == self@[k]
                },
                None => forall|k2: Seq<u8>| self.has_node(k2) ==> !key@.is_prefix_of(k2),
            },
    {
        proof {
            assert(self.root.key@ =~= key@.subrange(0, 0));
        }
        match self.root.raw_desc_node(key) {
            Some(m) => {
                proof {
                    assert forall|k: Seq<u8>|
                        #[trigger] m.as_map().contains_key(k) <==> self@.contains_key(k)
                            && m.key@.is_prefix_of(k) by {
                        if m.has_key(k) {
                            let v = choose|v: V| m.kv_in(k, v);
                            assert(self.root.kv_in(k, v));
                        }
                        if self.root.has_key(k) && m.key@.is_prefix_of(k) {
                            let v = choose|v: V| self.root.kv_in(k, v);
                            assert(m.kv_in(k, v));
                        }
                    }
                    assert forall|k: Seq<u8>| #[trigger] m.as_map().contains_key(k) implies
                        m.as_map()[k] == self@[k] by {
                        let v = choose|v: V| m.kv_in(k, v);
                        m.lemma_map_at(k, v);
                        assert(self.root.kv_in(k, v));
                        self.root.lemma_map_at(k, v);
                    }
                }
                Some(SubTrie::from_node(m))
            },
            None => None,
        }
    }

    /// A read view anchored at exactly this key; nothing when no node has the
    /// key. The empty key always names the root.
    pub fn subtrie<'a>(&'a self, key: &[u8]) -> (r: Option<SubTrie<'a, V>>)
        requires
            self.wf(),
        ensures
            r is Some <==> self.has_node(key@),
            match r {
                Some(st) => {
                    &&& st.wf()
                    &&& st.anchor() == key@
                    &&& forall|k: Seq<u8>|
                        #[trigger] st@.contains_key(k) <==> self@.contains_key(k)
                            && key@.is_prefix_of(k)
                    &&& forall|k: Seq<u8>| #[trigger] st@.contains_key(k) ==> st@[k] == self@[k]
                },
                None => true,
            },
    {
        proof {
            assert(self.root.key@ =~= key@.subrange(0, 0));
        }
        match self.root.exact_node(key) {
            Some(m) => {
                proof {
                    assert forall|k: Seq<u8>|
                        #[trigger] m.as_map().contains_key(k) <==> self@.contains_key(k)
                            && key@.is_prefix_of(k) by {
                        if m.has_key(k) {
                            let v = choose|v: V| m.kv_in(k, v);
                            assert(self.root.kv_in(k, v));
                        }
                        if self.root.has_key(k) && key@.is_prefix_of(k) {
                            let v = choose|v: V| self.root.kv_in(k, v);
                            assert(m.kv_in(k, v));
                        }
                    }
                    assert forall|k: Seq<u8>| #[trigger] m.as_map().contains_key(k) implies
                        m.as_map()[k] == self@[k] by {
                        let v = choose|v: V| m.kv_in(k, v);
                        m.lemma_map_at(k, v);
                        assert(self.root.kv_in(k, v));
                        self.root.lemma_map_at(k, v);
                    }
                }
                Some(SubTrie::from_node(m))
            },
            None => None,
        }
    }

    /// A mutable view anchored at exactly this key: the one writer over the
    /// whole tree while it lives, confining mutation to the anchored subtree.
    pub fn subtrie_mut<'a>(&'a mut self, key: &[u8]) -> (r: Option<SubTrieMut<'a, V>>)
        requires
            old(self).wf(),
        ensures
            match r {
                Some(st) => {
                    &&& old(self).has_node(key@)
                    &&& st.anchor() == key@
                    &&& st.tree() == old(self)@
                    &&& st.tree_wf()
                    &&& st.tree_len() == old(self).spec_len()
                },
                None => !old(self).has_node(key@) && *final(self) == *old(self),
            },
    {
        proof {
            assert(self.root.key@ =~= key@.subrange(0, 0));
        }
        let found = self.root.exact_node(key).is_some();
        if found {
            let anchor = copy_front(key, key.len());
            proof {
                assert(anchor@ =~= key@);
            }
            Some(SubTrieMut::from_parts(self, anchor))
        } else {
            None
        }
    }

    /// Every (key, value) pair of the tree, in an unspecified order.
    pub fn iter<'a>(&'a self) -> (r: Vec<(Vec<u8>, &'a V)>)
        requires
            self.wf(),
        ensures
            self@.dom().finite(),
            r@.len() == self@.dom().len(),
            forall|t: int|
                0 <= t < r@.len() ==> self@.contains_key((#[trigger] r@[t]).0@) && *r@[t].1
                    == self@[r@[t].0@],
            forall|k: Seq<u8>|
                self@.contains_key(k) ==> exists|t: int|
                    0 <= t < r@.len() && (#[trigger] r@[t]).0@ == k && *r@[t].1 == self@[k],
    {
        let mut out: Vec<(Vec<u8>, &'a V)> = Vec::new();
        self.root.collect_pairs(&mut out);
        proof {
            self.root.lemma_count_is_dom_len();
            assert forall|t: int|
                0 <= t < out@.len() implies self@.contains_key((#[trigger] out@[t]).0@)
                && *out@[t].1 == self@[out@[t].0@] by {
                self.root.lemma_map_at(out@[t].0@, *out@[t].1);
            }
            assert forall|k: Seq<u8>| self@.contains_key(k) implies exists|t: int|
                0 <= t < out@.len() && (#[trigger] out@[t]).0@ == k && *out@[t].1 == self@[k] by {
                let v = choose|v: V| self.root.kv_in(k, v);
                self.root.lemma_map_at(k, v);
            }
        }
        out
    }

    /// Apply a function to the value stored under the key, or store a default
    /// when the key is absent.
    pub fn map_with_default<F: FnOnce(V) -> V>(&mut self, key: &[u8], f: F, default: V)
        requires
            old(self).wf(),
            old(self).spec_len() < usize::MAX,
            forall|v: V|
                old(self)@.contains_key(key@) && v == old(self)@[key@] ==> call_requires(f, (v,)),
        ensures
            final(self).wf(),
            old(self)@.contains_key(key@) ==> exists|w: V|
                call_ensures(f, (old(self)@[key@],), w) && final(self)@ == old(self)@.insert(
                    key@,
                    w,
                ),
            !old(self)@.contains_key(key@) ==> final(self)@ == old(self)@.insert(key@, default),
    {
        match self.remove(key) {
            Some(v) => {
                let w = f(v);
                let _ = self.insert(key, w);
                proof {
                    assert(old(self)@.remove(key@).insert(key@, w) =~= old(self)@.insert(key@, w));
                }
            },
            None => {
                let _ = self.insert(key, default);
                proof {
                    assert(old(self)@.remove(key@).insert(key@, default) =~= old(self)@.insert(
                        key@,
                        default,
                    ));
                }
            },
        }
    }

    /// The number of stored keys that extend the given anchor: the size of
    /// the subtree a view anchored there sees.
    pub(crate) fn count_below(&self, anchor: &[u8]) -> (n: usize)
        requires
            self.wf(),
        ensures
            Set::new(|k: Seq<u8>| self@.contains_key(k) && anchor@.is_prefix_of(k)).finite(),
            n as nat == Set::new(
                |k: Seq<u8>| self@.contains_key(k) && anchor@.is_prefix_of(k),
            ).len(),
    {
        proof {
            assert(self.root.key@ =~= anchor@.subrange(0, 0));
        }
        let ghost fset = Set::new(|k: Seq<u8>| self@.contains_key(k) && anchor@.is_prefix_of(k));
        match self.root.raw_desc_node(anchor) {
            Some(m) => {
                proof {
                    assert forall|k: Seq<u8>|
                        fset.contains(k) <==> m.key_set().contains(k) by {
                        if fset.contains(k) {
                            let v = choose|v: V| self.root.kv_in(k, v);
                            self.root.lemma_kv_implies_nk(k, v);
                            assert(m.key@.is_prefix_of(k));
                            assert(m.kv_in(k, v));
                        }
                        if m.has_key(k) {
                            let v = choose|v: V| m.kv_in(k, v);
                            assert(self.root.kv_in(k, v));
                            self.root.lemma_map_at(k, v);
                            lemma_prefix_trans(anchor@, m.key@, k);
                        }
                    }
                    assert(fset =~= m.key_set());
                    m.lemma_key_set_len();
                }
                match m.count_within(self.length) {
                    Some(c) => c,
                    None => {
                        proof {
                            assert(false);
                        }
                        0
                    },
                }
            },
            None => {
                proof {
                    assert forall|k: Seq<u8>| !fset.contains(k) by {
                        if fset.contains(k) {
                            let v = choose|v: V| self.root.kv_in(k, v);
                            self.root.lemma_kv_implies_nk(k, v);
                        }
                    }
                    assert(fset =~= Set::<Seq<u8>>::empty());
                }
                0
            },
        }
    }

    /// Every (key, value) pair stored under a key extending the anchor, in an
    /// unspecified order: what a view anchored there iterates over.
    pub(crate) fn pairs_below<'a>(&'a self, anchor: &[u8]) -> (r: Vec<(Vec<u8>, &'a V)>)
        requires
            self.wf(),
        ensures
            Set::new(|k: Seq<u8>| self@.contains_key(k) && anchor@.is_prefix_of(k)).finite(),
            r@.len() == Set::new(
                |k: Seq<u8>| self@.contains_key(k) && anchor@.is_prefix_of(k),
            ).len(),
            forall|t: int|
                0 <= t < r@.len() ==> self@.contains_key((#[trigger] r@[t]).0@) && *r@[t].1
                    == self@[r@[t].0@] && anchor@.is_prefix_of(r@[t].0@),
            forall|k: Seq<u8>|
                self@.contains_key(k) && anchor@.is_prefix_of(k) ==> exists|t: int|
                    0 <= t < r@.len() && (#[trigger] r@[t]).0@ == k && *r@[t].1 == self@[k],
    {
        proof {
            assert(self.root.key@ =~= anchor@.subrange(0, 0));
        }
        let ghost fset = Set::new(|k: Seq<u8>| self@.contains_key(k) && anchor@.is_prefix_of(k));
        match self.root.raw_desc_node(anchor) {
            Some(m) => {
                let mut out: Vec<(Vec<u8>, &'a V)> = Vec::new();
                m.collect_pairs(&mut out);
                proof {
                    assert forall|k: Seq<u8>|
                        fset.contains(k) <==> m.key_set().contains(k) by {
                        if fset.contains(k) {
                            let v = choose|v: V| self.root.kv_in(k, v);
                            self.root.lemma_kv_implies_nk(k, v);
                            assert(m.key@.is_prefix_of(k));
                            assert(m.kv_in(k, v));
                        }
                        if m.has_key(k) {
                            let v = choose|v: V| m.kv_in(k, v);
                            assert(self.root.kv_in(k, v));
                            self.root.lemma_map_at(k, v);
                            lemma_prefix_trans(anchor@, m.key@, k);
                        }
                    }
                    assert(fset =~= m.key_set());
                    m.lemma_key_set_len();
                    assert forall|t: int|
                        0 <= t < out@.len() implies self@.contains_key((#[trigger] out@[t]).0@)
                        && *out@[t].1 == self@[out@[t].0@] && anchor@.is_prefix_of(
                        out@[t].0@,
                    ) by {
                        assert(m.kv_in(out@[t].0@, *out@[t].1));
                        assert(self.root.kv_in(out@[t].0@, *out@[t].1));
                        self.root.lemma_map_at(out@[t].0@, *out@[t].1);
                        lemma_prefix_trans(anchor@, m.key@, out@[t].0@);
                    }
                    assert forall|k: Seq<u8>|
                        self@.contains_key(k) && anchor@.is_prefix_of(k) implies exists|t: int|
                        0 <= t < out@.len() && (#[trigger] out@[t]).0@ == k && *out@[t].1
                            == self@[k] by {
                        let v = choose|v: V| self.root.kv_in(k, v);
                        self.root.lemma_kv_implies_nk(k, v);
                        assert(m.key@.is_prefix_of(k));
                        assert(m.kv_in(k, v));
                        self.root.lemma_map_at(k, v);
                    }
                }
                out
            },
            None => {
                proof {
                    assert forall|k: Seq<u8>|
                        self@.contains_key(k) implies !anchor@.is_prefix_of(k) by {
                        if anchor@.is_prefix_of(k) {
                            let v = choose|v: V| self.root.kv_in(k, v);
                            self.root.lemma_kv_implies_nk(k, v);
                        }
                    }
                    assert(fset =~= Set::<Seq<u8>>::empty());
                }
                Vec::new()
            },
        }
    }

    /// A mutable borrow of the value stored under exactly this key, if any.
    pub fn value_mut_at<'a>(&'a mut self, key: &[u8]) -> (r: Option<&'a mut V>)
        requires
            old(self).wf(),
        ensures
            final(self).wf(),
            final(self).spec_len() == old(self).spec_len(),
            match r {
                None => final(self)@ == old(self)@ && !old(self)@.contains_key(key@),
                Some(v) => {
                    &&& old(self)@.contains_key(key@)
                    &&& *v == old(self)@[key@]
                    &&& final(self)@ == old(self)@.insert(key@, *final(v))
                },
            },
    {
        proof {
            assert(self.root.key@ =~= key@.subrange(0, 0));
        }
        let r = self.root.value_mut_node(key);
        proof {
            let ns = after_borrow(*self);
            if r is None {
                Node::<V>::lemma_map_same(old(self).root, ns.root);
                if old(self)@.contains_key(key@) {
                    assert(old(self).root.has_key(key@));
                }
            } else {
                let v = r->0;
                assert(old(self).root.kv_in(key@, *v));
                old(self).root.lemma_map_at(key@, *v);
                Node::<V>::lemma_map_insert(old(self).root, ns.root, key@, *final(v));
            }
        }
        r
    }
}

} // verus!
