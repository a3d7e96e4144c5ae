use vstd::prelude::*;

use crate::node::Node;
use crate::node::lcp_len;
use crate::trie::Trie;

verus! {

broadcast use vstd::std_specs::vec::group_vec_axioms, vstd::seq::group_seq_axioms;

/// A read-only cursor anchored at one node of an existing trie. It owns
/// nothing: it borrows the tree, and references handed out live as long as
/// the borrow of the tree itself, not merely as long as the cursor.
pub struct SubTrie<'a, V> {
    pub(crate) node: &'a Node<V>,
}

impl<'a, V> View for SubTrie<'a, V> {
    type V = Map<Seq<u8>, V>;

    closed spec fn view(&self) -> Map<Seq<u8>, V> {
        self.node.as_map()
    }
}

impl<'a, V> SubTrie<'a, V> {
    /// The anchored subtree is well-formed and small enough to count.
    pub closed spec fn wf(self) -> bool {
        self.node.wf() && self.node.count() <= usize::MAX
    }

    /// The full key of the anchor node.
    pub closed spec fn anchor(self) -> Seq<u8> {
        self.node.key@
    }

    /// The number of valued nodes in the anchored subtree.
    pub closed spec fn spec_len(self) -> nat {
        self.node.count()
    }

    /// Anchor a read view at a node.
    pub(crate) fn from_node(node: &'a Node<V>) -> (st: Self)
        requires
            node.wf(),
            node.count() <= usize::MAX,
        ensures
            st.wf(),
            st.anchor() == node.key@,
            st@ == node.as_map(),
            st.spec_len() == node.count(),
    {
        SubTrie { node }
    }

    /// The value stored at the anchor node itself, if any.
    pub fn value(&self) -> (r: Option<&'a V>)
        requires
            self.wf(),
        ensures
            match r {
                Some(v) => self@.contains_key(self.anchor()) && *v == self@[self.anchor()],
                None => !self@.contains_key(self.anchor()),
            },
    {
        let r = self.node.value.as_ref();
        proof {
            self.node.lemma_no_child_at_own_key();
            match r {
                Some(v) => {
                    assert(self.node.kv_in(self.anchor(), *v));
                    self.node.lemma_map_at(self.anchor(), *v);
                },
                None => {
                    if self.node.has_key(self.anchor()) {
                        let w = choose|w: V| self.node.kv_in(self.anchor(), w);
                        Node::<V>::lemma_kv_seq(self.node.children@, self.anchor(), w);
                    }
                },
            }
        }
        r
    }

    /// The anchor node's full key, when the anchor holds a value.
    pub fn key(&self) -> (r: Option<&'a Vec<u8>>)
        requires
            self.wf(),
        ensures
            match r {
                Some(k) => k@ == self.anchor() && self@.contains_key(self.anchor()),
                None => !self@.contains_key(self.anchor()),
            },
    {
        proof {
            self.node.lemma_no_child_at_own_key();
            if self.node.value is Some {
                let v = self.node.value->0;
                assert(self.node.kv_in(self.anchor(), v));
                self.node.lemma_map_at(self.anchor(), v);
            } else {
                if self.node.has_key(self.anchor()) {
                    let w = choose|w: V| self.node.kv_in(self.anchor(), w);
                    Node::<V>::lemma_kv_seq(self.node.children@, self.anchor(), w);
                }
            }
        }
        if self.node.value.is_some() {
            Some(&self.node.key)
        } else {
            None
        }
    }

    /// The number of keys stored in the anchored subtree.
    pub fn len(&self) -> (n: usize)
        requires
            self.wf(),
        ensures
            n as nat == self.spec_len(),
            self@.dom().finite(),
            n as nat == self@.dom().len(),
    {
        proof {
            self.node.lemma_count_is_dom_len();
        }
        match self.node.count_within(usize::MAX) {
            Some(c) => c,
            None => {
                proof {
                    assert(false);
                }
                0
            },
        }
    }

    /// Exact lookup within the anchored subtree: keys outside it yield
    /// nothing.
    pub fn get(&self, key: &[u8]) -> (r: Option<&'a V>)
        requires
            self.wf(),
        ensures
            match r {
                Some(v) => self@.contains_key(key@) && *v == self@[key@],
                None => !self@.contains_key(key@),
            },
    {
        let l = lcp_len(self.node.key.as_slice(), key);
        if l < self.node.key.len() {
            proof {
                if self.node.has_key(key@) {
                    let w = choose|w: V| self.node.kv_in(key@, w);
                    self.node.lemma_kv_extends(key@, w);
                    crate::node::lemma_prefix_index(self.node.key@, key@, l as int);
                }
            }
            None
        } else {
            let r = self.node.get_node(key);
            proof {
                match r {
                    Some(v) => {
                        self.node.lemma_map_at(key@, *v);
                    },
                    None => {},
                }
            }
            r
        }
    }

    /// Every (key, value) pair of the anchored subtree, in an unspecified
    /// order.
    pub fn iter(&self) -> (r: Vec<(Vec<u8>, &'a V)>)
        requires
            self.wf(),
        ensures
            self@.dom().finite(),
            r@.len() == self@.dom().len(),
            forall|t: int|
                0 <= t < r@.len() ==> self@.contains_key((#[trigger] r@[t]).0@) && *r@[t].1
                    == self@[r@[t].0@],
            forall|k: Seq<u8>|
                self@.contains_key(k) ==> exists|t: int|
                    0 <= t < r@.len() && (#[trigger] r@[t]).0@ == k && *r@[t].1 == self@[k],
    {
        let mut out: Vec<(Vec<u8>, &'a V)> = Vec::new();
        self.node.collect_pairs(&mut out);
        proof {
            self.node.lemma_count_is_dom_len();
            assert forall|t: int|
                0 <= t < out@.len() implies self@.contains_key((#[trigger] out@[t]).0@)
                && *out@[t].1 == self@[out@[t].0@] by {
                self.node.lemma_map_at(out@[t].0@, *out@[t].1);
            }
            assert forall|k: Seq<u8>| self@.contains_key(k) implies exists|t: int|
                0 <= t < out@.len() && (#[trigger] out@[t]).0@ == k && *out@[t].1 == self@[k] by {
                let v = choose|v: V| self.node.kv_in(k, v);
                self.node.lemma_map_at(k, v);
            }
        }
        out
    }
}

/// A mutable cursor anchored at a key of an existing trie. It holds the one
/// exclusive borrow of the tree, so no other view can exist beside it, and it
/// confines mutation to keys extending its anchor.
pub struct SubTrieMut<'a, V> {
    pub(crate) trie: &'a mut Trie<V>,
    pub(crate) anchor: Vec<u8>,
}

impl<'a, V> SubTrieMut<'a, V> {
    /// The whole underlying tree, as a map.
    pub closed spec fn tree(self) -> Map<Seq<u8>, V> {
        (*self.trie)@
    }

    pub closed spec fn tree_wf(self) -> bool {
        (*self.trie).wf()
    }

    pub closed spec fn tree_len(self) -> nat {
        (*self.trie).spec_len()
    }

    /// The key this cursor is anchored at.
    pub closed spec fn anchor(self) -> Seq<u8> {
        self.anchor@
    }

    /// Anchor a mutable view, taking the exclusive borrow of the tree.
    pub(crate) fn from_parts(trie: &'a mut Trie<V>, anchor: Vec<u8>) -> (st: Self)
        ensures
            st.anchor() == anchor@,
            st.tree() == (*old(trie))@,
            st.tree_wf() == (*old(trie)).wf(),
            st.tree_len() == (*old(trie)).spec_len(),
    {
        SubTrieMut { trie, anchor }
    }

    /// Give the exclusive borrow of the owning tree back, with everything the
    /// view knew carried over: the tree is well-formed and holds exactly the
    /// view's last state, so every mutation made through the view is visible
    /// through it.
    pub fn finish(self) -> (t: &'a mut Trie<V>)
        ensures
            (*t)@ == self.tree(),
            (*t).wf() == self.tree_wf(),
            (*t).spec_len() == self.tree_len(),
    {
        self.trie
    }

    /// Insert through the view. A key that does not extend the anchor is
    /// rejected and the tree is untouched; otherwise the effect is exactly an
    /// insert on the owning tree, visible through it afterwards.
    pub fn insert(&mut self, key: &[u8], value: V) -> (r: Result<Option<V>, ()>)
        requires
            old(self).tree_wf(),
            old(self).tree_len() < usize::MAX,
        ensures
            final(self).anchor() == old(self).anchor(),
            final(self).tree_wf(),
            match r {
                Ok(prev) => {
                    &&& old(self).anchor().is_prefix_of(key@)
                    &&& final(self).tree() == old(self).tree().insert(key@, value)
                    &&& match prev {
                        Some(p) => old(self).tree().contains_key(key@) && p == old(
                            self,
                        ).tree()[key@],
                        None => !old(self).tree().contains_key(key@),
                    }
                },
                Err(_) => !old(self).anchor().is_prefix_of(key@) && final(self).tree() == old(
                    self,
                ).tree(),
            },
    {
        let l = lcp_len(self.anchor.as_slice(), key);
        if l < self.anchor.len() {
            proof {
                if self.anchor@.is_prefix_of(key@) {
                    crate::node::lemma_prefix_index(self.anchor@, key@, l as int);
                }
            }
            Err(())
        } else {
            proof {
                assert(self.anchor@ =~= key@.subrange(0, self.anchor@.len() as int));
            }
            Ok(self.trie.insert(key, value))
        }
    }

    /// Remove through the view, under the same containment rule as `insert`.
    pub fn remove(&mut self, key: &[u8]) -> (r: Result<Option<V>, ()>)
        requires
            old(self).tree_wf(),
        ensures
            final(self).anchor() == old(self).anchor(),
            final(self).tree_wf(),
            match r {
                Ok(prev) => {
                    &&& old(self).anchor().is_prefix_of(key@)
                    &&& final(self).tree() == old(self).tree().remove(key@)
                    &&& match prev {
                        Some(p) => old(self).tree().contains_key(key@) && p == old(
                            self,
                        ).tree()[key@],
                        None => !old(self).tree().contains_key(key@),
                    }
                },
                Err(_) => !old(self).anchor().is_prefix_of(key@) && final(self).tree() == old(
                    self,
                ).tree(),
            },
    {
        let l = lcp_len(self.anchor.as_slice(), key);
        if l < self.anchor.len() {
            proof {
                if self.anchor@.is_prefix_of(key@) {
                    crate::node::lemma_prefix_index(self.anchor@, key@, l as int);
                }
            }
            Err(())
        } else {
            proof {
                assert(self.anchor@ =~= key@.subrange(0, self.anchor@.len() as int));
            }
            Ok(self.trie.remove(key))
        }
    }

    /// Exact lookup through the view: only keys extending the anchor are
    /// visible.
    pub fn get(&self, key: &[u8]) -> (r: Option<&V>)
        requires
            self.tree_wf(),
        ensures
            match r {
                Some(v) => self.anchor().is_prefix_of(key@) && self.tree().contains_key(key@)
                    && *v == self.tree()[key@],
                None => !self.anchor().is_prefix_of(key@) || !self.tree().contains_key(key@),
            },
    {
        let l = lcp_len(self.anchor.as_slice(), key);
        if l < self.anchor.len() {
            proof {
                if self.anchor@.is_prefix_of(key@) {
                    crate::node::lemma_prefix_index(self.anchor@, key@, l as int);
                }
            }
            None
        } else {
            proof {
                assert(self.anchor@ =~= key@.subrange(0, self.anchor@.len() as int));
            }
            self.trie.get(key)
        }
    }

    /// The number of stored keys extending the anchor: the size of the
    /// anchored subtree this view sees.
    pub fn len(&self) -> (n: usize)
        requires
            self.tree_wf(),
        ensures
            Set::new(
                |k: Seq<u8>| self.tree().contains_key(k) && self.anchor().is_prefix_of(k),
            ).finite(),
            n as nat == Set::new(
                |k: Seq<u8>| self.tree().contains_key(k) && self.anchor().is_prefix_of(k),
            ).len(),
    {
        self.trie.count_below(self.anchor.as_slice())
    }

    /// Every (key, value) pair of the anchored subtree, in an unspecified
    /// order.
    pub fn iter(&self) -> (r: Vec<(Vec<u8>, &V)>)
        requires
            self.tree_wf(),
        ensures
            Set::new(
                |k: Seq<u8>| self.tree().contains_key(k) && self.anchor().is_prefix_of(k),
            ).finite(),
            r@.len() == Set::new(
                |k: Seq<u8>| self.tree().contains_key(k) && self.anchor().is_prefix_of(k),
            ).len(),
            forall|t: int|
                0 <= t < r@.len() ==> self.tree().contains_key((#[trigger] r@[t]).0@) && *r@[t].1
                    == self.tree()[r@[t].0@] && self.anchor().is_prefix_of(r@[t].0@),
            forall|k: Seq<u8>|
                self.tree().contains_key(k) && self.anchor().is_prefix_of(k) ==> exists|t: int|
                    0 <= t < r@.len() && (#[trigger] r@[t]).0@ == k && *r@[t].1 == self.tree()[k],
    {
        self.trie.pairs_below(self.anchor.as_slice())
    }

    /// The value stored under the anchor key. The reference lives as long as
    /// the borrow of the owning tree, outliving this cursor.
    pub fn value(self) -> (r: Option<&'a V>)
        requires
            self.tree_wf(),
        ensures
            match r {
                Some(v) => self.tree().contains_key(self.anchor()) && *v == self.tree().index(
                    self.anchor(),
                ),
                None => !self.tree().contains_key(self.anchor()),
            },
    {
        let t: &'a Trie<V> = self.trie;
        let r = t.get(self.anchor.as_slice());
        r
    }

    /// A mutable borrow of the value stored under the anchor key, if any.
    /// Writing through it is the only change the tree sees.
    pub fn value_mut(&mut self) -> (r: Option<&mut V>)
        requires
            old(self).tree_wf(),
        ensures
            final(self).anchor() == old(self).anchor(),
            final(self).tree_wf(),
            final(self).tree_len() == old(self).tree_len(),
            match r {
                None => final(self).tree() == old(self).tree() && !old(self).tree().contains_key(
                    old(self).anchor(),
                ),
                Some(v) => {
                    &&& old(self).tree().contains_key(old(self).anchor())
                    &&& *v == old(self).tree()[old(self).anchor()]
                    &&& final(self).tree() == old(self).tree().insert(
                        old(self).anchor(),
                        *final(v),
                    )
                },
            },
    {
        self.trie.value_mut_at(self.anchor.as_slice())
    }
}

} // verus!
