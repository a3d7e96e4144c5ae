use vstd::prelude::*;

use crate::node::Node;
use crate::node::find_child;
use crate::node::lcp_len;
use crate::node::lemma_prefix_index;

verus! {

broadcast use vstd::std_specs::vec::group_vec_axioms, vstd::seq::group_seq_axioms;

impl<V> Node<V> {
    /// The deepest valued node on the key's path: every valued ancestor is at
    /// most as deep, and absence means no key stored in this subtree is a
    /// prefix of the query.
    pub(crate) fn anc_node<'x>(&'x self, key: &[u8]) -> (r: Option<&'x Node<V>>)
        requires
            self.wf(),
            self.key@.is_prefix_of(key@),
        ensures
            match r {
                Some(m) => {
                    &&& m.wf()
                    &&& m.key@.is_prefix_of(key@)
                    &&& exists|v: V| m.value == Some(v) && self.kv_in(m.key@, v)
                    &&& m.count() <= self.count()
                    &&& forall|k2: Seq<u8>|
                        self.has_key(k2) && k2.is_prefix_of(key@) ==> k2.len() <= m.key@.len()
                    &&& forall|k: Seq<u8>, v: V|
                        m.kv_in(k, v) <==> self.kv_in(k, v) && m.key@.is_prefix_of(k)
                },
                None => forall|k2: Seq<u8>| k2.is_prefix_of(key@) ==> !self.has_key(k2),
            },
        decreases key@.len() - self.key@.len(),
    {
        let deeper: Option<&'x Node<V>> = if self.key.len() < key.len() {
            let d = key[self.key.len()];
            match find_child(&self.children, self.key.len(), d) {
                Some(i) => {
                    proof {
                        Self::lemma_wf_seq(self.children@);
                        self.lemma_only_child(key@, i as int);
                        Self::lemma_count_seq_elem(self.children@, i as int);
                    }
                    let child = &self.children[i];
                    let l = lcp_len(child.key.as_slice(), key);
                    if l == child.key.len() {
                        proof {
                            assert(child.key@.is_prefix_of(key@));
                        }
                        let sub = child.anc_node(key);
                        proof {
                            match sub {
                                Some(m) => {
                                    let v = choose|v: V| m.value == Some(v) && child.kv_in(
                                        m.key@,
                                        v,
                                    );
                                    assert(self.children@[i as int].kv_in(m.key@, v));
                                    Self::lemma_kv_seq(self.children@, m.key@, v);
                                    assert(self.kv_in(m.key@, v));
                                    child.lemma_kv_extends(m.key@, v);
                                    assert(m.key@.len() >= child.key@.len());
                                    assert forall|k: Seq<u8>, w: V|
                                        m.kv_in(k, w) <==> self.kv_in(k, w) && m.key@.is_prefix_of(
                                        k,
                                    ) by {
                                        if m.kv_in(k, w) {
                                            assert(child.kv_in(k, w));
                                            assert(self.children@[i as int].kv_in(k, w));
                                            Self::lemma_kv_seq(self.children@, k, w);
                                        }
                                        if self.kv_in(k, w) && m.key@.is_prefix_of(k) {
                                            assert(k.len() >= m.key@.len() >= child.key@.len()
                                                > self.key@.len());
                                            if k == self.key@ {
                                                assert(false);
                                            }
                                            self.lemma_kv_route(k, w);
                                            let j = choose|j: int|
                                                0 <= j < self.children@.len() && (
                                                #[trigger] self.children@[j]).kv_in(k, w)
                                                    && self.disc(j) == k[self.key@.len() as int];
                                            crate::node::lemma_prefix_trans(
                                                child.key@,
                                                m.key@,
                                                k,
                                            );
                                            lemma_prefix_index(child.key@, k, self.key@.len() as int);
                                            assert(self.disc(i as int) == key@[self.key@.len() as int]);
                                            assert(j == i);
                                            assert(child.kv_in(k, w));
                                        }
                                    }
                                    assert forall|k2: Seq<u8>|
                                        self.has_key(k2) && k2.is_prefix_of(key@) implies k2.len()
                                        <= m.key@.len() by {
                                        let w = choose|w: V| self.kv_in(k2, w);
                                        self.lemma_kv_extends(k2, w);
                                        if k2.len() == self.key@.len() {
                                            assert(k2 =~= self.key@);
                                        }
                                        if k2 != self.key@ {
                                            self.lemma_kv_route(k2, w);
                                            let j = choose|j: int|
                                                0 <= j < self.children@.len() && (
                                                #[trigger] self.children@[j]).kv_in(k2, w)
                                                    && self.disc(j) == k2[self.key@.len() as int];
                                            lemma_prefix_index(k2, key@, self.key@.len() as int);
                                            assert(self.disc(i as int) == key@[self.key@.len() as int]);
                                            assert(j == i);
                                            assert(child.has_key(k2));
                                        }
                                    }
                                },
                                None => {
                                    assert forall|k2: Seq<u8>|
                                        self.has_key(k2) && k2.is_prefix_of(key@) && k2.len()
                                            > self.key@.len() implies false by {
                                        let w = choose|w: V| self.kv_in(k2, w);
                                        self.lemma_kv_route(k2, w);
                                        let j = choose|j: int|
                                            0 <= j < self.children@.len() && (
                                            #[trigger] self.children@[j]).kv_in(k2, w)
                                                && self.disc(j) == k2[self.key@.len() as int];
                                        lemma_prefix_index(k2, key@, self.key@.len() as int);
                                        assert(self.disc(i as int) == key@[self.key@.len() as int]);
                                        assert(j == i);
                                        assert(child.has_key(k2));
                                    }
                                },
                            }
                        }
                        sub
                    } else {
                        proof {
                            // no stored key reaches past this node's key here:
                            // the query diverges inside the child's edge
                            assert forall|k2: Seq<u8>|
                                self.has_key(k2) && k2.is_prefix_of(key@) && k2.len()
                                    > self.key@.len() implies false by {
                                let v = choose|v: V| self.kv_in(k2, v);
                                self.lemma_kv_route(k2, v);
                                let j = choose|j: int|
                                    0 <= j < self.children@.len() && (#[trigger] self.children@[j]).kv_in(
                                        k2,
                                        v,
                                    ) && self.disc(j) == k2[self.key@.len() as int];
                                lemma_prefix_index(k2, key@, self.key@.len() as int);
                                assert(self.disc(i as int) == key@[self.key@.len() as int]);
                                assert(j == i);
                                child.lemma_kv_extends(k2, v);
                                if l < key@.len() {
                                    lemma_prefix_index(child.key@, k2, l as int);
                                    lemma_prefix_index(k2, key@, l as int);
                                }
                            }
                        }
                        None
                    }
                },
                None => {
                    proof {
                        assert forall|k2: Seq<u8>|
                            self.has_key(k2) && k2.is_prefix_of(key@) && k2.len()
                                > self.key@.len() implies false by {
                            let v = choose|v: V| self.kv_in(k2, v);
                            self.lemma_kv_route(k2, v);
                        }
                    }
                    None
                },
            }
        } else {
            proof {
                assert(self.key@ =~= key@);
                self.lemma_no_child_at_own_key();
                assert forall|k2: Seq<u8>|
                    self.has_key(k2) && k2.is_prefix_of(key@) && k2.len()
                        > self.key@.len() implies false by {
                    let v = choose|v: V| self.kv_in(k2, v);
                    self.lemma_kv_extends(k2, v);
                }
            }
            None
        };
        proof {
            // any stored prefix of the query extends this node's key
            assert forall|k2: Seq<u8>|
                self.has_key(k2) && k2.is_prefix_of(key@) implies k2.len()
                >= self.key@.len() by {
                let v = choose|v: V| self.kv_in(k2, v);
                self.lemma_kv_extends(k2, v);
            }
            assert forall|k2: Seq<u8>|
                self.has_key(k2) && k2.is_prefix_of(key@) && k2.len()
                    == self.key@.len() implies k2 == self.key@ by {
                let v = choose|v: V| self.kv_in(k2, v);
                self.lemma_kv_extends(k2, v);
                assert(k2 =~= self.key@);
            }
            self.lemma_no_child_at_own_key();
            assert(self.key@.is_prefix_of(self.key@)) by {
                assert(self.key@ =~= self.key@.subrange(0, self.key@.len() as int));
            }
        }
        match deeper {
            Some(m) => Some(m),
            None => {
                match &self.value {
                    Some(v) => {
                        proof {
                            assert(self.value == Some(*v));
                            assert(self.kv_in(self.key@, *v));
                            assert forall|k: Seq<u8>, w: V|
                                self.kv_in(k, w) <==> self.kv_in(k, w) && self.key@.is_prefix_of(
                                k,
                            ) by {
                                if self.kv_in(k, w) {
                                    self.lemma_kv_extends(k, w);
                                }
                            }
                        }
                        Some(self)
                    },
                    None => {
                        proof {
                            assert forall|k2: Seq<u8>|
                                k2.is_prefix_of(key@) implies !self.has_key(k2) by {
                                if self.has_key(k2) && k2 == self.key@ {
                                    let v = choose|v: V| self.kv_in(k2, v);
                                    Self::lemma_kv_seq(self.children@, k2, v);
                                }
                            }
                        }
                        None
                    },
                }
            },
        }
    }

    /// The node with exactly this key, if the structure has one.
    pub(crate) fn exact_node<'x>(&'x self, key: &[u8]) -> (r: Option<&'x Node<V>>)
        requires
            self.wf(),
            self.key@.is_prefix_of(key@),
        ensures
            match r {
                Some(m) => m.key@ == key@ && m.wf() && self.nk_in(key@) && m.count()
                    <= self.count() && (match m.value {
                    Some(w) => self.kv_in(key@, w),
                    None => !self.has_key(key@),
                }) && (forall|k: Seq<u8>, v: V|
                    m.kv_in(k, v) <==> self.kv_in(k, v) && key@.is_prefix_of(k)),
                None => !self.nk_in(key@),
            },
        decreases key@.len() - self.key@.len(),
    {
        if self.key.len() == key.len() {
            proof {
                assert(self.key@ =~= key@);
                self.lemma_no_child_at_own_key();
                if self.value is None && self.has_key(key@) {
                    let w = choose|w: V| self.kv_in(key@, w);
                    Self::lemma_kv_seq(self.children@, key@, w);
                }
                assert forall|k: Seq<u8>, v: V|
                    self.kv_in(k, v) <==> self.kv_in(k, v) && key@.is_prefix_of(k) by {
                    if self.kv_in(k, v) {
                        self.lemma_kv_extends(k, v);
                    }
                }
            }
            Some(self)
        } else {
            let d = key[self.key.len()];
            proof {
                Self::lemma_wf_seq(self.children@);
                if self.nk_in(key@) {
                    self.lemma_nk_route(key@);
                    Self::lemma_nk_seq(self.children@, key@);
                }
            }
            match find_child(&self.children, self.key.len(), d) {
                None => None,
                Some(i) => {
                    proof {
                        self.lemma_only_child(key@, i as int);
                        Self::lemma_count_seq_elem(self.children@, i as int);
                    }
                    let child = &self.children[i];
                    let l = lcp_len(child.key.as_slice(), key);
                    if l == child.key.len() {
                        proof {
                            assert(child.key@.is_prefix_of(key@));
                            if !child.nk_in(key@) && self.nk_in(key@) {
                                self.lemma_nk_route(key@);
                                let j = choose|j: int|
                                    0 <= j < self.children@.len() && (#[trigger] self.children@[j]).nk_in(
                                        key@,
                                    ) && self.disc(j) == key@[self.key@.len() as int];
                                assert(j == i);
                            }
                        }
                        let sub = child.exact_node(key);
                        proof {
                            match sub {
                                Some(m) => {
                                    Self::lemma_nk_seq(self.children@, key@);
                                    assert forall|k: Seq<u8>, v: V|
                                        m.kv_in(k, v) <==> self.kv_in(k, v) && key@.is_prefix_of(
                                        k,
                                    ) by {
                                        if m.kv_in(k, v) {
                                            assert(child.kv_in(k, v));
                                            assert(self.children@[i as int].kv_in(k, v));
                                            Self::lemma_kv_seq(self.children@, k, v);
                                        }
                                        if self.kv_in(k, v) && key@.is_prefix_of(k) {
                                            self.lemma_kv_extends(k, v);
                                            assert(k.len() >= key@.len() > self.key@.len());
                                            if k.len() == self.key@.len() {
                                                assert(k =~= self.key@);
                                            }
                                            assert(k != self.key@);
                                            self.lemma_kv_route(k, v);
                                            let j = choose|j: int|
                                                0 <= j < self.children@.len() && (
                                                #[trigger] self.children@[j]).kv_in(k, v)
                                                    && self.disc(j) == k[self.key@.len() as int];
                                            lemma_prefix_index(key@, k, self.key@.len() as int);
                                            assert(self.disc(i as int) == key@[self.key@.len() as int]);
                                            assert(j == i);
                                            assert(child.kv_in(k, v));
                                        }
                                    }
                                    if m.value is Some {
                                        let w = m.value->0;
                                        assert(self.children@[i as int].kv_in(key@, w));
                                        Self::lemma_kv_seq(self.children@, key@, w);
                                    } else {
                                        {
                                            if self.has_key(key@) {
                                                let w = choose|w: V| self.kv_in(key@, w);
                                                self.lemma_kv_route(key@, w);
                                                let j = choose|j: int|
                                                    0 <= j < self.children@.len() && (
                                                    #[trigger] self.children@[j]).kv_in(key@, w)
                                                        && self.disc(j) == key@[self.key@.len() as int];
                                                assert(j == i);
                                                assert(child.has_key(key@));
                                            }
                                        }
                                    }
                                },
                                None => {},
                            }
                        }
                        sub
                    } else {
                        proof {
                            if self.nk_in(key@) {
                                self.lemma_nk_route(key@);
                                let j = choose|j: int|
                                    0 <= j < self.children@.len() && (#[trigger] self.children@[j]).nk_in(
                                        key@,
                                    ) && self.disc(j) == key@[self.key@.len() as int];
                                assert(j == i);
                                child.lemma_nk_extends(key@);
                                lemma_prefix_index(child.key@, key@, l as int);
                            }
                        }
                        None
                    }
                },
            }
        }
    }

    /// The deepest structural node whose key is a prefix of the query,
    /// whether or not it holds a value. At worst it is this node itself.
    pub(crate) fn raw_anc_node<'x>(&'x self, key: &[u8]) -> (r: &'x Node<V>)
        requires
            self.wf(),
            self.key@.is_prefix_of(key@),
        ensures
            r.wf(),
            r.key@.is_prefix_of(key@),
            self.nk_in(r.key@),
            r.count() <= self.count(),
            forall|k2: Seq<u8>|
                self.nk_in(k2) && k2.is_prefix_of(key@) ==> k2.len() <= r.key@.len(),
            forall|k: Seq<u8>, v: V| r.kv_in(k, v) <==> self.kv_in(k, v) && r.key@.is_prefix_of(k),
        decreases key@.len() - self.key@.len(),
    {
        proof {
            assert forall|k2: Seq<u8>|
                self.nk_in(k2) && k2.is_prefix_of(key@) && k2.len()
                    <= self.key@.len() implies k2.len() <= self.key@.len() by {
                self.lemma_nk_extends(k2);
            }
            assert forall|k: Seq<u8>, v: V|
                self.kv_in(k, v) <==> self.kv_in(k, v) && self.key@.is_prefix_of(k) by {
                if self.kv_in(k, v) {
                    self.lemma_kv_extends(k, v);
                }
            }
        }
        if self.key.len() < key.len() {
            let d = key[self.key.len()];
            match find_child(&self.children, self.key.len(), d) {
                Some(i) => {
                    proof {
                        Self::lemma_wf_seq(self.children@);
                        self.lemma_only_child(key@, i as int);
                        Self::lemma_count_seq_elem(self.children@, i as int);
                    }
                    let child = &self.children[i];
                    let l = lcp_len(child.key.as_slice(), key);
                    if l == child.key.len() {
                        proof {
                            assert(child.key@.is_prefix_of(key@));
                        }
                        let m = child.raw_anc_node(key);
                        proof {
                            Self::lemma_nk_seq(self.children@, m.key@);
                            assert forall|k: Seq<u8>, v: V|
                                m.kv_in(k, v) <==> self.kv_in(k, v) && m.key@.is_prefix_of(
                                k,
                            ) by {
                                if m.kv_in(k, v) {
                                    assert(child.kv_in(k, v));
                                    assert(self.children@[i as int].kv_in(k, v));
                                    Self::lemma_kv_seq(self.children@, k, v);
                                }
                                if self.kv_in(k, v) && m.key@.is_prefix_of(k) {
                                    assert(k.len() >= m.key@.len() >= child.key@.len()
                                        > self.key@.len());
                                    if k == self.key@ {
                                        assert(false);
                                    }
                                    self.lemma_kv_route(k, v);
                                    let j = choose|j: int|
                                        0 <= j < self.children@.len() && (
                                        #[trigger] self.children@[j]).kv_in(k, v) && self.disc(j)
                                            == k[self.key@.len() as int];
                                    crate::node::lemma_prefix_trans(child.key@, m.key@, k);
                                    lemma_prefix_index(child.key@, k, self.key@.len() as int);
                                    assert(self.disc(i as int) == key@[self.key@.len() as int]);
                                    assert(j == i);
                                    assert(child.kv_in(k, v));
                                }
                            }
                            assert forall|k2: Seq<u8>|
                                self.nk_in(k2) && k2.is_prefix_of(key@) implies k2.len()
                                <= m.key@.len() by {
                                self.lemma_nk_extends(k2);
                                if k2 != self.key@ {
                                    self.lemma_nk_route(k2);
                                    let j = choose|j: int|
                                        0 <= j < self.children@.len() && (
                                        #[trigger] self.children@[j]).nk_in(k2) && self.disc(j)
                                            == k2[self.key@.len() as int];
                                    lemma_prefix_index(k2, key@, self.key@.len() as int);
                                    assert(self.disc(i as int) == key@[self.key@.len() as int]);
                                    assert(j == i);
                                } else {
                                    assert(m.key@.len() >= child.key@.len());
                                }
                            }
                        }
                        m
                    } else {
                        proof {
                            assert forall|k2: Seq<u8>|
                                self.nk_in(k2) && k2.is_prefix_of(key@) implies k2.len()
                                <= self.key@.len() by {
                                if k2 != self.key@ {
                                    self.lemma_nk_route(k2);
                                    let j = choose|j: int|
                                        0 <= j < self.children@.len() && (
                                        #[trigger] self.children@[j]).nk_in(k2) && self.disc(j)
                                            == k2[self.key@.len() as int];
                                    lemma_prefix_index(k2, key@, self.key@.len() as int);
                                    assert(self.disc(i as int) == key@[self.key@.len() as int]);
                                    assert(j == i);
                                    child.lemma_nk_extends(k2);
                                    if l < key@.len() {
                                        lemma_prefix_index(child.key@, k2, l as int);
                                        lemma_prefix_index(k2, key@, l as int);
                                    }
                                } else {
                                    self.lemma_nk_extends(k2);
                                }
                            }
                        }
                        self
                    }
                },
                None => {
                    proof {
                        assert forall|k2: Seq<u8>|
                            self.nk_in(k2) && k2.is_prefix_of(key@) implies k2.len()
                            <= self.key@.len() by {
                            if k2 != self.key@ {
                                self.lemma_nk_route(k2);
                            } else {
                                self.lemma_nk_extends(k2);
                            }
                        }
                    }
                    self
                },
            }
        } else {
            proof {
                assert(self.key@ =~= key@);
                assert forall|k2: Seq<u8>|
                    self.nk_in(k2) && k2.is_prefix_of(key@) implies k2.len()
                    <= self.key@.len() by {
                    self.lemma_nk_extends(k2);
                }
            }
            self
        }
    }

    /// Follow the query past its own length into the unique deeper node: the
    /// shallowest structural node whose key the query is a prefix of.
    pub(crate) fn raw_desc_node<'x>(&'x self, key: &[u8]) -> (r: Option<&'x Node<V>>)
        requires
            self.wf(),
            self.key@.is_prefix_of(key@),
        ensures
            match r {
                Some(m) => {
                    &&& m.wf()
                    &&& key@.is_prefix_of(m.key@)
                    &&& self.nk_in(m.key@)
                    &&& m.count() <= self.count()
                    &&& forall|k2: Seq<u8>|
                        self.nk_in(k2) && key@.is_prefix_of(k2) ==> m.key@.is_prefix_of(k2)
                    &&& forall|k: Seq<u8>, v: V|
                        m.kv_in(k, v) <==> self.kv_in(k, v) && m.key@.is_prefix_of(k)
                },
                None => forall|k2: Seq<u8>| self.nk_in(k2) ==> !key@.is_prefix_of(k2),
            },
        decreases key@.len() - self.key@.len(),
    {
        if self.key.len() == key.len() {
            proof {
                assert(self.key@ =~= key@);
                assert(key@.is_prefix_of(self.key@));
                assert forall|k2: Seq<u8>|
                    self.nk_in(k2) && key@.is_prefix_of(k2) implies self.key@.is_prefix_of(
                    k2,
                ) by {
                    self.lemma_nk_extends(k2);
                }
                assert forall|k: Seq<u8>, v: V|
                    self.kv_in(k, v) <==> self.kv_in(k, v) && self.key@.is_prefix_of(k) by {
                    if self.kv_in(k, v) {
                        self.lemma_kv_extends(k, v);
                    }
                }
            }
            Some(self)
        } else {
            let d = key[self.key.len()];
            match find_child(&self.children, self.key.len(), d) {
                None => {
                    proof {
                        assert forall|k2: Seq<u8>|
                            self.nk_in(k2) implies !key@.is_prefix_of(k2) by {
                            if key@.is_prefix_of(k2) && k2 != self.key@ {
                                self.lemma_nk_route(k2);
                                lemma_prefix_index(key@, k2, self.key@.len() as int);
                            }
                        }
                    }
                    None
                },
                Some(i) => {
                    proof {
                        Self::lemma_wf_seq(self.children@);
                        self.lemma_only_child(key@, i as int);
                        Self::lemma_count_seq_elem(self.children@, i as int);
                    }
                    let child = &self.children[i];
                    let l = lcp_len(child.key.as_slice(), key);
                    if l == key.len() {
                        // the query ends inside (or exactly at) this edge
                        proof {
                            assert(key@.is_prefix_of(child.key@));
                            Self::lemma_nk_seq(self.children@, child.key@);
                            assert(child.nk_in(child.key@));
                            assert forall|k2: Seq<u8>|
                                self.nk_in(k2) && key@.is_prefix_of(k2) implies child.key@.is_prefix_of(
                                k2,
                            ) by {
                                if k2 != self.key@ {
                                    self.lemma_nk_route(k2);
                                    let j = choose|j: int|
                                        0 <= j < self.children@.len() && (
                                        #[trigger] self.children@[j]).nk_in(k2) && self.disc(j)
                                            == k2[self.key@.len() as int];
                                    lemma_prefix_index(key@, k2, self.key@.len() as int);
                                    assert(self.disc(i as int) == key@[self.key@.len() as int]);
                                    assert(j == i);
                                    child.lemma_nk_extends(k2);
                                } else {
                                    assert(key@.len() > self.key@.len());
                                    assert(!key@.is_prefix_of(k2));
                                }
                            }
                            assert forall|k: Seq<u8>, v: V|
                                child.kv_in(k, v) <==> self.kv_in(k, v) && child.key@.is_prefix_of(
                                k,
                            ) by {
                                if child.kv_in(k, v) {
                                    assert(self.children@[i as int].kv_in(k, v));
                                    Self::lemma_kv_seq(self.children@, k, v);
                                    child.lemma_kv_extends(k, v);
                                }
                                if self.kv_in(k, v) && child.key@.is_prefix_of(k) {
                                    assert(k.len() >= child.key@.len() > self.key@.len());
                                    if k == self.key@ {
                                        assert(false);
                                    }
                                    self.lemma_kv_route(k, v);
                                    let j = choose|j: int|
                                        0 <= j < self.children@.len() && (
                                        #[trigger] self.children@[j]).kv_in(k, v) && self.disc(j)
                                            == k[self.key@.len() as int];
                                    lemma_prefix_index(child.key@, k, self.key@.len() as int);
                                    assert(self.disc(i as int) == k[self.key@.len() as int]);
                                    assert(j == i);
                                }
                            }
                        }
                        Some(child)
                    } else if l == child.key.len() {
                        proof {
                            assert(child.key@.is_prefix_of(key@));
                        }
                        let sub = child.raw_desc_node(key);
                        proof {
                            match sub {
                                Some(m) => {
                                    Self::lemma_nk_seq(self.children@, m.key@);
                                    assert forall|k: Seq<u8>, v: V|
                                        m.kv_in(k, v) <==> self.kv_in(k, v) && m.key@.is_prefix_of(
                                        k,
                                    ) by {
                                        if m.kv_in(k, v) {
                                            assert(child.kv_in(k, v));
                                            assert(self.children@[i as int].kv_in(k, v));
                                            Self::lemma_kv_seq(self.children@, k, v);
                                        }
                                        if self.kv_in(k, v) && m.key@.is_prefix_of(k) {
                                            assert(k.len() >= m.key@.len() >= child.key@.len()
                                                > self.key@.len());
                                            if k == self.key@ {
                                                assert(false);
                                            }
                                            self.lemma_kv_route(k, v);
                                            let j = choose|j: int|
                                                0 <= j < self.children@.len() && (
                                                #[trigger] self.children@[j]).kv_in(k, v)
                                                    && self.disc(j) == k[self.key@.len() as int];
                                            crate::node::lemma_prefix_trans(key@, m.key@, k);
                                            lemma_prefix_index(key@, k, self.key@.len() as int);
                                            assert(self.disc(i as int) == key@[self.key@.len() as int]);
                                            assert(j == i);
                                            assert(child.kv_in(k, v));
                                        }
                                    }
                                    assert forall|k2: Seq<u8>|
                                        self.nk_in(k2) && key@.is_prefix_of(k2) implies m.key@.is_prefix_of(
                                        k2,
                                    ) by {
                                        if k2 != self.key@ {
                                            self.lemma_nk_route(k2);
                                            let j = choose|j: int|
                                                0 <= j < self.children@.len() && (
                                                #[trigger] self.children@[j]).nk_in(k2) && self.disc(
                                                    j,
                                                ) == k2[self.key@.len() as int];
                                            lemma_prefix_index(key@, k2, self.key@.len() as int);
                                            assert(self.disc(i as int) == key@[self.key@.len() as int]);
                                    assert(j == i);
                                        } else {
                                            assert(!key@.is_prefix_of(k2));
                                        }
                                    }
                                },
                                None => {
                                    assert forall|k2: Seq<u8>|
                                        self.nk_in(k2) implies !key@.is_prefix_of(k2) by {
                                        if key@.is_prefix_of(k2) && k2 != self.key@ {
                                            self.lemma_nk_route(k2);
                                            let j = choose|j: int|
                                                0 <= j < self.children@.len() && (
                                                #[trigger] self.children@[j]).nk_in(k2) && self.disc(
                                                    j,
                                                ) == k2[self.key@.len() as int];
                                            lemma_prefix_index(key@, k2, self.key@.len() as int);
                                            assert(self.disc(i as int) == key@[self.key@.len() as int]);
                                    assert(j == i);
                                        }
                                    }
                                },
                            }
                        }
                        sub
                    } else {
                        // the query and the edge disagree before either ends
                        proof {
                            assert forall|k2: Seq<u8>|
                                self.nk_in(k2) implies !key@.is_prefix_of(k2) by {
                                if key@.is_prefix_of(k2) && k2 != self.key@ {
                                    self.lemma_nk_route(k2);
                                    let j = choose|j: int|
                                        0 <= j < self.children@.len() && (
                                        #[trigger] self.children@[j]).nk_in(k2) && self.disc(j)
                                            == k2[self.key@.len() as int];
                                    lemma_prefix_index(key@, k2, self.key@.len() as int);
                                    assert(self.disc(i as int) == key@[self.key@.len() as int]);
                                    assert(j == i);
                                    child.lemma_nk_extends(k2);
                                    lemma_prefix_index(child.key@, k2, l as int);
                                    lemma_prefix_index(key@, k2, l as int);
                                }
                            }
                        }
                        None
                    }
                },
            }
        }
    }
}

impl<V> Node<V> {
    /// A mutable borrow of the value stored under exactly this key, if any.
    /// The structure is untouched; only that one value may change through the
    /// borrow.
    pub(crate) fn value_mut_node<'x>(&'x mut self, key: &[u8]) -> (r: Option<&'x mut V>)
        requires
            old(self).wf(),
            old(self).key@.is_prefix_of(key@),
        ensures
            final(self).wf(),
            final(self).key@ == old(self).key@,
            final(self).value is Some <==> old(self).value is Some,
            final(self).children@.len() == old(self).children@.len(),
            final(self).count() == old(self).count(),
            match r {
                None => (forall|k: Seq<u8>, w: V|
                    final(self).kv_in(k, w) <==> old(self).kv_in(k, w)) && !old(self).has_key(
                    key@,
                ),
                Some(v) => old(self).kv_in(key@, *v) && forall|k: Seq<u8>, w: V|
                    final(self).kv_in(k, w) <==> (if k == key@ {
                        w == *final(v)
                    } else {
                        old(self).kv_in(k, w)
                    }),
            },
        decreases key@.len() - old(self).key@.len(),
    {
        if self.key.len() == key.len() {
            proof {
                assert(self.key@ =~= key@);
                self.lemma_no_child_at_own_key();
            }
            let ghost os = *old(self);
            let r = self.value.as_mut();
            proof {
                let ns = after_borrow(*self);
                assert(ns.children@ == os.children@);
                assert(ns.local_ok()) by {
                    assert forall|j: int| 0 <= j < ns.children@.len() implies ns.disc(j) == os.disc(
                        j,
                    ) by {}
                }
                assert(ns.wf());
                if r is None {
                    if os.has_key(key@) {
                        let w = choose|w: V| os.kv_in(key@, w);
                        Self::lemma_kv_seq(os.children@, key@, w);
                    }
                } else {
                    let v = r->0;
                    assert(os.kv_in(key@, *v));
                    assert forall|k: Seq<u8>, w: V|
                        ns.kv_in(k, w) <==> (if k == key@ {
                            w == *final(v)
                        } else {
                            os.kv_in(k, w)
                        }) by {
                        if k == key@ {
                            if Self::kv_in_seq(os.children@, k, w) {
                                Self::lemma_kv_seq(os.children@, k, w);
                            }
                        }
                    }
                }
            }
            r
        } else {
            let d = key[self.key.len()];
            match find_child(&self.children, self.key.len(), d) {
                None => {
                    proof {
                        if self.has_key(key@) {
                            let w = choose|w: V| self.kv_in(key@, w);
                            self.lemma_kv_route(key@, w);
                        }
                    }
                    None
                },
                Some(i) => {
                    let ghost oc = self.children@[i as int];
                    proof {
                        Self::lemma_wf_seq(self.children@);
                        self.lemma_only_child(key@, i as int);
                    }
                    let l = lcp_len(self.children[i].key.as_slice(), key);
                    if l == self.children[i].key.len() {
                        proof {
                            assert(oc.key@.is_prefix_of(key@));
                        }
                        let slot = vstd::std_specs::vec::vec_index_mut(&mut self.children, i);
                        let r = slot.value_mut_node(key);
                        proof {
                            let os = *old(self);
                            let ns = after_borrow(*self);
                            let nc = ns.children@[i as int];
                            assert(ns.children@ == os.children@.update(i as int, nc));
                            assert forall|j: int| 0 <= j < os.children@.len() && j != i implies
                                ns.children@[j] == os.children@[j] by {}
                            Self::lemma_wf_seq(os.children@);
                            Self::lemma_wf_seq(ns.children@);
                            assert forall|j: int| 0 <= j < ns.children@.len() implies ns.disc(j)
                                == os.disc(j) by {}
                            assert(ns.local_ok());
                            assert(ns.wf());
                            Self::lemma_count_seq_update(os.children@, i as int, nc);
                            if r is None {
                                {
                                    assert forall|k: Seq<u8>, w: V|
                                        ns.kv_in(k, w) <==> os.kv_in(k, w) by {
                                        Self::lemma_kv_seq(ns.children@, k, w);
                                        Self::lemma_kv_seq(os.children@, k, w);
                                        if Self::kv_in_seq(ns.children@, k, w) {
                                            let j = choose|j: int|
                                                0 <= j < ns.children@.len() && (
                                                #[trigger] ns.children@[j]).kv_in(k, w);
                                            if j == i {
                                                assert(oc.kv_in(k, w));
                                            }
                                            assert(os.children@[j].kv_in(k, w));
                                        }
                                        if Self::kv_in_seq(os.children@, k, w) {
                                            let j = choose|j: int|
                                                0 <= j < os.children@.len() && (
                                                #[trigger] os.children@[j]).kv_in(k, w);
                                            if j == i {
                                                assert(nc.kv_in(k, w));
                                            }
                                            assert(ns.children@[j].kv_in(k, w));
                                        }
                                    }
                                    if os.has_key(key@) {
                                        let w = choose|w: V| os.kv_in(key@, w);
                                        os.lemma_kv_route(key@, w);
                                        let j = choose|j: int|
                                            0 <= j < os.children@.len() && (
                                            #[trigger] os.children@[j]).kv_in(key@, w) && os.disc(
                                                j,
                                            ) == key@[os.key@.len() as int];
                                        assert(j == i);
                                        assert(oc.has_key(key@));
                                    }
                                }
                            } else {
                                let v = r->0;
                                {
                                    assert(oc.kv_in(key@, *v));
                                    Self::lemma_kv_seq(os.children@, key@, *v);
                                    assert forall|k: Seq<u8>, w: V|
                                        ns.kv_in(k, w) <==> (if k == key@ {
                                            w == *final(v)
                                        } else {
                                            os.kv_in(k, w)
                                        }) by {
                                        Self::lemma_kv_seq(ns.children@, k, w);
                                        Self::lemma_kv_seq(os.children@, k, w);
                                        if k == key@ {
                                            if ns.kv_in(k, w) {
                                                if Self::kv_in_seq(ns.children@, k, w) {
                                                    let j = choose|j: int|
                                                        0 <= j < ns.children@.len() && (
                                                        #[trigger] ns.children@[j]).kv_in(k, w);
                                                    assert(j == i);
                                                }
                                            }
                                            if w == *final(v) {
                                                assert(nc.kv_in(k, w));
                                            }
                                        } else {
                                            if ns.kv_in(k, w) && !(ns.value == Some(w) && k
                                                == ns.key@) {
                                                let j = choose|j: int|
                                                    0 <= j < ns.children@.len() && (
                                                    #[trigger] ns.children@[j]).kv_in(k, w);
                                                if j == i {
                                                    assert(oc.kv_in(k, w));
                                                }
                                                assert(os.children@[j].kv_in(k, w));
                                            }
                                            if os.kv_in(k, w) && !(os.value == Some(w) && k
                                                == os.key@) {
                                                let j = choose|j: int|
                                                    0 <= j < os.children@.len() && (
                                                    #[trigger] os.children@[j]).kv_in(k, w);
                                                if j == i {
                                                    assert(nc.kv_in(k, w));
                                                }
                                                assert(ns.children@[j].kv_in(k, w));
                                            }
                                        }
                                    }
                                }
                            }
                        }
                        r
                    } else {
                        proof {
                            if self.has_key(key@) {
                                let w = choose|w: V| self.kv_in(key@, w);
                                self.lemma_kv_route(key@, w);
                                let j = choose|j: int|
                                    0 <= j < self.children@.len() && (#[trigger] self.children@[j]).kv_in(
                                        key@,
                                        w,
                                    ) && self.disc(j) == key@[self.key@.len() as int];
                                assert(j == i);
                                oc.lemma_kv_extends(key@, w);
                                lemma_prefix_index(oc.key@, key@, l as int);
                            }
                        }
                        None
                    }
                },
            }
        }
    }

    /// Append every (key, value) pair of this subtree to the vector, one
    /// entry per valued node.
    pub(crate) fn collect_pairs<'x>(&'x self, out: &mut Vec<(Vec<u8>, &'x V)>)
        ensures
            final(out)@.len() == old(out)@.len() + self.count(),
            forall|t: int| 0 <= t < old(out)@.len() ==> final(out)@[t] == old(out)@[t],
            forall|t: int|
                old(out)@.len() <= t < final(out)@.len() ==> self.kv_in(
                    (#[trigger] final(out)@[t]).0@,
                    *final(out)@[t].1,
                ),
            forall|k: Seq<u8>, v: V|
                self.kv_in(k, v) ==> exists|t: int|
                    old(out)@.len() <= t < final(out)@.len() && (#[trigger] final(out)@[t]).0@ == k
                        && *final(out)@[t].1 == v,
        decreases *self,
    {
        let ghost base = out@;
        match &self.value {
            Some(v) => {
                let kcopy = crate::node::copy_front(self.key.as_slice(), self.key.len());
                proof {
                    assert(kcopy@ =~= self.key@);
                }
                out.push((kcopy, v));
                proof {
                    assert(out@[base.len() as int].0@ == self.key@);
                    assert(*out@[base.len() as int].1 == *v);
                }
            },
            None => {},
        }
        proof {
            assert(self.children@.take(0) =~= Seq::<Node<V>>::empty());
            assert(self.children@.skip(0) =~= self.children@);
        }
        let n = self.children.len();
        let mut i: usize = 0;
        while i < n
            invariant
                i <= n,
                n == self.children@.len(),
                out@.len() >= base.len(),
                out@.len() + Self::count_seq(self.children@.skip(i as int)) == base.len()
                    + self.count(),
                forall|t: int| 0 <= t < base.len() ==> out@[t] == base[t],
                forall|t: int|
                    base.len() <= t < out@.len() ==> self.kv_in(
                        (#[trigger] out@[t]).0@,
                        *out@[t].1,
                    ),
                forall|v: V|
                    self.value == Some(v) ==> exists|t: int|
                        base.len() <= t < out@.len() && (#[trigger] out@[t]).0@ == self.key@ && *out@[t].1
                            == v,
                forall|k: Seq<u8>, v: V|
                    Self::kv_in_seq(self.children@.take(i as int), k, v) ==> exists|t: int|
                        base.len() <= t < out@.len() && (#[trigger] out@[t]).0@ == k && *out@[t].1
                            == v,
            decreases n - i,
        {
            let ghost before = out@;
            let child = &self.children[i];
            proof {
                assert(self.children@[i as int] == child);
                assert(self.children@.skip(i as int)[0] == self.children@[i as int]);
                assert(self.children@.skip(i as int).drop_first() =~= self.children@.skip(
                    i as int + 1,
                ));
            }
            child.collect_pairs(out);
            proof {
                assert forall|t: int|
                    base.len() <= t < out@.len() implies self.kv_in(
                    (#[trigger] out@[t]).0@,
                    *out@[t].1,
                ) by {
                    if t >= before.len() {
                        assert(child.kv_in(out@[t].0@, *out@[t].1));
                        Self::lemma_kv_seq(self.children@, out@[t].0@, *out@[t].1);
                    }
                }
                assert forall|k: Seq<u8>, v: V| #[trigger]
                    Self::kv_in_seq(self.children@.take(i as int + 1), k, v) implies exists|t: int|
                    base.len() <= t < out@.len() && (#[trigger] out@[t]).0@ == k && *out@[t].1
                        == v by {
                    Self::lemma_kv_seq(self.children@.take(i as int + 1), k, v);
                    let j = choose|j: int|
                        0 <= j < self.children@.take(i as int + 1).len() && (
                        #[trigger] self.children@.take(i as int + 1)[j]).kv_in(k, v);
                    if j < i as int {
                        assert(self.children@.take(i as int)[j] == self.children@.take(
                            i as int + 1,
                        )[j]);
                        Self::lemma_kv_seq(self.children@.take(i as int), k, v);
                        let t = choose|t: int|
                            base.len() <= t < before.len() && (#[trigger] before[t]).0@ == k
                                && *before[t].1 == v;
                        assert(out@[t] == before[t]);
                    } else {
                        assert(self.children@.take(i as int + 1)[j] == child);
                        let t = choose|t: int|
                            before.len() <= t < out@.len() && (#[trigger] out@[t]).0@ == k
                                && *out@[t].1 == v;
                    }
                }
            }
            i = i + 1;
        }
        proof {
            assert(self.children@.take(n as int) =~= self.children@);
            assert(self.children@.skip(n as int) =~= Seq::<Node<V>>::empty());
            assert(Self::count_seq(Seq::<Node<V>>::empty()) == 0);
            assert forall|k: Seq<u8>, v: V|
                self.kv_in(k, v) implies exists|t: int|
                base.len() <= t < out@.len() && (#[trigger] out@[t]).0@ == k && *out@[t].1
                    == v by {
                if !(self.value == Some(v) && k == self.key@) {
                    assert(Self::kv_in_seq(self.children@, k, v));
                }
            }
        }
    }
}

} // verus!
