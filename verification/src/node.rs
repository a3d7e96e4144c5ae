use vstd::prelude::*;

verus! {

broadcast use vstd::std_specs::vec::group_vec_axioms, vstd::seq::group_seq_axioms;

/// One node of the trie.
///
/// `key` holds the full unit path from the root down to this node, not just
/// the edge label from the parent, so divergence comparisons never have to
/// re-walk the path from the root.
pub(crate) struct Node<V> {
    pub(crate) key: Vec<u8>,
    pub(crate) value: Option<V>,
    pub(crate) children: Vec<Node<V>>,
}

impl<V> Node<V> {
    /// The pair (k, v) is stored at some node of this subtree.
    pub(crate) open spec fn kv_in(self, k: Seq<u8>, v: V) -> bool
        decreases self,
    {
        (self.value == Some(v) && k == self.key@) || Self::kv_in_seq(self.children@, k, v)
    }

    pub(crate) open spec fn kv_in_seq(s: Seq<Node<V>>, k: Seq<u8>, v: V) -> bool
        decreases s,
    {
        s.len() > 0 && (s[0].kv_in(k, v) || Self::kv_in_seq(s.drop_first(), k, v))
    }

    /// Some node of this subtree stores a value under the key k.
    pub(crate) open spec fn has_key(self, k: Seq<u8>) -> bool {
        exists|v: V| self.kv_in(k, v)
    }

    /// Some node of this subtree has exactly the key k, valued or not.
    pub(crate) open spec fn nk_in(self, k: Seq<u8>) -> bool
        decreases self,
    {
        k == self.key@ || Self::nk_in_seq(self.children@, k)
    }

    pub(crate) open spec fn nk_in_seq(s: Seq<Node<V>>, k: Seq<u8>) -> bool
        decreases s,
    {
        s.len() > 0 && (s[0].nk_in(k) || Self::nk_in_seq(s.drop_first(), k))
    }

    /// All keyed values of the subtree, as a map.
    pub(crate) open spec fn as_map(self) -> Map<Seq<u8>, V> {
        Map::new(|k: Seq<u8>| self.has_key(k), |k: Seq<u8>| choose|v: V| self.kv_in(k, v))
    }

    /// A non-root node must carry a value or branch at least two ways;
    /// a valueless node with fewer than two children is redundant.
    pub(crate) open spec fn branch_ok(self) -> bool {
        self.value is Some || self.children@.len() >= 2
    }

    /// Number of valued nodes in this subtree.
    pub(crate) open spec fn count(self) -> nat
        decreases self,
    {
        (if self.value is Some {
            1nat
        } else {
            0nat
        }) + Self::count_seq(self.children@)
    }

    pub(crate) open spec fn count_seq(s: Seq<Node<V>>) -> nat
        decreases s,
    {
        if s.len() == 0 {
            0nat
        } else {
            s[0].count() + Self::count_seq(s.drop_first())
        }
    }

    /// The unit under which the i-th child is filed: the first unit of its key
    /// past this node's own key.
    pub(crate) open spec fn disc(self, i: int) -> u8 {
        self.children@[i].key@[self.key@.len() as int]
    }

    /// The conditions `wf` places on this node alone: every child extends this
    /// node's key by at least one unit, children are filed under pairwise
    /// distinct units, and every child satisfies `branch_ok`.
    pub(crate) open spec fn local_ok(self) -> bool {
        &&& forall|i: int|
            0 <= i < self.children@.len() ==> (#[trigger] self.children@[i]).branch_ok()
        &&& forall|i: int|
            0 <= i < self.children@.len()
                ==> (#[trigger] self.children@[i]).key@.len() > self.key@.len()
                && self.key@.is_prefix_of(self.children@[i].key@)
        &&& forall|i: int, j: int|
            0 <= i < self.children@.len() && 0 <= j < self.children@.len() && i != j
                ==> self.disc(i) != self.disc(j)
    }

    /// Structural well-formedness of this subtree: `local_ok` at every node.
    /// The node itself is not required to satisfy `branch_ok`: the root is
    /// exempt, and for any other node the parent's `local_ok` demands it.
    pub(crate) open spec fn wf(self) -> bool
        decreases self,
    {
        self.local_ok() && Self::wf_seq(self.children@)
    }

    pub(crate) open spec fn wf_seq(s: Seq<Node<V>>) -> bool
        decreases s,
    {
        s.len() == 0 || (s[0].wf() && Self::wf_seq(s.drop_first()))
    }
}

/// Prefixes compose: a prefix of a prefix is a prefix.
pub(crate) proof fn lemma_prefix_trans(a: Seq<u8>, b: Seq<u8>, c: Seq<u8>)
    requires
        a.is_prefix_of(b),
        b.is_prefix_of(c),
    ensures
        a.is_prefix_of(c),
{
    assert(a =~= c.subrange(0, a.len() as int));
}

/// A prefix agrees with the whole string at every index it covers.
pub(crate) proof fn lemma_prefix_index(a: Seq<u8>, b: Seq<u8>, i: int)
    requires
        a.is_prefix_of(b),
        0 <= i < a.len(),
    ensures
        a[i] == b[i],
{
    assert(a =~= b.subrange(0, a.len() as int));
    assert(b.subrange(0, a.len() as int)[i] == b[i]);
}

impl<V> Node<V> {
    /// `kv_in_seq` says: some element of the sequence stores the pair.
    pub(crate) proof fn lemma_kv_seq(s: Seq<Node<V>>, k: Seq<u8>, v: V)
        ensures
            Self::kv_in_seq(s, k, v) <==> exists|i: int|
                0 <= i < s.len() && (#[trigger] s[i]).kv_in(k, v),
        decreases s,
    {
        if s.len() > 0 {
            Self::lemma_kv_seq(s.drop_first(), k, v);
            if Self::kv_in_seq(s, k, v) {
                if s[0].kv_in(k, v) {
                    assert(0 <= 0 < s.len() && s[0].kv_in(k, v));
                } else {
                    let i = choose|i: int|
                        0 <= i < s.drop_first().len() && (#[trigger] s.drop_first()[i]).kv_in(k, v);
                    assert(s[i + 1] == s.drop_first()[i]);
                    assert(s[i + 1].kv_in(k, v));
                }
            }
            if exists|i: int| 0 <= i < s.len() && (#[trigger] s[i]).kv_in(k, v) {
                let i = choose|i: int| 0 <= i < s.len() && (#[trigger] s[i]).kv_in(k, v);
                if i > 0 {
                    assert(s.drop_first()[i - 1] == s[i]);
                    assert(s.drop_first()[i - 1].kv_in(k, v));
                }
            }
        }
    }

    /// `nk_in_seq` says: some element of the sequence has the key.
    pub(crate) proof fn lemma_nk_seq(s: Seq<Node<V>>, k: Seq<u8>)
        ensures
            Self::nk_in_seq(s, k) <==> exists|i: int|
                0 <= i < s.len() && (#[trigger] s[i]).nk_in(k),
        decreases s,
    {
        if s.len() > 0 {
            Self::lemma_nk_seq(s.drop_first(), k);
            if Self::nk_in_seq(s, k) {
                if s[0].nk_in(k) {
                    assert(0 <= 0 < s.len() && s[0].nk_in(k));
                } else {
                    let i = choose|i: int|
                        0 <= i < s.drop_first().len() && (#[trigger] s.drop_first()[i]).nk_in(k);
                    assert(s[i + 1] == s.drop_first()[i]);
                    assert(s[i + 1].nk_in(k));
                }
            }
            if exists|i: int| 0 <= i < s.len() && (#[trigger] s[i]).nk_in(k) {
                let i = choose|i: int| 0 <= i < s.len() && (#[trigger] s[i]).nk_in(k);
                if i > 0 {
                    assert(s.drop_first()[i - 1] == s[i]);
                    assert(s.drop_first()[i - 1].nk_in(k));
                }
            }
        }
    }

    /// `wf_seq` says: every element of the sequence is well-formed.
    pub(crate) proof fn lemma_wf_seq(s: Seq<Node<V>>)
        ensures
            Self::wf_seq(s) <==> forall|i: int| 0 <= i < s.len() ==> (#[trigger] s[i]).wf(),
        decreases s,
    {
        if s.len() > 0 {
            Self::lemma_wf_seq(s.drop_first());
            if Self::wf_seq(s) {
                assert forall|i: int| 0 <= i < s.len() implies (#[trigger] s[i]).wf() by {
                    if i > 0 {
                        assert(s.drop_first()[i - 1] == s[i]);
                    }
                }
            }
            if forall|i: int| 0 <= i < s.len() ==> (#[trigger] s[i]).wf() {
                assert forall|i: int|
                    0 <= i < s.drop_first().len() implies (#[trigger] s.drop_first()[i]).wf() by {
                    assert(s.drop_first()[i] == s[i + 1]);
                }
            }
        }
    }

    /// Every key stored in a well-formed subtree extends the subtree root's key.
    pub(crate) proof fn lemma_kv_extends(self, k: Seq<u8>, v: V)
        requires
            self.wf(),
            self.kv_in(k, v),
        ensures
            self.key@.is_prefix_of(k),
        decreases self,
    {
        if self.value == Some(v) && k == self.key@ {
            assert(self.key@ =~= k.subrange(0, self.key@.len() as int));
        } else {
            Self::lemma_kv_seq(self.children@, k, v);
            Self::lemma_wf_seq(self.children@);
            let i = choose|i: int|
                0 <= i < self.children@.len() && (#[trigger] self.children@[i]).kv_in(k, v);
            self.children@[i].lemma_kv_extends(k, v);
            lemma_prefix_trans(self.key@, self.children@[i].key@, k);
        }
    }

    /// Every structural key of a well-formed subtree extends the root's key.
    pub(crate) proof fn lemma_nk_extends(self, k: Seq<u8>)
        requires
            self.wf(),
            self.nk_in(k),
        ensures
            self.key@.is_prefix_of(k),
        decreases self,
    {
        if k == self.key@ {
            assert(self.key@ =~= k.subrange(0, self.key@.len() as int));
        } else {
            Self::lemma_nk_seq(self.children@, k);
            Self::lemma_wf_seq(self.children@);
            let i = choose|i: int|
                0 <= i < self.children@.len() && (#[trigger] self.children@[i]).nk_in(k);
            self.children@[i].lemma_nk_extends(k);
            lemma_prefix_trans(self.key@, self.children@[i].key@, k);
        }
    }

    /// A stored key other than this node's own key routes through the one
    /// child filed under the key's next unit.
    pub(crate) proof fn lemma_kv_route(self, k: Seq<u8>, v: V)
        requires
            self.wf(),
            self.kv_in(k, v),
            k != self.key@,
        ensures
            k.len() > self.key@.len(),
            self.key@.is_prefix_of(k),
            exists|i: int|
                0 <= i < self.children@.len() && (#[trigger] self.children@[i]).kv_in(k, v)
                    && self.disc(i) == k[self.key@.len() as int],
    {
        Self::lemma_kv_seq(self.children@, k, v);
        Self::lemma_wf_seq(self.children@);
        let i = choose|i: int|
            0 <= i < self.children@.len() && (#[trigger] self.children@[i]).kv_in(k, v);
        self.children@[i].lemma_kv_extends(k, v);
        self.lemma_kv_extends(k, v);
        assert(self.disc(i) == k[self.key@.len() as int]);
        assert(0 <= i < self.children@.len() && (self.children@[i]).kv_in(k, v) && self.disc(i)
            == k[self.key@.len() as int]);
    }

    /// The structural analogue of `lemma_kv_route`.
    pub(crate) proof fn lemma_nk_route(self, k: Seq<u8>)
        requires
            self.wf(),
            self.nk_in(k),
            k != self.key@,
        ensures
            k.len() > self.key@.len(),
            self.key@.is_prefix_of(k),
            exists|i: int|
                0 <= i < self.children@.len() && (#[trigger] self.children@[i]).nk_in(k)
                    && self.disc(i) == k[self.key@.len() as int],
    {
        Self::lemma_nk_seq(self.children@, k);
        Self::lemma_wf_seq(self.children@);
        let i = choose|i: int|
            0 <= i < self.children@.len() && (#[trigger] self.children@[i]).nk_in(k);
        self.children@[i].lemma_nk_extends(k);
        self.lemma_nk_extends(k);
        assert(self.disc(i) == k[self.key@.len() as int]);
        assert(0 <= i < self.children@.len() && (self.children@[i]).nk_in(k) && self.disc(i)
            == k[self.key@.len() as int]);
    }

    /// A key whose next unit matches child i cannot be stored under any other
    /// child.
    pub(crate) proof fn lemma_only_child(self, k: Seq<u8>, i: int)
        requires
            self.wf(),
            0 <= i < self.children@.len(),
            k.len() > self.key@.len(),
            self.disc(i) == k[self.key@.len() as int],
        ensures
            forall|j: int, v: V|
                0 <= j < self.children@.len() && j != i
                    ==> !(#[trigger] self.children@[j].kv_in(k, v)),
            forall|j: int|
                0 <= j < self.children@.len() && j != i
                    ==> !(#[trigger] self.children@[j].nk_in(k)),
    {
        Self::lemma_wf_seq(self.children@);
        assert forall|j: int, v: V|
            0 <= j < self.children@.len() && j != i implies !(#[trigger] self.children@[j].kv_in(
            k,
            v,
        )) by {
            if self.children@[j].kv_in(k, v) {
                self.children@[j].lemma_kv_extends(k, v);
                assert(self.disc(j) == k[self.key@.len() as int]);
            }
        }
        assert forall|j: int|
            0 <= j < self.children@.len() && j != i implies !(#[trigger] self.children@[j].nk_in(
            k,
        )) by {
            if self.children@[j].nk_in(k) {
                self.children@[j].lemma_nk_extends(k);
                assert(self.disc(j) == k[self.key@.len() as int]);
            }
        }
    }

    /// No child subtree stores anything under this node's own key.
    pub(crate) proof fn lemma_no_child_at_own_key(self)
        requires
            self.wf(),
        ensures
            forall|j: int, v: V|
                0 <= j < self.children@.len() ==> !(#[trigger] self.children@[j].kv_in(
                    self.key@,
                    v,
                )),
            forall|j: int|
                0 <= j < self.children@.len() ==> !(#[trigger] self.children@[j].nk_in(self.key@)),
    {
        Self::lemma_wf_seq(self.children@);
        assert forall|j: int, v: V|
            0 <= j < self.children@.len() implies !(#[trigger] self.children@[j].kv_in(
            self.key@,
            v,
        )) by {
            if self.children@[j].kv_in(self.key@, v) {
                self.children@[j].lemma_kv_extends(self.key@, v);
            }
        }
        assert forall|j: int|
            0 <= j < self.children@.len() implies !(#[trigger] self.children@[j].nk_in(
            self.key@,
        )) by {
            if self.children@[j].nk_in(self.key@) {
                self.children@[j].lemma_nk_extends(self.key@);
            }
        }
    }

    /// In a well-formed subtree, a key is stored with at most one value.
    pub(crate) proof fn lemma_kv_unique(self, k: Seq<u8>, v1: V, v2: V)
        requires
            self.wf(),
            self.kv_in(k, v1),
            self.kv_in(k, v2),
        ensures
            v1 == v2,
        decreases self,
    {
        Self::lemma_kv_seq(self.children@, k, v1);
        Self::lemma_kv_seq(self.children@, k, v2);
        Self::lemma_wf_seq(self.children@);
        if k == self.key@ {
            self.lemma_no_child_at_own_key();
        } else {
            self.lemma_kv_route(k, v1);
            let i = choose|i: int|
                0 <= i < self.children@.len() && (#[trigger] self.children@[i]).kv_in(k, v1)
                    && self.disc(i) == k[self.key@.len() as int];
            self.lemma_only_child(k, i);
            self.lemma_kv_route(k, v2);
            assert(self.children@[i].kv_in(k, v2));
            self.children@[i].lemma_kv_unique(k, v1, v2);
        }
    }

    /// Every stored pair names a structurally present node.
    pub(crate) proof fn lemma_kv_implies_nk(self, k: Seq<u8>, v: V)
        requires
            self.kv_in(k, v),
        ensures
            self.nk_in(k),
        decreases self,
    {
        if !(self.value == Some(v) && k == self.key@) {
            Self::lemma_kv_seq(self.children@, k, v);
            let i = choose|i: int|
                0 <= i < self.children@.len() && (#[trigger] self.children@[i]).kv_in(k, v);
            self.children@[i].lemma_kv_implies_nk(k, v);
            Self::lemma_nk_seq(self.children@, k);
        }
    }

    /// A well-formed subtree whose root holds a value or branches stores at
    /// least one key, and every stored key extends the root's key.
    pub(crate) proof fn lemma_subtree_has_key(self)
        requires
            self.wf(),
            self.branch_ok(),
        ensures
            exists|k2: Seq<u8>| #[trigger] self.has_key(k2) && self.key@.is_prefix_of(k2),
        decreases self,
    {
        if self.value is Some {
            let v = self.value->0;
            assert(self.kv_in(self.key@, v));
            assert(self.key@.is_prefix_of(self.key@)) by {
                assert(self.key@ =~= self.key@.subrange(0, self.key@.len() as int));
            }
            assert(self.has_key(self.key@) && self.key@.is_prefix_of(self.key@));
        } else {
            Self::lemma_wf_seq(self.children@);
            let c = self.children@[0];
            c.lemma_subtree_has_key();
            let k2 = choose|k2: Seq<u8>| #[trigger] c.has_key(k2) && c.key@.is_prefix_of(k2);
            let v = choose|v: V| c.kv_in(k2, v);
            assert(self.children@[0].kv_in(k2, v));
            Self::lemma_kv_seq(self.children@, k2, v);
            assert(self.kv_in(k2, v));
            lemma_prefix_trans(self.key@, c.key@, k2);
            assert(self.has_key(k2) && self.key@.is_prefix_of(k2));
        }
    }

    /// Below the root, a structural node's key is either itself stored or the
    /// point where two stored keys diverge: no redundant node exists.
    pub(crate) proof fn lemma_nk_branch(self, k: Seq<u8>)
        requires
            self.wf(),
            self.nk_in(k),
            k != self.key@,
        ensures
            self.has_key(k) || exists|k2: Seq<u8>, k3: Seq<u8>|
                #[trigger] self.has_key(k2) && #[trigger] self.has_key(k3) && k.is_prefix_of(k2)
                    && k.is_prefix_of(k3) && k2.len() > k.len() && k3.len() > k.len()
                    && k2[k.len() as int] != k3[k.len() as int],
        decreases self,
    {
        self.lemma_nk_route(k);
        let i = choose|i: int|
            0 <= i < self.children@.len() && (#[trigger] self.children@[i]).nk_in(k) && self.disc(
                i,
            ) == k[self.key@.len() as int];
        Self::lemma_wf_seq(self.children@);
        let c = self.children@[i];
        if k == c.key@ {
            if c.value is Some {
                let v = c.value->0;
                assert(c.kv_in(k, v));
                Self::lemma_kv_seq(self.children@, k, v);
                assert(self.kv_in(k, v));
                assert(self.has_key(k));
            } else {
                // the node at k is valueless, so it branches at least two ways
                Self::lemma_wf_seq(c.children@);
                let c0 = c.children@[0];
                let c1 = c.children@[1];
                c0.lemma_subtree_has_key();
                c1.lemma_subtree_has_key();
                let k2 = choose|k2: Seq<u8>| #[trigger] c0.has_key(k2) && c0.key@.is_prefix_of(k2);
                let k3 = choose|k3: Seq<u8>| #[trigger] c1.has_key(k3) && c1.key@.is_prefix_of(k3);
                let v2 = choose|v2: V| c0.kv_in(k2, v2);
                let v3 = choose|v3: V| c1.kv_in(k3, v3);
                assert(c.children@[0].kv_in(k2, v2));
                assert(c.children@[1].kv_in(k3, v3));
                Node::<V>::lemma_kv_seq(c.children@, k2, v2);
                Node::<V>::lemma_kv_seq(c.children@, k3, v3);
                assert(c.kv_in(k2, v2) && c.kv_in(k3, v3));
                assert(self.children@[i].kv_in(k2, v2));
                assert(self.children@[i].kv_in(k3, v3));
                Self::lemma_kv_seq(self.children@, k2, v2);
                Self::lemma_kv_seq(self.children@, k3, v3);
                assert(self.kv_in(k2, v2) && self.kv_in(k3, v3));
                assert(self.has_key(k2) && self.has_key(k3));
                lemma_prefix_trans(c.key@, c0.key@, k2);
                lemma_prefix_trans(c.key@, c1.key@, k3);
                lemma_prefix_index(c0.key@, k2, k.len() as int);
                lemma_prefix_index(c1.key@, k3, k.len() as int);
                assert(k2[k.len() as int] == c.disc(0) && k3[k.len() as int] == c.disc(1));
                assert(k2.len() >= c0.key@.len() > k.len());
                assert(k3.len() >= c1.key@.len() > k.len());
            }
        } else {
            c.lemma_nk_branch(k);
            if c.has_key(k) {
                let v = choose|v: V| c.kv_in(k, v);
                assert(self.children@[i].kv_in(k, v));
                Self::lemma_kv_seq(self.children@, k, v);
                assert(self.kv_in(k, v));
                assert(self.has_key(k));
            } else {
                let (k2, k3) = choose|k2: Seq<u8>, k3: Seq<u8>|
                    #[trigger] c.has_key(k2) && #[trigger] c.has_key(k3) && k.is_prefix_of(k2)
                        && k.is_prefix_of(k3) && k2.len() > k.len() && k3.len() > k.len()
                        && k2[k.len() as int] != k3[k.len() as int];
                let v2 = choose|v2: V| c.kv_in(k2, v2);
                let v3 = choose|v3: V| c.kv_in(k3, v3);
                assert(self.children@[i].kv_in(k2, v2));
                assert(self.children@[i].kv_in(k3, v3));
                Self::lemma_kv_seq(self.children@, k2, v2);
                Self::lemma_kv_seq(self.children@, k3, v3);
                assert(self.kv_in(k2, v2) && self.kv_in(k3, v3));
                assert(self.has_key(k2) && self.has_key(k3));
            }
        }
    }

    /// The set of keys stored in this subtree.
    pub(crate) open spec fn key_set(self) -> Set<Seq<u8>> {
        Set::new(|k: Seq<u8>| self.has_key(k))
    }

    pub(crate) open spec fn key_set_seq(s: Seq<Node<V>>) -> Set<Seq<u8>> {
        Set::new(|k: Seq<u8>| exists|v: V| Self::kv_in_seq(s, k, v))
    }

    /// In a well-formed subtree the stored keys are finitely many: exactly
    /// `count` of them.
    pub(crate) proof fn lemma_key_set_len(self)
        requires
            self.wf(),
        ensures
            self.key_set().finite(),
            self.key_set().len() == self.count(),
        decreases self,
    {
        Self::lemma_wf_seq(self.children@);
        // sibling subtrees store disjoint key sets
        assert forall|i: int, j: int, k: Seq<u8>|
            0 <= i < self.children@.len() && 0 <= j < self.children@.len() && i != j implies !((
            #[trigger] self.children@[i].has_key(k)) && (#[trigger] self.children@[j].has_key(
            k,
        ))) by {
            if self.children@[i].has_key(k) && self.children@[j].has_key(k) {
                let v1 = choose|v1: V| self.children@[i].kv_in(k, v1);
                let v2 = choose|v2: V| self.children@[j].kv_in(k, v2);
                self.children@[i].lemma_kv_extends(k, v1);
                self.children@[j].lemma_kv_extends(k, v2);
                lemma_prefix_index(self.children@[i].key@, k, self.key@.len() as int);
                lemma_prefix_index(self.children@[j].key@, k, self.key@.len() as int);
                assert(self.disc(i) == self.disc(j));
            }
        }
        Self::lemma_key_set_seq_len(self.children@);
        let own = if self.value is Some {
            Set::<Seq<u8>>::empty().insert(self.key@)
        } else {
            Set::<Seq<u8>>::empty()
        };
        self.lemma_no_child_at_own_key();
        assert forall|k: Seq<u8>|
            self.key_set().contains(k) <==> (own + Self::key_set_seq(self.children@)).contains(
            k,
        ) by {
            if self.has_key(k) {
                let v = choose|v: V| self.kv_in(k, v);
                if !(self.value == Some(v) && k == self.key@) {
                    assert(Self::kv_in_seq(self.children@, k, v));
                    assert(Self::key_set_seq(self.children@).contains(k));
                }
            }
            if own.contains(k) {
                let v = self.value->0;
                assert(self.kv_in(k, v));
            }
            if Self::key_set_seq(self.children@).contains(k) {
                let v = choose|v: V| Self::kv_in_seq(self.children@, k, v);
                assert(self.kv_in(k, v));
            }
        }
        assert(self.key_set() =~= own + Self::key_set_seq(self.children@));
        assert(own.disjoint(Self::key_set_seq(self.children@))) by {
            if self.value is Some && Self::key_set_seq(self.children@).contains(self.key@) {
                let v = choose|v: V| Self::kv_in_seq(self.children@, self.key@, v);
                Self::lemma_kv_seq(self.children@, self.key@, v);
            }
        }
        assert(own.finite() && own.len() == (if self.value is Some {
            1nat
        } else {
            0nat
        }));
        vstd::set_lib::lemma_set_disjoint_lens(own, Self::key_set_seq(self.children@));
    }

    /// The element subtrees of a sequence of pairwise key-disjoint,
    /// well-formed nodes store exactly `count_seq` keys among them.
    pub(crate) proof fn lemma_key_set_seq_len(s: Seq<Node<V>>)
        requires
            Self::wf_seq(s),
            forall|i: int, j: int, k: Seq<u8>|
                0 <= i < s.len() && 0 <= j < s.len() && i != j ==> !((#[trigger] s[i].has_key(k))
                    && (#[trigger] s[j].has_key(k))),
        ensures
            Self::key_set_seq(s).finite(),
            Self::key_set_seq(s).len() == Self::count_seq(s),
        decreases s,
    {
        if s.len() == 0 {
            assert forall|k: Seq<u8>| !Self::key_set_seq(s).contains(k) by {
                if exists|v: V| Self::kv_in_seq(s, k, v) {
                    let v = choose|v: V| Self::kv_in_seq(s, k, v);
                }
            }
            assert(Self::key_set_seq(s) =~= Set::<Seq<u8>>::empty());
        } else {
            let rest = s.drop_first();
            assert forall|i: int, j: int, k: Seq<u8>|
                0 <= i < rest.len() && 0 <= j < rest.len() && i != j implies !((
            #[trigger] rest[i].has_key(k)) && (#[trigger] rest[j].has_key(k))) by {
                assert(rest[i] == s[i + 1] && rest[j] == s[j + 1]);
            }
            Self::lemma_key_set_seq_len(rest);
            s[0].lemma_key_set_len();
            assert forall|k: Seq<u8>|
                Self::key_set_seq(s).contains(k) implies (s[0].key_set().contains(k)
                || Self::key_set_seq(rest).contains(k)) by {
                let v = choose|v: V| Self::kv_in_seq(s, k, v);
                if s[0].kv_in(k, v) {
                    assert(s[0].has_key(k));
                } else {
                    assert(Self::kv_in_seq(rest, k, v));
                }
            }
            assert forall|k: Seq<u8>|
                s[0].key_set().contains(k) || Self::key_set_seq(rest).contains(k) implies
                Self::key_set_seq(s).contains(k) by {
                if s[0].key_set().contains(k) {
                    let v = choose|v: V| s[0].kv_in(k, v);
                    assert(Self::kv_in_seq(s, k, v));
                } else {
                    let v = choose|v: V| Self::kv_in_seq(rest, k, v);
                    assert(Self::kv_in_seq(s, k, v));
                }
            }
            assert(Self::key_set_seq(s) =~= s[0].key_set() + Self::key_set_seq(rest));
            assert(s[0].key_set().disjoint(Self::key_set_seq(rest))) by {
                assert forall|k: Seq<u8>|
                    s[0].key_set().contains(k) implies !Self::key_set_seq(rest).contains(k) by {
                    if Self::key_set_seq(rest).contains(k) {
                        let v = choose|v: V| Self::kv_in_seq(rest, k, v);
                        Self::lemma_kv_seq(rest, k, v);
                        let j = choose|j: int|
                            0 <= j < rest.len() && (#[trigger] rest[j]).kv_in(k, v);
                        assert(rest[j] == s[j + 1]);
                        assert(s[j + 1].has_key(k));
                        assert(s[0].has_key(k));
                    }
                }
            }
            vstd::set_lib::lemma_set_disjoint_lens(s[0].key_set(), Self::key_set_seq(rest));
        }
    }

    /// A well-formed subtree's map has a finite domain of exactly `count`
    /// keys.
    pub(crate) proof fn lemma_count_is_dom_len(self)
        requires
            self.wf(),
        ensures
            self.as_map().dom().finite(),
            self.as_map().dom().len() == self.count(),
    {
        self.lemma_key_set_len();
        assert(self.as_map().dom() =~= self.key_set());
    }

    /// What `as_map` yields where a pair is stored.
    pub(crate) proof fn lemma_map_at(self, k: Seq<u8>, v: V)
        requires
            self.wf(),
            self.kv_in(k, v),
        ensures
            self.as_map().dom().contains(k),
            self.as_map()[k] == v,
    {
        let v0 = choose|v0: V| self.kv_in(k, v0);
        self.lemma_kv_unique(k, v0, v);
    }
}

impl<V> Node<V> {
    pub(crate) proof fn lemma_count_seq_push(s: Seq<Node<V>>, x: Node<V>)
        ensures
            Self::count_seq(s.push(x)) == Self::count_seq(s) + x.count(),
        decreases s,
    {
        if s.len() == 0 {
            assert(s.push(x)[0] == x);
            assert(s.push(x).drop_first() =~= Seq::<Node<V>>::empty());
            assert(Self::count_seq(Seq::<Node<V>>::empty()) == 0);
        } else {
            assert(s.push(x)[0] == s[0]);
            assert(s.push(x).drop_first() =~= s.drop_first().push(x));
            Self::lemma_count_seq_push(s.drop_first(), x);
        }
    }

    pub(crate) proof fn lemma_count_seq_update(s: Seq<Node<V>>, i: int, x: Node<V>)
        requires
            0 <= i < s.len(),
        ensures
            Self::count_seq(s.update(i, x)) + s[i].count() == Self::count_seq(s) + x.count(),
        decreases s,
    {
        if i == 0 {
            assert(s.update(0, x)[0] == x);
            assert(s.update(0, x).drop_first() =~= s.drop_first());
        } else {
            assert(s.update(i, x)[0] == s[0]);
            assert(s.update(i, x).drop_first() =~= s.drop_first().update(i - 1, x));
            Self::lemma_count_seq_update(s.drop_first(), i - 1, x);
        }
    }

    pub(crate) proof fn lemma_count_seq_elem(s: Seq<Node<V>>, i: int)
        requires
            0 <= i < s.len(),
        ensures
            s[i].count() <= Self::count_seq(s),
        decreases s,
    {
        if i > 0 {
            assert(s.drop_first()[i - 1] == s[i]);
            Self::lemma_count_seq_elem(s.drop_first(), i - 1);
        }
    }

    pub(crate) proof fn lemma_count_seq_remove(s: Seq<Node<V>>, i: int)
        requires
            0 <= i < s.len(),
        ensures
            Self::count_seq(s.remove(i)) + s[i].count() == Self::count_seq(s),
        decreases s,
    {
        if i == 0 {
            assert(s.remove(0) =~= s.drop_first());
        } else {
            assert(s.remove(i)[0] == s[0]);
            assert(s.remove(i).drop_first() =~= s.drop_first().remove(i - 1));
            Self::lemma_count_seq_remove(s.drop_first(), i - 1);
        }
    }
}

impl<V> Node<V> {
    /// A node whose pairs are the old pairs with one added reads, as a map,
    /// as the old map with that pair inserted.
    pub(crate) proof fn lemma_map_insert(a: Node<V>, b: Node<V>, key: Seq<u8>, value: V)
        requires
            a.wf(),
            b.wf(),
            forall|k: Seq<u8>, v: V|
                b.kv_in(k, v) <==> (if k == key {
                    v == value
                } else {
                    a.kv_in(k, v)
                }),
        ensures
            b.as_map() == a.as_map().insert(key, value),
    {
        let target = a.as_map().insert(key, value);
        assert(b.kv_in(key, value));
        assert forall|k: Seq<u8>| b.as_map().dom().contains(k) <==> target.dom().contains(k) by {
            if k != key {
                if a.has_key(k) {
                    let v = choose|v: V| a.kv_in(k, v);
                    assert(b.kv_in(k, v));
                }
                if b.has_key(k) {
                    let v = choose|v: V| b.kv_in(k, v);
                    assert(a.kv_in(k, v));
                }
            }
        }
        assert forall|k: Seq<u8>| #[trigger] b.as_map().dom().contains(k) implies b.as_map()[k]
            == target[k] by {
            if k == key {
                b.lemma_map_at(key, value);
            } else {
                let v = choose|v: V| b.kv_in(k, v);
                b.lemma_map_at(k, v);
                assert(a.kv_in(k, v));
                a.lemma_map_at(k, v);
            }
        }
        assert(b.as_map() =~= target);
    }

    /// Nodes storing the same pairs read as the same map.
    pub(crate) proof fn lemma_map_same(a: Node<V>, b: Node<V>)
        requires
            a.wf(),
            b.wf(),
            forall|k: Seq<u8>, v: V| b.kv_in(k, v) <==> a.kv_in(k, v),
        ensures
            b.as_map() == a.as_map(),
    {
        assert forall|k: Seq<u8>| b.as_map().dom().contains(k) <==> a.as_map().dom().contains(
            k,
        ) by {
            if a.has_key(k) {
                let v = choose|v: V| a.kv_in(k, v);
                assert(b.kv_in(k, v));
            }
            if b.has_key(k) {
                let v = choose|v: V| b.kv_in(k, v);
                assert(a.kv_in(k, v));
            }
        }
        assert forall|k: Seq<u8>| #[trigger] b.as_map().dom().contains(k) implies b.as_map()[k]
            == a.as_map()[k] by {
            let v = choose|v: V| b.kv_in(k, v);
            b.lemma_map_at(k, v);
            a.lemma_map_at(k, v);
        }
        assert(b.as_map() =~= a.as_map());
    }

    /// A node whose pairs are the old pairs with one key dropped reads, as a
    /// map, as the old map with that key removed.
    pub(crate) proof fn lemma_map_remove(a: Node<V>, b: Node<V>, key: Seq<u8>)
        requires
            a.wf(),
            b.wf(),
            forall|k: Seq<u8>, v: V| b.kv_in(k, v) <==> (a.kv_in(k, v) && k != key),
        ensures
            b.as_map() == a.as_map().remove(key),
    {
        let target = a.as_map().remove(key);
        assert forall|k: Seq<u8>| b.as_map().dom().contains(k) <==> target.dom().contains(k) by {
            if a.has_key(k) && k != key {
                let v = choose|v: V| a.kv_in(k, v);
                assert(b.kv_in(k, v));
            }
            if b.has_key(k) {
                let v = choose|v: V| b.kv_in(k, v);
                assert(a.kv_in(k, v) && k != key);
            }
        }
        assert forall|k: Seq<u8>| #[trigger] b.as_map().dom().contains(k) implies b.as_map()[k]
            == target[k] by {
            let v = choose|v: V| b.kv_in(k, v);
            b.lemma_map_at(k, v);
            assert(a.kv_in(k, v));
            a.lemma_map_at(k, v);
        }
        assert(b.as_map() =~= target);
    }
}

/// Length of the longest common prefix of two byte strings.
pub(crate) fn lcp_len(a: &[u8], b: &[u8]) -> (r: usize)
    ensures
        r <= a@.len(),
        r <= b@.len(),
        a@.subrange(0, r as int) == b@.subrange(0, r as int),
        r < a@.len() && r < b@.len() ==> a@[r as int] != b@[r as int],
{
    let mut i: usize = 0;
    while i < a.len() && i < b.len() && a[i] == b[i]
        invariant
            i <= a@.len(),
            i <= b@.len(),
            forall|j: int| 0 <= j < i ==> a@[j] == b@[j],
        decreases a@.len() - i,
    {
        i = i + 1;
    }
    proof {
        assert(a@.subrange(0, i as int) =~= b@.subrange(0, i as int));
    }
    i
}

/// The first n bytes of a string, as a fresh vector.
pub(crate) fn copy_front(a: &[u8], n: usize) -> (r: Vec<u8>)
    requires
        n <= a@.len(),
    ensures
        r@ == a@.subrange(0, n as int),
{
    let mut r: Vec<u8> = Vec::new();
    let mut i: usize = 0;
    while i < n
        invariant
            i <= n <= a@.len(),
            r@ =~= a@.subrange(0, i as int),
        decreases n - i,
    {
        r.push(a[i]);
        i = i + 1;
    }
    proof {
        assert(r@ =~= a@.subrange(0, n as int));
    }
    r
}

/// Index of the child filed under the unit d, where every child key is longer
/// than pos units.
pub(crate) fn find_child<V>(children: &Vec<Node<V>>, pos: usize, d: u8) -> (r: Option<usize>)
    requires
        forall|i: int|
            0 <= i < children@.len() ==> (#[trigger] children@[i]).key@.len() > pos,
    ensures
        match r {
            Some(i) => 0 <= i < children@.len() && children@[i as int].key@[pos as int] == d,
            None => forall|i: int|
                0 <= i < children@.len() ==> (#[trigger] children@[i]).key@[pos as int] != d,
        },
{
    let mut i: usize = 0;
    while i < children.len()
        invariant
            i <= children@.len(),
            forall|j: int|
                0 <= j < children@.len() ==> (#[trigger] children@[j]).key@.len() > pos,
            forall|j: int| 0 <= j < i ==> (#[trigger] children@[j]).key@[pos as int] != d,
        decreases children@.len() - i,
    {
        if children[i].key[pos] == d {
            return Some(i);
        }
        i = i + 1;
    }
    None
}

impl<V> Node<V> {
    /// Exact lookup under this node, which must lie on the key's path.
    pub(crate) fn get_node<'a>(&'a self, key: &[u8]) -> (r: Option<&'a V>)
        requires
            self.wf(),
            self.key@.is_prefix_of(key@),
        ensures
            match r {
                Some(v) => self.kv_in(key@, *v),
                None => !self.has_key(key@),
            },
        decreases key@.len() - self.key@.len(),
    {
        if self.key.len() == key.len() {
            proof {
                assert(self.key@ =~= key@);
                self.lemma_no_child_at_own_key();
                if self.value is None && self.has_key(key@) {
                    let v = choose|v: V| self.kv_in(key@, v);
                    Self::lemma_kv_seq(self.children@, key@, v);
                }
            }
            match &self.value {
                Some(v) => Some(v),
                None => None,
            }
        } else {
            let d = key[self.key.len()];
            proof {
                Self::lemma_wf_seq(self.children@);
                if self.has_key(key@) {
                    let v = choose|v: V| self.kv_in(key@, v);
                    self.lemma_kv_route(key@, v);
                    Self::lemma_kv_seq(self.children@, key@, v);
                }
            }
            match find_child(&self.children, self.key.len(), d) {
                None => {
                    proof {
                        if self.has_key(key@) {
                            let v = choose|v: V| self.kv_in(key@, v);
                            self.lemma_kv_route(key@, v);
                        }
                    }
                    None
                },
                Some(i) => {
                    proof {
                        self.lemma_only_child(key@, i as int);
                    }
                    let child = &self.children[i];
                    let l = lcp_len(child.key.as_slice(), key);
                    if l == child.key.len() {
                        proof {
                            assert(child.key@.is_prefix_of(key@));
                        }
                        let r = child.get_node(key);
                        proof {
                            match r {
                                Some(v) => {
                                    Self::lemma_kv_seq(self.children@, key@, *v);
                                    assert(self.children@[i as int].kv_in(key@, *v));
                                },
                                None => {
                                    if self.has_key(key@) {
                                        let v = choose|v: V| self.kv_in(key@, v);
                                        self.lemma_kv_route(key@, v);
                                        let j = choose|j: int|
                                            0 <= j < self.children@.len()
                                                && (#[trigger] self.children@[j]).kv_in(key@, v)
                                                && self.disc(j) == key@[self.key@.len() as int];
                                        assert(j == i);
                                        assert(child.kv_in(key@, v));
                                    }
                                },
                            }
                        }
                        r
                    } else {
                        proof {
                            if self.has_key(key@) {
                                let v = choose|v: V| self.kv_in(key@, v);
                                self.lemma_kv_route(key@, v);
                                let j = choose|j: int|
                                    0 <= j < self.children@.len()
                                        && (#[trigger] self.children@[j]).kv_in(key@, v)
                                        && self.disc(j) == key@[self.key@.len() as int];
                                assert(j == i);
                                child.lemma_kv_extends(key@, v);
                                assert(child.key@[l as int] == key@[l as int]);
                            }
                        }
                        None
                    }
                },
            }
        }
    }
}

impl<V> Node<V> {
    /// Insert below this node, which must lie on the key's path: either the
    /// key names this node, or it descends into (or splits) one child edge.
    pub(crate) fn insert_node(&mut self, key: &[u8], value: V) -> (prev: Option<V>)
        requires
            old(self).wf(),
            old(self).key@.is_prefix_of(key@),
        ensures
            final(self).wf(),
            final(self).key@ == old(self).key@,
            old(self).value is Some ==> final(self).value is Some,
            final(self).children@.len() >= old(self).children@.len(),
            forall|k: Seq<u8>, v: V|
                final(self).kv_in(k, v) <==> (if k == key@ {
                    v == value
                } else {
                    old(self).kv_in(k, v)
                }),
            match prev {
                Some(p) => old(self).kv_in(key@, p),
                None => !old(self).has_key(key@),
            },
            final(self).count() + (if prev is Some {
                1nat
            } else {
                0nat
            }) == old(self).count() + 1,
        decreases key@.len() - old(self).key@.len(),
    {
        if self.key.len() == key.len() {
            proof {
                assert(self.key@ =~= key@);
                self.lemma_no_child_at_own_key();
            }
            let prev = self.value.take();
            self.value = Some(value);
            proof {
                let os = *old(self);
                let ns = *self;
                assert(ns.children@ == os.children@);
                assert(ns.local_ok()) by {
                    assert forall|j: int| 0 <= j < ns.children@.len() implies ns.disc(j) == os.disc(
                        j,
                    ) by {}
                }
                assert(ns.wf());
                assert forall|k: Seq<u8>, v: V|
                    ns.kv_in(k, v) <==> (if k == key@ {
                        v == value
                    } else {
                        os.kv_in(k, v)
                    }) by {
                    if k == key@ {
                        if Self::kv_in_seq(os.children@, k, v) {
                            Self::lemma_kv_seq(os.children@, k, v);
                        }
                    }
                }
                if prev is None && os.has_key(key@) {
                    let v = choose|v: V| os.kv_in(key@, v);
                    Self::lemma_kv_seq(os.children@, key@, v);
                }
            }
            prev
        } else {
            let d = key[self.key.len()];
            match find_child(&self.children, self.key.len(), d) {
                None => {
                    let leaf_key = copy_front(key, key.len());
                    let leaf = Node { key: leaf_key, value: Some(value), children: Vec::new() };
                    proof {
                        assert(leaf.key@ =~= key@);
                        assert(Self::wf_seq(leaf.children@));
                        assert(leaf.wf());
                        assert(Self::count_seq(leaf.children@) == 0);
                        assert(leaf.count() == 1);
                        assert forall|k: Seq<u8>, v: V|
                            leaf.kv_in(k, v) <==> (k == key@ && v == value) by {}
                    }
                    self.children.push(leaf);
                    proof {
                        let os = *old(self);
                        let ns = *self;
                        let cl = os.children@.len() as int;
                        assert(ns.children@ == os.children@.push(leaf));
                        assert(ns.children@[cl] == leaf);
                        assert forall|j: int| 0 <= j < cl implies ns.children@[j]
                            == os.children@[j] by {}
                        // the tree did not hold the key before
                        if os.has_key(key@) {
                            let v = choose|v: V| os.kv_in(key@, v);
                            os.lemma_kv_route(key@, v);
                        }
                        assert(!os.has_key(key@));
                        // well-formedness
                        Self::lemma_wf_seq(os.children@);
                        Self::lemma_wf_seq(ns.children@);
                        assert(ns.disc(cl) == key@[os.key@.len() as int]);
                        assert forall|j: int| 0 <= j < cl implies ns.disc(j) == os.disc(j) && os.disc(
                            j,
                        ) != key@[os.key@.len() as int] by {
                            assert(os.children@[j].key@[os.key@.len() as int] != key@[os.key@.len() as int]);
                        }
                        assert(ns.local_ok());
                        assert(ns.wf());
                        // keyed pairs
                        assert forall|k: Seq<u8>, v: V|
                            ns.kv_in(k, v) <==> (if k == key@ {
                                v == value
                            } else {
                                os.kv_in(k, v)
                            }) by {
                            Self::lemma_kv_seq(ns.children@, k, v);
                            Self::lemma_kv_seq(os.children@, k, v);
                            if ns.kv_in(k, v) && k != key@ && !(os.value == Some(v) && k
                                == os.key@) {
                                let j = choose|j: int|
                                    0 <= j < ns.children@.len() && (#[trigger] ns.children@[j]).kv_in(
                                        k,
                                        v,
                                    );
                                assert(j < cl && os.children@[j].kv_in(k, v));
                            }
                            if k == key@ && v == value {
                                assert(ns.children@[cl].kv_in(k, v));
                            }
                            if k == key@ && ns.kv_in(k, v) && !(ns.children@[cl].kv_in(k, v)) {
                                let j = choose|j: int|
                                    0 <= j < ns.children@.len() && (#[trigger] ns.children@[j]).kv_in(
                                        k,
                                        v,
                                    );
                                assert(os.children@[j].kv_in(k, v));
                                assert(os.kv_in(k, v));
                            }
                        }
                        // count
                        Self::lemma_count_seq_push(os.children@, leaf);
                    }
                    None
                },
                Some(i) => {
                    let l = lcp_len(self.children[i].key.as_slice(), key);
                    let ghost oc = self.children@[i as int];
                    proof {
                        Self::lemma_wf_seq(self.children@);
                        self.lemma_only_child(key@, i as int);
                        // the common prefix reaches past this node's own key
                        assert(l > self.key@.len()) by {
                            if l <= self.key@.len() {
                                assert(oc.key@[l as int] == key@[l as int]) by {
                                    if l < self.key@.len() {
                                        assert(oc.key@[l as int] == self.key@[l as int]);
                                        assert(key@[l as int] == self.key@[l as int]);
                                    }
                                }
                            }
                        }
                    }
                    if l == self.children[i].key.len() {
                        // the child's key is a prefix of the inserted key: descend
                        proof {
                            assert(oc.key@.is_prefix_of(key@));
                        }
                        let slot = vstd::std_specs::vec::vec_index_mut(&mut self.children, i);
                        let prev = slot.insert_node(key, value);
                        proof {
                            let os = *old(self);
                            let ns = *self;
                            let nc = ns.children@[i as int];
                            assert(ns.children@ == os.children@.update(i as int, nc));
                            assert forall|j: int| 0 <= j < os.children@.len() && j != i implies
                                ns.children@[j] == os.children@[j] by {}
                            // well-formedness
                            Self::lemma_wf_seq(os.children@);
                            Self::lemma_wf_seq(ns.children@);
                            assert forall|j: int| 0 <= j < ns.children@.len() implies ns.disc(j)
                                == os.disc(j) by {}
                            assert(ns.local_ok());
                            assert(ns.wf());
                            // keyed pairs
                            assert forall|k: Seq<u8>, v: V|
                                ns.kv_in(k, v) <==> (if k == key@ {
                                    v == value
                                } else {
                                    os.kv_in(k, v)
                                }) by {
                                Self::lemma_kv_seq(ns.children@, k, v);
                                Self::lemma_kv_seq(os.children@, k, v);
                                if k == key@ {
                                    if ns.kv_in(k, v) {
                                        if Self::kv_in_seq(ns.children@, k, v) {
                                            let j = choose|j: int|
                                                0 <= j < ns.children@.len() && (
                                                #[trigger] ns.children@[j]).kv_in(k, v);
                                            assert(j == i);
                                        }
                                    }
                                    if v == value {
                                        assert(nc.kv_in(k, v));
                                    }
                                } else {
                                    if ns.kv_in(k, v) && !(ns.value == Some(v) && k == ns.key@) {
                                        let j = choose|j: int|
                                            0 <= j < ns.children@.len() && (
                                            #[trigger] ns.children@[j]).kv_in(k, v);
                                        if j == i {
                                            assert(oc.kv_in(k, v));
                                        }
                                        assert(os.children@[j].kv_in(k, v));
                                    }
                                    if os.kv_in(k, v) && !(os.value == Some(v) && k == os.key@) {
                                        let j = choose|j: int|
                                            0 <= j < os.children@.len() && (
                                            #[trigger] os.children@[j]).kv_in(k, v);
                                        if j == i {
                                            assert(nc.kv_in(k, v));
                                        }
                                        assert(ns.children@[j].kv_in(k, v));
                                    }
                                }
                            }
                            // previous value
                            match &prev {
                                Some(p) => {
                                    assert(oc.kv_in(key@, *p));
                                    Self::lemma_kv_seq(os.children@, key@, *p);
                                },
                                None => {
                                    if os.has_key(key@) {
                                        let v = choose|v: V| os.kv_in(key@, v);
                                        os.lemma_kv_route(key@, v);
                                        let j = choose|j: int|
                                            0 <= j < os.children@.len() && (
                                            #[trigger] os.children@[j]).kv_in(key@, v)
                                                && os.disc(j) == key@[os.key@.len() as int];
                                        assert(j == i);
                                        assert(oc.has_key(key@));
                                    }
                                },
                            }
                            // count
                            Self::lemma_count_seq_update(os.children@, i as int, nc);
                        }
                        prev
                    } else {
                        // genuine divergence inside the child's edge: split it
                        let branch_key = copy_front(key, l);
                        let full = l == key.len();
                        let mut carved = Node { key: branch_key, value: None, children: Vec::new() };
                        let slot = vstd::std_specs::vec::vec_index_mut(&mut self.children, i);
                        core::mem::swap(slot, &mut carved);
                        slot.children.push(carved);
                        if full {
                            slot.value = Some(value);
                        } else {
                            let leaf_key = copy_front(key, key.len());
                            slot.children.push(
                                Node { key: leaf_key, value: Some(value), children: Vec::new() },
                            );
                        }
                        proof {
                            let os = *old(self);
                            let ns = *self;
                            let b = ns.children@[i as int];
                            assert(ns.children@ == os.children@.update(i as int, b));
                            assert forall|j: int| 0 <= j < os.children@.len() && j != i implies
                                ns.children@[j] == os.children@[j] by {}
                            assert(b.key@ == key@.subrange(0, l as int));
                            assert(oc.key@.subrange(0, l as int) == key@.subrange(0, l as int));
                            assert(b.children@[0] == oc);
                            // the old child's subtree cannot hold the inserted key
                            assert forall|v: V| !oc.kv_in(key@, v) by {
                                if oc.kv_in(key@, v) {
                                    oc.lemma_kv_extends(key@, v);
                                    assert(oc.key@[l as int] == key@[l as int]);
                                }
                            }
                            // nor could the whole node
                            if os.has_key(key@) {
                                let v = choose|v: V| os.kv_in(key@, v);
                                os.lemma_kv_route(key@, v);
                                let j = choose|j: int|
                                    0 <= j < os.children@.len() && (#[trigger] os.children@[j]).kv_in(
                                        key@,
                                        v,
                                    ) && os.disc(j) == key@[os.key@.len() as int];
                                assert(j == i);
                            }
                            assert(!os.has_key(key@));
                            // the branch node is well-formed and holds exactly the
                            // old child's pairs plus the inserted one
                            if full {
                                assert(b.key@ =~= key@);
                                assert(b.children@.len() == 1);
                                assert(b.children@.drop_first() =~= Seq::<Node<V>>::empty());
                                assert(b.local_ok()) by {
                                    assert(b.key@.is_prefix_of(oc.key@)) by {
                                        assert(b.key@ =~= oc.key@.subrange(0, l as int));
                                    }
                                }
                                Self::lemma_wf_seq(b.children@);
                                assert(b.wf());
                                assert(Self::count_seq(Seq::<Node<V>>::empty()) == 0);
                                assert(Self::count_seq(b.children@) == oc.count());
                                assert(b.count() == 1 + oc.count());
                            } else {
                                let leaf = b.children@[1];
                                assert(leaf.key@ =~= key@);
                                assert(Self::wf_seq(leaf.children@));
                                assert(leaf.wf());
                                assert(leaf.count() == 1);
                                assert forall|k: Seq<u8>, v: V|
                                    leaf.kv_in(k, v) <==> (k == key@ && v == value) by {}
                                assert(b.children@.len() == 2);
                                assert(b.local_ok()) by {
                                    assert(b.key@.is_prefix_of(oc.key@)) by {
                                        assert(b.key@ =~= oc.key@.subrange(0, l as int));
                                    }
                                    assert(b.key@.is_prefix_of(leaf.key@)) by {
                                        assert(b.key@ =~= leaf.key@.subrange(0, l as int));
                                    }
                                    assert(oc.key@[l as int] != leaf.key@[l as int]);
                                }
                                Self::lemma_wf_seq(b.children@);
                                assert(b.wf());
                                assert(b.children@.drop_first() =~= seq![leaf]);
                                assert(seq![leaf].drop_first() =~= Seq::<Node<V>>::empty());
                                assert(Self::count_seq(Seq::<Node<V>>::empty()) == 0);
                                assert(seq![leaf][0] == leaf);
                                assert(Self::count_seq(seq![leaf]) == leaf.count());
                                assert(Self::count_seq(b.children@) == oc.count() + 1);
                                assert(b.count() == oc.count() + 1);
                            }
                            assert forall|k: Seq<u8>, v: V|
                                b.kv_in(k, v) <==> ((k == key@ && v == value) || oc.kv_in(k, v)) by {
                                Self::lemma_kv_seq(b.children@, k, v);
                                if b.kv_in(k, v) && !(b.value == Some(v) && k == b.key@) {
                                    let j = choose|j: int|
                                        0 <= j < b.children@.len() && (#[trigger] b.children@[j]).kv_in(
                                            k,
                                            v,
                                        );
                                }
                                if k == key@ && v == value && !full {
                                    assert(b.children@[1].kv_in(k, v));
                                }
                                if oc.kv_in(k, v) {
                                    assert(b.children@[0].kv_in(k, v));
                                }
                            }
                            // the node keeps its other children untouched
                            Self::lemma_wf_seq(os.children@);
                            Self::lemma_wf_seq(ns.children@);
                            assert(ns.local_ok()) by {
                                assert(ns.key@.is_prefix_of(b.key@)) by {
                                    assert(ns.key@ =~= b.key@.subrange(0, ns.key@.len() as int));
                                }
                                assert(b.key@[ns.key@.len() as int] == key@[ns.key@.len() as int]);
                                assert forall|j: int| 0 <= j < ns.children@.len() implies ns.disc(j)
                                    == os.disc(j) by {}
                            }
                            assert(ns.wf());
                            assert forall|k: Seq<u8>, v: V|
                                ns.kv_in(k, v) <==> (if k == key@ {
                                    v == value
                                } else {
                                    os.kv_in(k, v)
                                }) by {
                                Self::lemma_kv_seq(ns.children@, k, v);
                                Self::lemma_kv_seq(os.children@, k, v);
                                if ns.kv_in(k, v) && !(ns.value == Some(v) && k == ns.key@) {
                                    let j = choose|j: int|
                                        0 <= j < ns.children@.len() && (#[trigger] ns.children@[j]).kv_in(
                                            k,
                                            v,
                                        );
                                    if j == i {
                                        assert(b.kv_in(k, v));
                                    } else {
                                        assert(os.children@[j].kv_in(k, v));
                                        if k == key@ {
                                            assert(false);
                                        }
                                    }
                                }
                                if k == key@ && v == value {
                                    assert(b.kv_in(k, v));
                                    assert(ns.children@[i as int].kv_in(k, v));
                                }
                                if k != key@ && os.kv_in(k, v) && !(os.value == Some(v) && k
                                    == os.key@) {
                                    let j = choose|j: int|
                                        0 <= j < os.children@.len() && (#[trigger] os.children@[j]).kv_in(
                                            k,
                                            v,
                                        );
                                    if j == i {
                                        assert(b.kv_in(k, v));
                                        assert(ns.children@[i as int].kv_in(k, v));
                                    } else {
                                        assert(ns.children@[j].kv_in(k, v));
                                    }
                                }
                            }
                            // count
                            Self::lemma_count_seq_update(os.children@, i as int, b);
                        }
                        None
                    }
                },
            }
        }
    }
}

impl<V> Node<V> {
    /// Recursively decide whether this subtree is well-formed.
    pub(crate) fn check_node(&self) -> (r: bool)
        ensures
            r == self.wf(),
        decreases *self,
    {
        let plen = self.key.len();
        let n = self.children.len();
        let mut i: usize = 0;
        while i < n
            invariant
                i <= n,
                n == self.children@.len(),
                plen == self.key@.len(),
                forall|j: int| 0 <= j < i ==> (#[trigger] self.children@[j]).wf(),
                forall|j: int| 0 <= j < i ==> (#[trigger] self.children@[j]).branch_ok(),
                forall|j: int|
                    0 <= j < i ==> (#[trigger] self.children@[j]).key@.len() > plen
                        && self.key@.is_prefix_of(self.children@[j].key@),
            decreases n - i,
        {
            let child = &self.children[i];
            if child.key.len() <= plen {
                proof {
                    assert(!self.local_ok());
                }
                return false;
            }
            let l = lcp_len(self.key.as_slice(), child.key.as_slice());
            if l != plen {
                proof {
                    if self.wf() {
                        assert(self.key@.is_prefix_of(child.key@));
                        assert(l < plen);
                        assert(self.key@[l as int] == child.key@[l as int]);
                    }
                }
                return false;
            }
            if child.value.is_none() && child.children.len() < 2 {
                proof {
                    assert(!child.branch_ok());
                    assert(!self.local_ok());
                }
                return false;
            }
            if !child.check_node() {
                proof {
                    if self.wf() {
                        Self::lemma_wf_seq(self.children@);
                    }
                }
                return false;
            }
            proof {
                assert(self.key@ =~= child.key@.subrange(0, plen as int));
            }
            i = i + 1;
        }
        let mut a: usize = 0;
        while a < n
            invariant
                a <= n,
                n == self.children@.len(),
                plen == self.key@.len(),
                forall|j: int| 0 <= j < n ==> (#[trigger] self.children@[j]).wf(),
                forall|j: int| 0 <= j < n ==> (#[trigger] self.children@[j]).branch_ok(),
                forall|j: int|
                    0 <= j < n ==> (#[trigger] self.children@[j]).key@.len() > plen
                        && self.key@.is_prefix_of(self.children@[j].key@),
                forall|j1: int, j2: int|
                    0 <= j1 < a && j1 < j2 < n ==> self.disc(j1) != self.disc(j2),
            decreases n - a,
        {
            let mut b: usize = a + 1;
            while b < n
                invariant
                    a < b <= n,
                    a < n,
                    n == self.children@.len(),
                    plen == self.key@.len(),
                    forall|j: int|
                        0 <= j < n ==> (#[trigger] self.children@[j]).key@.len() > plen,
                    forall|j2: int| a < j2 < b ==> self.disc(a as int) != self.disc(j2),
                decreases n - b,
            {
                if self.children[a].key[plen] == self.children[b].key[plen] {
                    proof {
                        assert(self.disc(a as int) == self.disc(b as int));
                        assert(!self.local_ok());
                    }
                    return false;
                }
                b = b + 1;
            }
            a = a + 1;
        }
        proof {
            Self::lemma_wf_seq(self.children@);
            assert forall|j1: int, j2: int|
                0 <= j1 < n && 0 <= j2 < n && j1 != j2 implies self.disc(j1) != self.disc(j2) by {
                if j1 > j2 {
                    assert(self.disc(j2) != self.disc(j1));
                }
            }
            assert(self.local_ok());
            assert(self.wf());
        }
        true
    }

    /// Count the valued nodes of this subtree, giving up once the count would
    /// pass the budget.
    pub(crate) fn count_within(&self, budget: usize) -> (r: Option<usize>)
        ensures
            match r {
                Some(c) => c as nat == self.count() && c <= budget,
                None => self.count() > budget,
            },
        decreases *self,
    {
        let mut acc: usize = 0;
        if self.value.is_some() {
            if budget == 0 {
                return None;
            }
            acc = 1;
        }
        let n = self.children.len();
        let mut i: usize = 0;
        proof {
            assert(self.children@.skip(0) =~= self.children@);
        }
        while i < n
            invariant
                i <= n,
                n == self.children@.len(),
                acc <= budget,
                self.count() == acc + Self::count_seq(self.children@.skip(i as int)),
            decreases n - i,
        {
            proof {
                assert(self.children@.skip(i as int)[0] == self.children@[i as int]);
                assert(self.children@.skip(i as int).drop_first() =~= self.children@.skip(
                    i as int + 1,
                ));
            }
            match self.children[i].count_within(budget - acc) {
                None => {
                    return None;
                },
                Some(c) => {
                    acc = acc + c;
                },
            }
            i = i + 1;
        }
        proof {
            assert(self.children@.skip(n as int) =~= Seq::<Node<V>>::empty());
            assert(Self::count_seq(Seq::<Node<V>>::empty()) == 0);
        }
        Some(acc)
    }
}

impl<V> Node<V> {
    /// Remove below this node, which must lie on the key's path. The node
    /// itself may be left redundant (valueless, fewer than two children): the
    /// caller repairs that, just as `remove_node` repairs its own children.
    pub(crate) fn remove_node(&mut self, key: &[u8]) -> (prev: Option<V>)
        requires
            old(self).wf(),
            old(self).key@.is_prefix_of(key@),
        ensures
            final(self).wf(),
            final(self).key@ == old(self).key@,
            final(self).value is Some ==> old(self).value is Some,
            forall|k: Seq<u8>, v: V|
                final(self).kv_in(k, v) <==> (old(self).kv_in(k, v) && k != key@),
            match prev {
                Some(p) => old(self).kv_in(key@, p),
                None => !old(self).has_key(key@),
            },
            final(self).count() + (if prev is Some {
                1nat
            } else {
                0nat
            }) == old(self).count(),
        decreases key@.len() - old(self).key@.len(),
    {
        if self.key.len() == key.len() {
            proof {
                assert(self.key@ =~= key@);
                self.lemma_no_child_at_own_key();
            }
            let prev = self.value.take();
            proof {
                let os = *old(self);
                let ns = *self;
                assert(ns.children@ == os.children@);
                assert(ns.local_ok()) by {
                    assert forall|j: int| 0 <= j < ns.children@.len() implies ns.disc(j) == os.disc(
                        j,
                    ) by {}
                }
                assert(ns.wf());
                assert forall|k: Seq<u8>, v: V|
                    ns.kv_in(k, v) <==> (os.kv_in(k, v) && k != key@) by {
                    if k == key@ {
                        if Self::kv_in_seq(os.children@, k, v) {
                            Self::lemma_kv_seq(os.children@, k, v);
                        }
                    }
                }
                if prev is None && os.has_key(key@) {
                    let v = choose|v: V| os.kv_in(key@, v);
                    Self::lemma_kv_seq(os.children@, key@, v);
                }
            }
            prev
        } else {
            let d = key[self.key.len()];
            match find_child(&self.children, self.key.len(), d) {
                None => {
                    proof {
                        if self.has_key(key@) {
                            let v = choose|v: V| self.kv_in(key@, v);
                            self.lemma_kv_route(key@, v);
                        }
                        assert(!self.has_key(key@));
                        assert forall|k: Seq<u8>, v: V|
                            self.kv_in(k, v) <==> (self.kv_in(k, v) && k != key@) by {
                            if k == key@ && self.kv_in(k, v) {
                                assert(self.has_key(k));
                            }
                        }
                    }
                    None
                },
                Some(i) => {
                    let l = lcp_len(self.children[i].key.as_slice(), key);
                    let ghost oc = self.children@[i as int];
                    proof {
                        Self::lemma_wf_seq(self.children@);
                        self.lemma_only_child(key@, i as int);
                    }
                    if l != self.children[i].key.len() {
                        // the key diverges inside the child's edge: not stored
                        proof {
                            if self.has_key(key@) {
                                let v = choose|v: V| self.kv_in(key@, v);
                                self.lemma_kv_route(key@, v);
                                let j = choose|j: int|
                                    0 <= j < self.children@.len() && (#[trigger] self.children@[j]).kv_in(
                                        key@,
                                        v,
                                    ) && self.disc(j) == key@[self.key@.len() as int];
                                assert(j == i);
                                oc.lemma_kv_extends(key@, v);
                                assert(oc.key@.len() <= key@.len());
                                assert(oc.key@[l as int] == key@[l as int]);
                            }
                            assert(!self.has_key(key@));
                            assert forall|k: Seq<u8>, v: V|
                                self.kv_in(k, v) <==> (self.kv_in(k, v) && k != key@) by {
                                if k == key@ && self.kv_in(k, v) {
                                    assert(self.has_key(k));
                                }
                            }
                        }
                        None
                    } else {
                        proof {
                            assert(oc.key@.is_prefix_of(key@));
                        }
                        let slot = vstd::std_specs::vec::vec_index_mut(&mut self.children, i);
                        let prev = slot.remove_node(key);
                        let ghost os = *old(self);
                        let ghost ms = *self;
                        let ghost mc = ms.children@[i as int];
                        proof {
                            assert(ms.children@ == os.children@.update(i as int, mc));
                            assert forall|j: int| 0 <= j < os.children@.len() && j != i implies
                                ms.children@[j] == os.children@[j] by {}
                            Self::lemma_wf_seq(ms.children@);
                            // the mid state holds the old pairs minus the key
                            assert forall|k: Seq<u8>, v: V|
                                ms.kv_in(k, v) <==> (os.kv_in(k, v) && k != key@) by {
                                Self::lemma_kv_seq(ms.children@, k, v);
                                Self::lemma_kv_seq(os.children@, k, v);
                                if ms.kv_in(k, v) && !(ms.value == Some(v) && k == ms.key@) {
                                    let j = choose|j: int|
                                        0 <= j < ms.children@.len() && (#[trigger] ms.children@[j]).kv_in(
                                            k,
                                            v,
                                        );
                                    if j == i {
                                        assert(oc.kv_in(k, v) && k != key@);
                                    }
                                    assert(os.children@[j].kv_in(k, v));
                                }
                                if os.kv_in(k, v) && k != key@ && !(os.value == Some(v) && k
                                    == os.key@) {
                                    let j = choose|j: int|
                                        0 <= j < os.children@.len() && (#[trigger] os.children@[j]).kv_in(
                                            k,
                                            v,
                                        );
                                    if j == i {
                                        assert(mc.kv_in(k, v));
                                    }
                                    assert(ms.children@[j].kv_in(k, v));
                                }
                                if k == key@ && ms.kv_in(k, v) && !(ms.value == Some(v) && k
                                    == ms.key@) {
                                    let j = choose|j: int|
                                        0 <= j < ms.children@.len() && (#[trigger] ms.children@[j]).kv_in(
                                            k,
                                            v,
                                        );
                                    assert(j == i);
                                    assert(mc.kv_in(k, v));
                                }
                            }
                            // the previous value was the old stored value
                            match &prev {
                                Some(p) => {
                                    assert(oc.kv_in(key@, *p));
                                    Self::lemma_kv_seq(os.children@, key@, *p);
                                },
                                None => {
                                    if os.has_key(key@) {
                                        let v = choose|v: V| os.kv_in(key@, v);
                                        os.lemma_kv_route(key@, v);
                                        let j = choose|j: int|
                                            0 <= j < os.children@.len() && (
                                            #[trigger] os.children@[j]).kv_in(key@, v) && os.disc(
                                                j,
                                            ) == key@[os.key@.len() as int];
                                        assert(j == i);
                                        assert(oc.has_key(key@));
                                    }
                                },
                            }
                            // counts
                            Self::lemma_count_seq_update(os.children@, i as int, mc);
                            // discriminants are untouched
                            assert forall|j: int| 0 <= j < ms.children@.len() implies ms.disc(j)
                                == os.disc(j) by {}
                        }
                        // repair the child if the removal left it redundant
                        if self.children[i].value.is_none() {
                            let clen = self.children[i].children.len();
                            if clen == 0 {
                                // childless and valueless: detach it
                                let _detached = self.children.remove(i);
                                proof {
                                    let ns = *self;
                                    assert(ns.children@ == ms.children@.remove(i as int));
                                    assert forall|v: V, k: Seq<u8>| !mc.kv_in(k, v) by {}
                                    assert(mc.count() == 0);
                                    Self::lemma_count_seq_remove(ms.children@, i as int);
                                    Self::lemma_wf_seq(ns.children@);
                                    assert(ns.local_ok()) by {
                                        assert forall|j: int|
                                            0 <= j < ns.children@.len() implies ns.children@[j]
                                            == (if j < i {
                                            ms.children@[j]
                                        } else {
                                            ms.children@[j + 1]
                                        }) && ns.disc(j) == (if j < i {
                                            ms.disc(j)
                                        } else {
                                            ms.disc(j + 1)
                                        }) by {}
                                    }
                                    assert(ns.wf());
                                    assert forall|k: Seq<u8>, v: V|
                                        ns.kv_in(k, v) <==> ms.kv_in(k, v) by {
                                        Self::lemma_kv_seq(ns.children@, k, v);
                                        Self::lemma_kv_seq(ms.children@, k, v);
                                        if Self::kv_in_seq(ns.children@, k, v) {
                                            let j = choose|j: int|
                                                0 <= j < ns.children@.len() && (
                                                #[trigger] ns.children@[j]).kv_in(k, v);
                                            if j < i {
                                                assert(ms.children@[j].kv_in(k, v));
                                            } else {
                                                assert(ms.children@[j + 1].kv_in(k, v));
                                            }
                                        }
                                        if Self::kv_in_seq(ms.children@, k, v) {
                                            let j = choose|j: int|
                                                0 <= j < ms.children@.len() && (
                                                #[trigger] ms.children@[j]).kv_in(k, v);
                                            assert(j != i);
                                            if j < i {
                                                assert(ns.children@[j].kv_in(k, v));
                                            } else {
                                                assert(ns.children@[j - 1] == ms.children@[j]);
                                                assert(ns.children@[j - 1].kv_in(k, v));
                                            }
                                        }
                                    }
                                }
                            } else if clen == 1 {
                                // valueless with a single child: splice it out
                                let slot2 = vstd::std_specs::vec::vec_index_mut(
                                    &mut self.children,
                                    i,
                                );
                                let g = slot2.children.pop().unwrap();
                                *slot2 = g;
                                proof {
                                    let ns = *self;
                                    let gn = ns.children@[i as int];
                                    assert(ns.children@ == ms.children@.update(i as int, gn));
                                    assert(gn == mc.children@[0]);
                                    assert(mc.local_ok());
                                    Self::lemma_wf_seq(mc.children@);
                                    assert(gn.wf() && gn.branch_ok());
                                    assert(mc.key@.is_prefix_of(gn.key@));
                                    lemma_prefix_trans(ms.key@, mc.key@, gn.key@);
                                    // the spliced child answers for the same pairs
                                    assert(mc.children@.drop_first() =~= Seq::<Node<V>>::empty());
                                    assert forall|k: Seq<u8>, v: V|
                                        mc.kv_in(k, v) <==> gn.kv_in(k, v) by {
                                        Self::lemma_kv_seq(mc.children@, k, v);
                                        if gn.kv_in(k, v) {
                                            assert(mc.children@[0].kv_in(k, v));
                                        }
                                    }
                                    assert(Self::count_seq(Seq::<Node<V>>::empty()) == 0);
                                    assert(Self::count_seq(mc.children@) == gn.count());
                                    assert(mc.count() == gn.count());
                                    Self::lemma_count_seq_update(ms.children@, i as int, gn);
                                    assert forall|j: int|
                                        0 <= j < ns.children@.len() && j != i implies ns.children@[j]
                                        == ms.children@[j] by {}
                                    Self::lemma_wf_seq(ns.children@);
                                    assert(ns.local_ok()) by {
                                        assert(gn.key@[ns.key@.len() as int] == mc.key@[ns.key@.len() as int]);
                                        assert forall|j: int|
                                            0 <= j < ns.children@.len() implies ns.disc(j)
                                            == ms.disc(j) by {}
                                    }
                                    assert(ns.wf());
                                    assert forall|k: Seq<u8>, v: V|
                                        ns.kv_in(k, v) <==> ms.kv_in(k, v) by {
                                        Self::lemma_kv_seq(ns.children@, k, v);
                                        Self::lemma_kv_seq(ms.children@, k, v);
                                        if Self::kv_in_seq(ns.children@, k, v) {
                                            let j = choose|j: int|
                                                0 <= j < ns.children@.len() && (
                                                #[trigger] ns.children@[j]).kv_in(k, v);
                                            if j == i {
                                                assert(mc.kv_in(k, v));
                                            }
                                            assert(ms.children@[j].kv_in(k, v));
                                        }
                                        if Self::kv_in_seq(ms.children@, k, v) {
                                            let j = choose|j: int|
                                                0 <= j < ms.children@.len() && (
                                                #[trigger] ms.children@[j]).kv_in(k, v);
                                            if j == i {
                                                assert(gn.kv_in(k, v));
                                            }
                                            assert(ns.children@[j].kv_in(k, v));
                                        }
                                    }
                                }
                            } else {
                                proof {
                                    assert(mc.branch_ok());
                                    assert(self.local_ok());
                                    assert(self.wf());
                                }
                            }
                        } else {
                            proof {
                                assert(mc.branch_ok());
                                assert(self.local_ok());
                                assert(self.wf());
                            }
                        }
                        prev
                    }
                },
            }
        }
    }
}

} // verus!
