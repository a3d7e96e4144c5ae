use std::collections::HashSet;

use radix_trie::Trie;

const TEST_DATA: [(&'static str, u32); 7] = [
    ("abcdefgh", 19),
    ("abcdef", 18),
    ("abcd", 17),
    ("ab", 16),
    ("a", 15),
    ("acbdef", 30),
    ("bcdefgh", 29),
];

fn test_trie() -> Trie<u32> {
    let mut trie = Trie::new();

    for &(key, val) in &TEST_DATA {
        trie.insert(key.as_bytes(), val);
        assert!(trie.check_integrity());
    }

    trie
}

#[test]
fn get_nonexistant() {
    let trie = test_trie();
    assert!(trie.get("nonexistant".as_bytes()).is_none());
    assert!(trie.get("".as_bytes()).is_none());
}

#[test]
fn subtrie_nonexistant() {
    let trie = test_trie();
    assert!(trie.subtrie("nonexistant".as_bytes()).is_none());
    assert!(trie.subtrie("".as_bytes()).is_some());
}

#[test]
fn subtrie() {
    let mut trie = Trie::new();
    trie.insert("hello".as_bytes(), 55);
    assert!(trie.subtrie("h".as_bytes()).is_none());
    assert!(trie.subtrie("hello".as_bytes()).is_some());
}

#[test]
fn subtrie_string() {
    let mut trie = Trie::new();
    trie.insert("hello".to_string().as_bytes(), 55);

    let h = "h".to_string();
    let hello = "hello".to_string();

    assert!(trie.subtrie(h.as_bytes()).is_none());
    assert!(trie.subtrie(hello.as_bytes()).is_some());
}

#[test]
fn empty_key() {
    let mut trie = test_trie();
    trie.insert("".as_bytes(), 99);
    assert_eq!(*trie.get("".as_bytes()).unwrap(), 99);
    assert_eq!(trie.remove("".as_bytes()), Some(99));
}

#[test]
fn insert() {
    let trie = test_trie();

    for &(key, val) in &TEST_DATA {
        assert_eq!(*trie.get(key.as_bytes()).unwrap(), val);
    }

    assert!(trie.check_integrity());
    assert_eq!(trie.len(), TEST_DATA.len());
}

#[test]
fn insert_replace() {
    let mut trie = Trie::new();
    assert_eq!(trie.insert("haskell".as_bytes(), 18), None);
    let length = trie.len();
    assert_eq!(trie.insert("haskell".as_bytes(), 36), Some(18));
    assert_eq!(trie.len(), length);
}

#[test]
fn map_with_default() {
    let mut trie = test_trie();
    trie.map_with_default("abcd".as_bytes(), |x: u32| x + 1, 42);
    assert_eq!(*trie.get("abcd".as_bytes()).unwrap(), 17 + 1);
    trie.map_with_default("zzz".as_bytes(), |x: u32| x + 1, 42);
    assert_eq!(*trie.get("zzz".as_bytes()).unwrap(), 42);
}

#[test]
fn remove() {
    let mut trie = test_trie();

    // Remove.
    for &(key, val) in &TEST_DATA {
        let res = trie.remove(key.as_bytes());
        assert_eq!(res, Some(val));
        assert!(trie.check_integrity());
    }

    // Check non-existance.
    for &(key, _) in &TEST_DATA {
        assert!(trie.get(key.as_bytes()).is_none());
    }
}

#[test]
fn remove_simple() {
    let mut trie = Trie::new();

    trie.insert("HELL".as_bytes(), 66);
    trie.insert("HELLO".as_bytes(), 77);
    let val = trie.remove("HELLO".as_bytes());
    assert_eq!(val, Some(77));
}

#[test]
fn nearest_ancestor_root() {
    let mut trie = Trie::new();
    trie.insert("".as_bytes(), 55);
    assert_eq!(trie.get_ancestor_value("".as_bytes()), Some(&55));
}

#[test]
fn nearest_ancestor() {
    let trie = test_trie();
    assert_eq!(trie.get_ancestor_value("".as_bytes()), None);

    // Test identity prefixes.
    for &(key, val) in &TEST_DATA {
        assert_eq!(trie.get_ancestor_value(key.as_bytes()), Some(&val));
    }

    assert_eq!(
        trie.get_ancestor_value("abcdefg".as_bytes()),
        trie.get("abcdef".as_bytes())
    );
    assert_eq!(
        trie.get_ancestor_value("abcde".as_bytes()),
        trie.get("abcd".as_bytes())
    );
    assert_eq!(
        trie.get_ancestor_value("aauksdjk".as_bytes()),
        trie.get("a".as_bytes())
    );
}

#[test]
fn nearest_ancestor_no_child_fn() {
    let mut t = Trie::new();
    t.insert("ab".as_bytes(), 5);
    let anc = t.get_ancestor("abc".as_bytes()).unwrap();
    assert_eq!(*anc.value().unwrap(), 5);
}

#[test]
fn raw_ancestor() {
    let mut t: Trie<u32> = Trie::new();

    for &(key, _) in &TEST_DATA {
        assert_eq!(t.get_raw_ancestor(key.as_bytes()).key(), t.key());
    }

    t.insert("wow".as_bytes(), 0);
    t.insert("hella".as_bytes(), 1);
    t.insert("hellb".as_bytes(), 2);

    // Ancestor should be the "hell" node.
    let anc = t.get_raw_ancestor("hello".as_bytes());
    assert_eq!(anc.len(), 2);
}

#[test]
fn iter() {
    type Set = HashSet<(Vec<u8>, u32)>;
    let trie = test_trie();
    let expected = TEST_DATA
        .iter()
        .map(|&(k, v)| (k.as_bytes().to_vec(), v))
        .collect::<Set>();
    let observed = trie.iter().into_iter().map(|(k, v)| (k, *v)).collect::<Set>();
    assert_eq!(expected, observed);
}

#[test]
fn get_raw_descendant() {
    let trie = test_trie();
    assert_eq!(
        trie.get_raw_descendant("abcdefgh".as_bytes()).and_then(|t| t.value()),
        Some(&19)
    );
    assert_eq!(
        trie.get_raw_descendant("abcdefg".as_bytes()).and_then(|t| t.value()),
        Some(&19)
    );
    assert!(trie.get_raw_descendant("acbg".as_bytes()).is_none());
}

#[test]
fn get_prefix_bug() {
    let mut trie = Trie::new();
    trie.insert("abdc".as_bytes(), 5);
    trie.insert("abde".as_bytes(), 6);
    assert!(trie.get("abc".as_bytes()).is_none());
}

#[test]
fn get_ancestor_bug() {
    let mut trie = Trie::new();
    trie.insert("abc".as_bytes(), 1);
    trie.insert("abcde".as_bytes(), 2);
    assert_eq!(trie.get_ancestor_value("abcdz".as_bytes()), Some(&1));
}

#[test]
fn root_replace_bug() {
    let mut trie = Trie::new();
    trie.insert("a".as_bytes(), ());
    trie.insert("p".as_bytes(), ());
    trie.remove("a".as_bytes());
    assert_eq!(trie.len(), 1);
    trie.remove("p".as_bytes());
    assert_eq!(trie.len(), 0);
}

#[test]
fn subtrie_insert() {
    let mut trie = Trie::new();
    trie.insert("abc".as_bytes(), 3);
    {
        let mut subtrie = trie.subtrie_mut("abc".as_bytes()).unwrap();
        assert_eq!(subtrie.insert("somerandomshit".as_bytes(), 666), Err(()));
        assert_eq!(subtrie.insert("abcdef".as_bytes(), 6), Ok(None));
        assert_eq!(subtrie.insert("abc".as_bytes(), 9), Ok(Some(3)));
    }
    assert_eq!(trie.get("abc".as_bytes()), Some(&9));
    assert_eq!(trie.get("abcdef".as_bytes()), Some(&6));
    assert_eq!(trie.len(), 2);
}

#[test]
fn subtrie_len() {
    let trie = test_trie();
    assert_eq!(trie.subtrie("ab".as_bytes()).unwrap().len(), 4);
    assert_eq!(trie.subtrie("a".as_bytes()).unwrap().len(), 6);
    assert_eq!(trie.subtrie("".as_bytes()).unwrap().len(), trie.len());
    assert_eq!(trie.subtrie("bcdefgh".as_bytes()).unwrap().len(), 1);
}

// Subtrie functions that return references should return references valid for
// the lifetime of the *original trie* from which they were borrowed, NOT
// just the lifetime of the subtrie (which may be shorter).
#[test]
fn subtrie_lifetime() {
    let trie = test_trie();
    let subtrie_value = {
        let subtrie = trie.subtrie("ab".as_bytes()).unwrap();
        subtrie.value()
    };
    assert_eq!(*subtrie_value.unwrap(), 16);
}

#[test]
fn subtrie_mut_lifetime() {
    let mut trie = test_trie();
    let subtrie_value = {
        let mut subtrie = trie.subtrie_mut("ab".as_bytes()).unwrap();
        *subtrie.value_mut().unwrap() = 999;
        subtrie.value()
    };
    assert_eq!(*subtrie_value.unwrap(), 999);
}

#[test]
fn new_trie_is_empty() {
    let trie: Trie<u32> = Trie::new();
    assert_eq!(trie.len(), 0);
    assert!(trie.check_integrity());
    assert!(trie.get("".as_bytes()).is_none());
    assert!(trie.key().is_none());
}

#[test]
fn ancestor_monotonic() {
    // With both "ab" and "abcd" stored, a query extending "abcd" finds the
    // deeper value, never falling back to the shorter prefix.
    let trie = test_trie();
    assert_eq!(trie.get_ancestor_value("abcdx".as_bytes()), Some(&17));
    assert_eq!(trie.get_ancestor_value("abx".as_bytes()), Some(&16));
}

#[test]
fn subtrie_remove_containment() {
    let mut trie = Trie::new();
    trie.insert("abc".as_bytes(), 3);
    trie.insert("abcdef".as_bytes(), 6);
    trie.insert("zzz".as_bytes(), 9);
    {
        let mut subtrie = trie.subtrie_mut("abc".as_bytes()).unwrap();
        assert_eq!(subtrie.remove("zzz".as_bytes()), Err(()));
        assert_eq!(subtrie.remove("abcdef".as_bytes()), Ok(Some(6)));
        assert_eq!(subtrie.remove("abcx".as_bytes()), Ok(None));
    }
    assert_eq!(trie.get("zzz".as_bytes()), Some(&9));
    assert!(trie.get("abcdef".as_bytes()).is_none());
    assert_eq!(trie.len(), 2);
    assert!(trie.check_integrity());
}

#[test]
fn subtrie_mut_get_scoped() {
    let mut trie = test_trie();
    let subtrie = trie.subtrie_mut("ab".as_bytes()).unwrap();
    assert_eq!(subtrie.get("abcd".as_bytes()), Some(&17));
    assert!(subtrie.get("bcdefgh".as_bytes()).is_none());
}

#[test]
fn subtrie_mut_len_scoped() {
    let mut trie = test_trie();
    let subtrie = trie.subtrie_mut("ab".as_bytes()).unwrap();
    assert_eq!(subtrie.len(), 4);
    assert_eq!(subtrie.iter().len(), 4);
}

#[test]
fn subtrie_mut_finish() {
    let mut trie = Trie::new();
    trie.insert("abc".as_bytes(), 3);
    let mut subtrie = trie.subtrie_mut("abc".as_bytes()).unwrap();
    assert_eq!(subtrie.insert("abcde".as_bytes(), 5), Ok(None));
    let t = subtrie.finish();
    assert_eq!(t.get("abcde".as_bytes()), Some(&5));
    assert_eq!(t.len(), 2);
    assert!(t.check_integrity());
}

#[test]
fn split_mid_edge() {
    // Inserting a key that stops in the middle of a compressed edge must
    // synthesize a valued branch node holding exactly the common prefix.
    let mut trie = Trie::new();
    trie.insert("toaster".as_bytes(), 1);
    trie.insert("toast".as_bytes(), 2);
    assert!(trie.check_integrity());
    assert_eq!(trie.get("toast".as_bytes()), Some(&2));
    assert_eq!(trie.get("toaster".as_bytes()), Some(&1));
    trie.insert("team".as_bytes(), 3);
    assert!(trie.check_integrity());
    assert_eq!(trie.len(), 3);
    assert_eq!(trie.get_ancestor_value("toasty".as_bytes()), Some(&2));
}

#[test]
fn subtrie_get_scoped() {
    let trie = test_trie();
    let sub = trie.subtrie("ab".as_bytes()).unwrap();
    assert_eq!(sub.get("abcd".as_bytes()), Some(&17));
    // A key outside the anchored subtree is invisible through the view.
    assert!(sub.get("bcdefgh".as_bytes()).is_none());
    let pairs = sub.iter();
    assert_eq!(pairs.len(), 4);
}
