use patricia_trie::trie::{PatriciaTrie, Trie};
use std::collections::HashSet;

/// A small linear congruential generator, so that every run sees the same keys.
struct Lcg(u64);

impl Lcg {
    fn next(&mut self) -> u64 {
        self.0 = self
            .0
            .wrapping_mul(6364136223846793005)
            .wrapping_add(1442695040888963407);
        self.0 >> 33
    }

    fn alphanumeric(&mut self, len: usize) -> Vec<u8> {
        let chars = b"ABCDEFGHIJKLMNOPQRSTUVWXYZabcdefghijklmnopqrstuvwxyz0123456789";
        (0..len)
            .map(|_| chars[(self.next() % chars.len() as u64) as usize])
            .collect()
    }
}

#[test]
fn test_trie_insert() {
    let mut trie = PatriciaTrie::new();
    trie.insert(b"test".to_vec(), b"test".to_vec());
    trie.insert(b"test1".to_vec(), b"test1".to_vec());
    trie.insert(b"testdas".to_vec(), b"testdas".to_vec());
    assert_eq!(trie.get(b"test"), Some(b"test".to_vec()));
    assert_eq!(trie.get(b"test1"), Some(b"test1".to_vec()));
    assert_eq!(trie.get(b"testdas"), Some(b"testdas".to_vec()));
}

#[test]
fn test_trie_random_insert() {
    let mut trie = PatriciaTrie::new();
    let mut rng = Lcg(7);
    for _ in 0..10000 {
        let val = rng.alphanumeric(30);
        trie.insert(val.to_vec(), val.to_vec());

        let v = trie.get(&val);
        assert_eq!(v, Some(val.to_vec()));
    }
}

#[test]
fn test_trie_remove() {
    let mut trie = PatriciaTrie::new();
    trie.insert(b"test".to_vec(), b"test".to_vec());
    let removed = trie.remove(b"test");
    assert!(removed)
}

#[test]
fn test_trie_random_remove() {
    let mut trie = PatriciaTrie::new();
    let mut rng = Lcg(11);
    for _ in 0..1000 {
        let val = rng.alphanumeric(30);
        trie.insert(val.to_vec(), val.to_vec());

        let removed = trie.remove(&val);
        assert!(removed);
    }
}

#[test]
fn insert_full_branch() {
    let mut trie = PatriciaTrie::new();

    trie.insert(b"test".to_vec(), b"test".to_vec());
    trie.insert(b"test1".to_vec(), b"test".to_vec());
    trie.insert(b"test2".to_vec(), b"test".to_vec());
    trie.insert(b"test23".to_vec(), b"test".to_vec());
    trie.insert(b"test33".to_vec(), b"test".to_vec());
    trie.insert(b"test44".to_vec(), b"test".to_vec());

    let v = trie.get(b"test");
    assert_eq!(Some(b"test".to_vec()), v);
}

#[test]
fn round_trip_single_key() {
    let mut trie = PatriciaTrie::new();
    trie.insert(b"key".to_vec(), b"value".to_vec());
    assert_eq!(trie.get(b"key"), Some(b"value".to_vec()));
    assert!(trie.contains(b"key"));
}

#[test]
fn round_trip_empty_key() {
    let mut trie = PatriciaTrie::new();
    trie.insert(Vec::new(), b"nothing".to_vec());
    assert_eq!(trie.get(b""), Some(b"nothing".to_vec()));
    trie.insert(b"a".to_vec(), b"x".to_vec());
    assert_eq!(trie.get(b""), Some(b"nothing".to_vec()));
    assert_eq!(trie.get(b"a"), Some(b"x".to_vec()));
}

#[test]
fn update_keeps_latest_value() {
    let mut trie = PatriciaTrie::new();
    trie.insert(b"dog".to_vec(), b"one".to_vec());
    trie.insert(b"door".to_vec(), b"two".to_vec());
    trie.insert(b"dog".to_vec(), b"three".to_vec());
    assert_eq!(trie.get(b"dog"), Some(b"three".to_vec()));
    assert_eq!(trie.get(b"door"), Some(b"two".to_vec()));
}

#[test]
fn insert_leaves_other_keys_alone() {
    let mut trie = PatriciaTrie::new();
    trie.insert(b"abc".to_vec(), b"1".to_vec());
    trie.insert(b"abd".to_vec(), b"2".to_vec());
    trie.insert(b"ab".to_vec(), b"3".to_vec());
    trie.insert(b"b".to_vec(), b"4".to_vec());
    assert_eq!(trie.get(b"abc"), Some(b"1".to_vec()));
    assert_eq!(trie.get(b"abd"), Some(b"2".to_vec()));
    assert_eq!(trie.get(b"ab"), Some(b"3".to_vec()));
    assert_eq!(trie.get(b"b"), Some(b"4".to_vec()));
}

#[test]
fn prefix_keys_both_retrievable() {
    let mut trie = PatriciaTrie::new();
    trie.insert(b"test".to_vec(), b"a".to_vec());
    trie.insert(b"test1".to_vec(), b"b".to_vec());
    assert_eq!(trie.get(b"test"), Some(b"a".to_vec()));
    assert_eq!(trie.get(b"test1"), Some(b"b".to_vec()));
}

#[test]
fn full_branch_all_retrievable() {
    let keys: [&[u8]; 6] = [b"test", b"test1", b"test2", b"test23", b"test33", b"test44"];
    let mut trie = PatriciaTrie::new();
    for k in keys.iter() {
        trie.insert(k.to_vec(), k.to_vec());
    }
    for k in keys.iter() {
        assert_eq!(trie.get(k), Some(k.to_vec()));
    }
}

#[test]
fn stored_key_prefix_is_absent() {
    let mut trie = PatriciaTrie::new();
    trie.insert(b"ab".to_vec(), b"v".to_vec());
    assert_eq!(trie.get(b"a"), None);
    assert_eq!(trie.get(b"abc"), None);
    assert!(!trie.contains(b"a"));
}

#[test]
fn removal_hides_key_and_keeps_others() {
    let mut trie = PatriciaTrie::new();
    trie.insert(b"a".to_vec(), b"1".to_vec());
    trie.insert(b"abc".to_vec(), b"2".to_vec());
    trie.insert(b"abd".to_vec(), b"3".to_vec());
    assert!(trie.remove(b"a"));
    assert_eq!(trie.get(b"a"), None);
    assert_eq!(trie.get(b"abc"), Some(b"2".to_vec()));
    assert!(trie.remove(b"abc"));
    assert_eq!(trie.get(b"abc"), None);
    assert_eq!(trie.get(b"abd"), Some(b"3".to_vec()));
    assert!(!trie.remove(b"abc"));
    assert!(!trie.remove(b"ab"));
}

#[test]
fn removal_then_reinsert() {
    let mut trie = PatriciaTrie::new();
    trie.insert(b"k".to_vec(), b"1".to_vec());
    assert!(trie.remove(b"k"));
    assert!(!trie.contains(b"k"));
    trie.insert(b"k".to_vec(), b"2".to_vec());
    assert_eq!(trie.get(b"k"), Some(b"2".to_vec()));
}

#[test]
fn empty_trie_baseline() {
    let mut trie = PatriciaTrie::new();
    assert_eq!(trie.get(b"anything"), None);
    assert_eq!(trie.get(b""), None);
    assert!(!trie.contains(b"anything"));
    assert!(!trie.remove(b"anything"));
}

#[test]
fn fuzz_distinct_keys_retrievable() {
    let mut rng = Lcg(2024);
    let mut seen = HashSet::new();
    let mut keys = Vec::new();
    while keys.len() < 1000 {
        let k = rng.alphanumeric(16);
        if seen.insert(k.clone()) {
            keys.push(k);
        }
    }
    let mut trie = PatriciaTrie::new();
    for k in keys.iter() {
        trie.insert(k.clone(), k.clone());
        assert_eq!(trie.get(k), Some(k.clone()));
    }
    for k in keys.iter() {
        assert_eq!(trie.get(k), Some(k.clone()));
    }
    for k in keys.iter().step_by(2) {
        assert!(trie.remove(k));
    }
    for (i, k) in keys.iter().enumerate() {
        if i % 2 == 0 {
            assert_eq!(trie.get(k), None);
        } else {
            assert_eq!(trie.get(k), Some(k.clone()));
        }
    }
}

#[test]
fn removal_collapses_and_keeps_neighbours() {
    let mut trie = PatriciaTrie::new();
    trie.insert(b"a".to_vec(), b"1".to_vec());
    trie.insert(b"b".to_vec(), b"2".to_vec());
    trie.insert(b"bc".to_vec(), b"3".to_vec());
    assert!(trie.remove(b"a"));
    assert!(trie.remove(b"b"));
    assert_eq!(trie.get(b"bc"), Some(b"3".to_vec()));
    trie.insert(b"bd".to_vec(), b"4".to_vec());
    assert_eq!(trie.get(b"bc"), Some(b"3".to_vec()));
    assert_eq!(trie.get(b"bd"), Some(b"4".to_vec()));
    assert_eq!(trie.get(b"b"), None);
    assert!(trie.remove(b"bc"));
    assert!(trie.remove(b"bd"));
    assert!(!trie.contains(b"bd"));
    trie.insert(b"z".to_vec(), b"5".to_vec());
    assert_eq!(trie.get(b"z"), Some(b"5".to_vec()));
}

#[test]
fn default_trie_is_empty() {
    let mut trie = PatriciaTrie::default();
    assert_eq!(trie.get(b"x"), None);
    trie.insert(b"x".to_vec(), b"y".to_vec());
    assert_eq!(trie.get(b"x"), Some(b"y".to_vec()));
}
