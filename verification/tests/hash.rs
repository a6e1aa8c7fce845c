use pdfboss_core::hash::{FastMap, FastSet, FxHasher};
use std::hash::{Hash, Hasher};

fn hash_of<T: Hash>(v: &T) -> u64 {
    let mut h = FxHasher::default();
    v.hash(&mut h);
    h.finish()
}

#[test]
fn deterministic_and_key_sensitive() {
    assert_eq!(hash_of(&"Font"), hash_of(&"Font"));
    assert_ne!(hash_of(&"Font"), hash_of(&"Type"));
    assert_ne!(hash_of(&(3u32, 0u16)), hash_of(&(3u32, 1u16)));
}

#[test]
fn map_behaves_like_a_hashmap() {
    let mut m: FastMap<String, u32> = FastMap::default();
    m.insert("Kids".to_string(), 1);
    m.insert("Count".to_string(), 2);
    assert_eq!(m.get("Kids"), Some(&1));
    assert_eq!(m.get("Count"), Some(&2));
    assert_eq!(m.get("Missing"), None);
    assert_eq!(m.len(), 2);
}

#[test]
fn set_dedups() {
    let mut s: FastSet<u32> = FastSet::default();
    assert!(s.insert(7));
    assert!(!s.insert(7));
    assert!(s.contains(&7));
}

#[test]
fn words_hash_as_their_product_with_the_seed() {
    let mut hasher = FxHasher::default();
    assert_eq!(hasher.finish(), 0);
    hasher.write_u64(1);
    assert_eq!(hasher.finish(), 0x517c_c1b7_2722_0a95);
    hasher.write_u64(0);
    assert_eq!(
        hasher.finish(),
        0x517c_c1b7_2722_0a95u64.rotate_left(5).wrapping_mul(0x517c_c1b7_2722_0a95)
    );
    let mut bytes = FxHasher::default();
    bytes.write(&[1, 0, 0, 0, 0, 0, 0, 0]);
    let mut word = FxHasher::default();
    word.write_u64(1);
    assert_eq!(bytes.finish(), word.finish());
}

#[test]
fn different_words_hash_differently() {
    let mut seen = FastSet::default();
    for word in 0..1000u64 {
        let mut hasher = FxHasher::default();
        hasher.write_u64(word);
        assert!(seen.insert(hasher.finish()));
    }
}
