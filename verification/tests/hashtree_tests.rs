use floton::hashtree::HashScheme;
use floton::hashtree::HashTree;
use floton::traits::NewType;

#[derive(Debug)]
struct TestType(u32);

impl NewType for TestType {
    fn new() -> Self {
        TestType(0)
    }
}

fn aligned_key(words: &[u64]) -> Vec<u8> {
    let mut v = Vec::new();
    for w in words {
        v.extend_from_slice(&w.to_le_bytes());
    }
    v
}

#[test]
fn hashtree_evolve_hash_works() {
    let hs = HashScheme::default();
    let s: Vec<u8> = b"Hello!".to_vec();
    let hash1 = hs.hash(&s, 1);
    let hs2 = hs.evolve(987654321);
    let hash2 = hs2.hash(&s, 1);
    assert!(hash1 != hash2);
}

#[test]
fn evolve_hash_aligned_works() {
    let hs = HashScheme::default();
    let key = aligned_key(&[554, 334, 886, 9220]);
    let hash1 = hs.hash(&key, 8);
    let hs2 = hs.evolve(987654321);
    let hash2 = hs2.hash(&key, 8);
    assert!(hash1 != hash2);
}

#[test]
fn insert_works() {
    let mut tree: HashTree<TestType> = HashTree::new_table(HashScheme::default(), 10);
    let key = "Hello!";
    tree.insert_string(key, 5);
    let kb: Vec<u8> = key.as_bytes().to_vec();
    tree.swap_value(&kb, 1, TestType(6));
    tree.insert_string(key, 7);
    let v2 = tree.find_string(key).unwrap();
    assert_eq!(v2.0, 6);
}

#[test]
fn insert_aligned_works() {
    let mut tree: HashTree<TestType> = HashTree::new_table(HashScheme::default(), 10);
    let key = aligned_key(&[556, 332, 776, 4433]);
    tree.insert_bytes(&key, 8, 5);
    tree.swap_value(&key, 8, TestType(6));
    tree.insert_bytes(&key, 8, 7);
    let v2 = tree.find_bytes(&key, 8).unwrap();
    assert_eq!(v2.0, 6);
}

#[test]
fn find_basic_works() {
    let mut tree: HashTree<TestType> = HashTree::new_table(HashScheme::default(), 10);
    let key = "Hello!";
    tree.insert_string(key, 5);
    let kb: Vec<u8> = key.as_bytes().to_vec();
    tree.swap_value(&kb, 1, TestType(5));
    let found = tree.find_string(key).unwrap();
    assert_eq!(found.0, 5);
}

#[test]
fn find_aligned_works() {
    let mut tree: HashTree<TestType> = HashTree::new_table(HashScheme::default(), 10);
    let key = aligned_key(&[52376, 33122, 76376, 4433]);
    tree.insert_bytes(&key, 8, 5);
    tree.swap_value(&key, 8, TestType(5));
    let found = tree.find_bytes(&key, 8).unwrap();
    assert_eq!(found.0, 5);
}

#[test]
fn mt_find_works() {
    let mut tree: HashTree<TestType> = HashTree::new_table(HashScheme::default(), 10);
    for i in 0..10u64 {
        tree.insert_string("Hapy", i);
        tree.insert_string("Sad", i);
    }
    tree.insert_string("Happy", 99);
    match tree.find_string("Happy") {
        None => panic!("Didn't find string 'Happy'"),
        _ => (),
    }
}

#[test]
fn find_multi_works() {
    let mut tree: HashTree<TestType> = HashTree::new_table(HashScheme::default(), 10);
    let key1 = "Hello!";
    let key2 = "Hell3!";
    let key3 = "Hell4!";
    tree.insert_string(key1, 1);
    tree.insert_string(key2, 2);
    tree.insert_string(key3, 3);
    tree.swap_value(&key1.as_bytes().to_vec(), 1, TestType(1));
    tree.swap_value(&key2.as_bytes().to_vec(), 1, TestType(2));
    tree.swap_value(&key3.as_bytes().to_vec(), 1, TestType(3));
    assert_eq!(tree.find_string(key1).unwrap().0, 1);
    assert_eq!(tree.find_string(key2).unwrap().0, 2);
    assert_eq!(tree.find_string(key3).unwrap().0, 3);
}

#[test]
fn find_aligned_multi_works() {
    let mut tree: HashTree<TestType> = HashTree::new_table(HashScheme::default(), 10);
    let key1 = aligned_key(&[52373, 33129, 76376, 44773]);
    let key2 = aligned_key(&[523006, 331299, 7376, 433]);
    let key3 = aligned_key(&[526, 33122, 9976, 490033]);
    tree.insert_bytes(&key1, 8, 1);
    tree.insert_bytes(&key2, 8, 2);
    tree.insert_bytes(&key3, 8, 3);
    tree.swap_value(&key1, 8, TestType(1));
    tree.swap_value(&key2, 8, TestType(2));
    tree.swap_value(&key3, 8, TestType(3));
    assert_eq!(tree.find_bytes(&key1, 8).unwrap().0, 1);
    assert_eq!(tree.find_bytes(&key2, 8).unwrap().0, 2);
    assert_eq!(tree.find_bytes(&key3, 8).unwrap().0, 3);
}

#[test]
fn collision_reaches_second_generation() {
    // a single-slot table forces every pair of keys to collide, so the
    // second insert must grow a next-generation table, and both keys must
    // stay reachable
    let mut tree: HashTree<TestType> = HashTree::new_table(HashScheme::default(), 1);
    let key1 = aligned_key(&[11, 22]);
    let key2 = aligned_key(&[33, 44]);
    tree.insert_bytes(&key1, 8, 1);
    tree.insert_bytes(&key2, 8, 2);
    tree.swap_value(&key1, 8, TestType(7));
    tree.swap_value(&key2, 8, TestType(9));
    assert_eq!(tree.find_bytes(&key1, 8).unwrap().0, 7);
    assert_eq!(tree.find_bytes(&key2, 8).unwrap().0, 9);
}

#[test]
fn insert_keeps_existing_slot() {
    // repeated inserts of one key leave its slot value untouched
    let mut tree: HashTree<TestType> = HashTree::new_table(HashScheme::default(), 4);
    let key = aligned_key(&[91, 92]);
    tree.insert_bytes(&key, 8, 1);
    tree.swap_value(&key, 8, TestType(41));
    for now in 2..12u64 {
        tree.insert_bytes(&key, 8, now);
        assert_eq!(tree.find_bytes(&key, 8).unwrap().0, 41);
    }
}
