use bencode_tools::BinaryArraySet;
use bencode_tools::Iter;

#[test]
fn test_new_set_is_empty() {
    let s = BinaryArraySet::new();
    assert!(s.is_empty());
    assert_eq!(0, s.len());
    assert!(s.check_structure());
    assert!(!s.contains(42));
}

#[test]
fn test_insert_and_contains() {
    let mut s = BinaryArraySet::new();
    assert!(s.insert(5));
    assert!(s.insert(3));
    assert!(s.insert(9));
    assert!(!s.insert(5));
    assert_eq!(3, s.len());
    assert!(!s.is_empty());
    assert!(s.contains(3));
    assert!(s.contains(5));
    assert!(s.contains(9));
    assert!(!s.contains(4));
    assert!(s.check_structure());
}

#[test]
fn test_insert_unique_grows_set() {
    let mut s = BinaryArraySet::new();
    s.insert_unique(10);
    s.insert_unique(20);
    s.insert_unique(15);
    assert_eq!(3, s.len());
    assert!(s.contains(10) && s.contains(15) && s.contains(20));
    assert!(!s.contains(12));
    assert!(s.check_structure());
}

#[test]
fn test_many_inserts_keep_structure() {
    let mut s = BinaryArraySet::new();
    for x in 0..100u64 {
        // insert in a scrambled order
        let v = (x * 37) % 100;
        assert!(s.insert(v));
        assert!(s.check_structure());
    }
    assert_eq!(100, s.len());
    for x in 0..100u64 {
        assert!(s.contains(x));
        assert!(!s.insert(x));
    }
    assert!(!s.contains(100));
    assert_eq!(100, s.len());
}

#[test]
fn test_clear_empties_set() {
    let mut s = BinaryArraySet::new();
    s.insert(1);
    s.insert(2);
    s.clear();
    assert!(s.is_empty());
    assert_eq!(0, s.len());
    assert!(!s.contains(1));
    assert!(s.check_structure());
    assert!(s.insert(1));
    assert_eq!(1, s.len());
}

#[test]
fn test_extreme_values() {
    let mut s = BinaryArraySet::new();
    assert!(s.insert(0));
    assert!(s.insert(u64::MAX));
    assert!(s.contains(0));
    assert!(s.contains(u64::MAX));
    assert!(!s.insert(u64::MAX));
    assert_eq!(2, s.len());
    assert!(s.check_structure());
}

#[test]
fn test_iter_yields_every_element_once() {
    let mut s = BinaryArraySet::new();
    for x in [9u64, 4, 7, 1, 8] {
        s.insert(x);
    }
    let mut it = Iter::new(&s);
    assert_eq!(5, it.remaining_len());
    let mut seen: Vec<u64> = Vec::new();
    while let Some(x) = it.next() {
        seen.push(x);
    }
    assert_eq!(0, it.remaining_len());
    assert_eq!(5, seen.len());
    seen.sort();
    assert_eq!(vec![1u64, 4, 7, 8, 9], seen);
}

#[test]
fn test_iter_on_empty_set() {
    let s = BinaryArraySet::new();
    let mut it = Iter::new(&s);
    assert_eq!(None, it.next());
    assert_eq!(None, it.next());
}
