use nibble_trie::Trie;

#[test]
fn creating_empty_trie_works() {
    let trie = Trie::<String>::new();
    assert_eq!(trie.len(), 0);
}

#[test]
fn inserting_1_entry_works() {
    let mut trie = Trie::new();
    assert_eq!(trie.insert(0, 0), None);
    assert_eq!(trie.len(), 1);
    assert_eq!(trie.get(0), Some(&0));
    assert_eq!(trie.get(1), None);
}

#[test]
fn reinserting_1_entry_works() {
    let mut trie = Trie::new();
    assert_eq!(trie.insert(0, 0), None);
    assert_eq!(trie.insert(0, 1), Some(0));
    assert_eq!(trie.len(), 1);
    assert_eq!(trie.get(0), Some(&1));
}

#[test]
fn inserting_2_entries_works() {
    let mut trie = Trie::new();
    assert_eq!(trie.insert(0, 0), None);
    assert_eq!(trie.insert(1, 1), None);
    assert_eq!(trie.len(), 2);
    assert_eq!(trie.get(0), Some(&0));
    assert_eq!(trie.get(1), Some(&1));
    assert_eq!(trie.get(2), None);
}

#[test]
fn inserting_2_entries_in_reverse_works() {
    let mut trie = Trie::new();
    assert_eq!(trie.insert(1, 1), None);
    assert_eq!(trie.insert(0, 0), None);
    assert_eq!(trie.len(), 2);
    assert_eq!(trie.get(0), Some(&0));
    assert_eq!(trie.get(1), Some(&1));
    assert_eq!(trie.get(2), None);
}

#[test]
fn inserting_3_entries_works() {
    let mut trie = Trie::new();
    assert_eq!(trie.insert(0, 0), None);
    assert_eq!(trie.insert(1, 1), None);
    assert_eq!(trie.insert(2, 2), None);
    assert_eq!(trie.len(), 3);
    assert_eq!(trie.get(0), Some(&0));
    assert_eq!(trie.get(1), Some(&1));
    assert_eq!(trie.get(2), Some(&2));
    assert_eq!(trie.get(3), None);
}

#[test]
fn inserting_3_entries_in_reverse_works() {
    let mut trie = Trie::new();
    assert_eq!(trie.insert(2, 2), None);
    assert_eq!(trie.insert(1, 1), None);
    assert_eq!(trie.insert(0, 0), None);
    assert_eq!(trie.len(), 3);
    assert_eq!(trie.get(0), Some(&0));
    assert_eq!(trie.get(1), Some(&1));
    assert_eq!(trie.get(2), Some(&2));
    assert_eq!(trie.get(3), None);
}

#[test]
fn inserting_32_entries_works() {
    let mut trie = Trie::new();
    for i in 0..32 {
        assert_eq!(trie.insert(i, i), None);
    }
    assert_eq!(trie.len(), 32);
    for i in 0..32 {
        assert_eq!(trie.get(i), Some(&i));
    }
    assert_eq!(trie.get(33), None);
}

#[test]
fn inserting_32_entries_in_reverse_works() {
    let mut trie = Trie::new();
    for i in (0..32).rev() {
        assert_eq!(trie.insert(i, i), None);
    }
    assert_eq!(trie.len(), 32);
    for i in 0..32 {
        assert_eq!(trie.get(i), Some(&i));
    }
    assert_eq!(trie.get(33), None);
}
