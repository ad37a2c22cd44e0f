use nibble_trie::index;
use nibble_trie::Trie;

const TOP_SHIFT: u32 = usize::BITS - 4;

#[test]
fn index_reads_the_nibble_at_a_depth() {
    assert_eq!(index(0x1234, 0, 16), 4);
    assert_eq!(index(0x1234, 1, 16), 3);
    assert_eq!(index(0x1234, 3, 16), 1);
    assert_eq!(index(0x1234, 4, 16), 0);
    assert_eq!(index(0xff, 0, 4), 3);
    assert_eq!(index(0xab, 1, 1), 0);
    assert_eq!(index(0x1234, 0, 6), 4);
    assert_eq!(index(0x1237, 0, 6), 5);
    assert_eq!(index(usize::MAX, (usize::BITS / 4 - 1) as usize, 16), 15);
}

#[test]
fn removing_a_key_that_shares_a_nibble_keeps_the_other() {
    let mut trie = Trie::new();
    assert_eq!(trie.insert(1, 10), None);
    assert_eq!(trie.insert(17, 170), None);
    assert_eq!(trie.len(), 2);
    assert_eq!(trie.remove(1), Some(10));
    assert_eq!(trie.get(1), None);
    assert_eq!(trie.get(17), Some(&170));
    assert_eq!(trie.len(), 1);
}

#[test]
fn removing_an_absent_key_changes_nothing() {
    let mut trie = Trie::new();
    assert_eq!(trie.remove(5), None);
    assert_eq!(trie.len(), 0);
    trie.insert(5, 'a');
    trie.insert(21, 'b');
    assert_eq!(trie.remove(37), None);
    assert_eq!(trie.remove(6), None);
    assert_eq!(trie.len(), 2);
    assert_eq!(trie.get(5), Some(&'a'));
    assert_eq!(trie.get(21), Some(&'b'));
}

#[test]
fn removing_twice_finds_nothing_the_second_time() {
    let mut trie = Trie::new();
    trie.insert(9, "nine");
    assert_eq!(trie.remove(9), Some("nine"));
    assert_eq!(trie.remove(9), None);
    assert_eq!(trie.len(), 0);
    assert_eq!(trie.get(9), None);
}

#[test]
fn emptied_trie_is_reusable() {
    let mut trie = Trie::new();
    for i in 0..40usize {
        trie.insert(i * 17, i);
    }
    for i in 0..40usize {
        assert_eq!(trie.remove(i * 17), Some(i));
    }
    assert_eq!(trie.len(), 0);
    for i in 0..40usize {
        assert_eq!(trie.get(i * 17), None);
    }
    assert_eq!(trie.insert(3, 3), None);
    assert_eq!(trie.get(3), Some(&3));
    assert_eq!(trie.len(), 1);
}

#[test]
fn keys_sharing_many_nibbles_are_both_found() {
    let mut trie = Trie::new();
    let a: usize = 0x0;
    let b: usize = 0x1000_0000;
    assert_eq!(trie.insert(a, 'a'), None);
    assert_eq!(trie.insert(b, 'b'), None);
    assert_eq!(trie.get(a), Some(&'a'));
    assert_eq!(trie.get(b), Some(&'b'));
    assert_eq!(trie.get(0x100), None);
    assert_eq!(trie.len(), 2);
}

#[test]
fn keys_differing_only_in_the_top_nibble_are_both_found() {
    let mut trie = Trie::new();
    let a: usize = 7;
    let b: usize = 7 | (1usize << TOP_SHIFT);
    let c: usize = usize::MAX;
    let d: usize = usize::MAX ^ (0xfusize << TOP_SHIFT);
    assert_eq!(trie.insert(a, 1), None);
    assert_eq!(trie.insert(b, 2), None);
    assert_eq!(trie.insert(c, 3), None);
    assert_eq!(trie.insert(d, 4), None);
    assert_eq!(trie.get(a), Some(&1));
    assert_eq!(trie.get(b), Some(&2));
    assert_eq!(trie.get(c), Some(&3));
    assert_eq!(trie.get(d), Some(&4));
    assert_eq!(trie.len(), 4);
    assert_eq!(trie.remove(b), Some(2));
    assert_eq!(trie.get(a), Some(&1));
    assert_eq!(trie.remove(d), Some(4));
    assert_eq!(trie.get(c), Some(&3));
    assert_eq!(trie.len(), 2);
}

#[test]
fn every_split_depth_keeps_both_keys() {
    let depths = (usize::BITS / 4) as usize;
    for n in 0..depths {
        let mut trie = Trie::new();
        let a: usize = 0x5;
        let b: usize = a ^ (0x3usize << (4 * n));
        assert_eq!(trie.insert(a, 'a'), None);
        assert_eq!(trie.insert(b, 'b'), None);
        assert_eq!(trie.get(a), Some(&'a'));
        assert_eq!(trie.get(b), Some(&'b'));
        assert_eq!(trie.len(), 2);
    }
}

#[test]
fn removal_collapses_chains_and_keeps_the_rest() {
    let mut trie = Trie::new();
    trie.insert(0x000, 0);
    trie.insert(0x100, 1);
    trie.insert(0x010, 2);
    trie.insert(0x200, 3);
    assert_eq!(trie.remove(0x100), Some(1));
    assert_eq!(trie.get(0x000), Some(&0));
    assert_eq!(trie.get(0x010), Some(&2));
    assert_eq!(trie.get(0x200), Some(&3));
    assert_eq!(trie.remove(0x200), Some(3));
    assert_eq!(trie.remove(0x010), Some(2));
    assert_eq!(trie.get(0x000), Some(&0));
    assert_eq!(trie.len(), 1);
    assert_eq!(trie.insert(0x100, 4), None);
    assert_eq!(trie.get(0x100), Some(&4));
    assert_eq!(trie.get(0x000), Some(&0));
    assert_eq!(trie.len(), 2);
}

#[test]
fn get_mut_writes_through_to_the_entry() {
    let mut trie = Trie::new();
    trie.insert(3, 30);
    trie.insert(19, 190);
    match trie.get_mut(19) {
        Some(v) => *v = 191,
        None => panic!("key 19 is present"),
    }
    assert_eq!(trie.get(19), Some(&191));
    assert_eq!(trie.get(3), Some(&30));
    assert_eq!(trie.len(), 2);
    assert!(trie.get_mut(35).is_none());
    assert!(trie.get_mut(4).is_none());
    assert_eq!(trie.len(), 2);
}

#[test]
fn overwrite_returns_the_previous_value_and_keeps_the_count() {
    let mut trie = Trie::new();
    assert_eq!(trie.insert(42, String::from("x")), None);
    assert_eq!(trie.insert(42, String::from("y")), Some(String::from("x")));
    assert_eq!(trie.insert(42, String::from("z")), Some(String::from("y")));
    assert_eq!(trie.len(), 1);
    assert_eq!(trie.get(42).map(|s| s.as_str()), Some("z"));
}

#[test]
fn insertion_order_does_not_change_the_map() {
    let keys: Vec<usize> = vec![0x35, 0x5, 0x1005, 0x15, 0x0, 0xfff5, 0x105, 0x7];
    let mut forward = Trie::new();
    for &k in keys.iter() {
        forward.insert(k, k * 2);
    }
    let mut backward = Trie::new();
    for &k in keys.iter().rev() {
        backward.insert(k, k * 2);
    }
    let mut shuffled = Trie::new();
    for idx in [3usize, 6, 0, 7, 2, 5, 1, 4] {
        shuffled.insert(keys[idx], keys[idx] * 2);
    }
    assert_eq!(forward.len(), keys.len());
    assert_eq!(backward.len(), keys.len());
    assert_eq!(shuffled.len(), keys.len());
    for k in 0..0x1100usize {
        assert_eq!(forward.get(k), backward.get(k));
        assert_eq!(forward.get(k), shuffled.get(k));
    }
    assert_eq!(forward.get(0xfff5), Some(&(0xfff5 * 2)));
}

#[test]
fn count_follows_inserts_and_removes() {
    let mut trie = Trie::new();
    let mut expected: usize = 0;
    for i in 0..300usize {
        let k = (i * 7919) % 1024;
        if trie.insert(k, i).is_none() {
            expected += 1;
        }
        assert_eq!(trie.len(), expected);
    }
    for i in 0..300usize {
        let k = (i * 104729) % 1024;
        if trie.remove(k).is_some() {
            expected -= 1;
        }
        assert_eq!(trie.len(), expected);
        assert_eq!(trie.get(k), None);
    }
}

#[test]
fn dump_of_an_empty_trie_shows_sixteen_empty_slots() {
    let trie = Trie::<u8>::new();
    let expected = format!("Trie {{ size: 0, root: N16({})\n }}", "o,".repeat(16));
    assert_eq!(trie.dump(), expected);
}

#[test]
fn dump_shows_a_split_branch_and_its_leaves() {
    let mut trie = Trie::new();
    trie.insert(1, ());
    trie.insert(17, ());
    trie.insert(1234567, ());
    let inner = format!("N16(1,17,{})\n", "o,".repeat(14));
    let expected = format!(
        "Trie {{ size: 3, root: N16(o,{},{}1234567,{})\n }}",
        inner,
        "o,".repeat(5),
        "o,".repeat(8)
    );
    assert_eq!(trie.dump(), expected);
}
