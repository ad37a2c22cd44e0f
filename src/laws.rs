//! Laws of the map that `Trie` holds, stated over the model its operations
//! are specified by: `insert` sets `@` to `@.insert(k, v)`, `remove` to
//! `@.remove(k)`, and `get` reads `@`.

use vstd::prelude::*;
use crate::key::{agree, nibble};

verus! {

/// The map `m` after inserting the entries of `s` in order.
pub open spec fn inserted<V>(m: Map<usize, V>, s: Seq<(usize, V)>) -> Map<usize, V>
    decreases s.len(),
{
    if s.len() == 0 {
        m
    } else {
        inserted(m, s.drop_last()).insert(s.last().0, s.last().1)
    }
}

/// No key occurs twice among the entries of `s`.
pub open spec fn distinct_keys<V>(s: Seq<(usize, V)>) -> bool {
    forall|i: int, j: int| 0 <= i < j < s.len() ==> #[trigger] s[i].0 != #[trigger] s[j].0
}

/// One mutating call on a trie, as far as its map is concerned.
pub enum Edit<V> {
    /// `insert(k, v)`.
    Insert(usize, V),
    /// `remove(k)`.
    Remove(usize),
}

/// The map after one edit.
pub open spec fn step<V>(m: Map<usize, V>, e: Edit<V>) -> Map<usize, V> {
    match e {
        Edit::Insert(k, v) => m.insert(k, v),
        Edit::Remove(k) => m.remove(k),
    }
}

/// The map after the edits of `es`, in order.
pub open spec fn applied<V>(m: Map<usize, V>, es: Seq<Edit<V>>) -> Map<usize, V>
    decreases es.len(),
{
    if es.len() == 0 {
        m
    } else {
        step(applied(m, es.drop_last()), es.last())
    }
}

/// The size of `m`, plus one for each insert of a key not present at the
/// time, minus one for each remove of a key present at the time.
pub open spec fn net_count<V>(m: Map<usize, V>, es: Seq<Edit<V>>) -> int
    decreases es.len(),
{
    if es.len() == 0 {
        m.len() as int
    } else {
        let before = applied(m, es.drop_last());
        net_count(m, es.drop_last()) + match es.last() {
            Edit::Insert(k, _) => if before.contains_key(k) { 0int } else { 1int },
            Edit::Remove(k) => if before.contains_key(k) { -1int } else { 0int },
        }
    }
}

/// After any sequence of inserts and removes, the number of entries is the
/// starting number plus the inserts of new keys minus the removes that found
/// their key.
pub proof fn lemma_count_after_edits<V>(m: Map<usize, V>, es: Seq<Edit<V>>)
    requires
        m.dom().finite(),
    ensures
        applied(m, es).dom().finite(),
        applied(m, es).len() == net_count(m, es),
    decreases es.len(),
{
    if es.len() > 0 {
        lemma_count_after_edits(m, es.drop_last());
        let before = applied(m, es.drop_last());
        match es.last() {
            Edit::Insert(k, v) => {
                if before.contains_key(k) {
                    assert(before.dom().insert(k) =~= before.dom());
                }
            },
            Edit::Remove(k) => {
                if !before.contains_key(k) {
                    assert(before.remove(k) =~= before);
                }
            },
        }
    }
}

/// After `insert(k, v)`, `get(k)` finds `v`.
pub proof fn lemma_insert_then_get<V>(m: Map<usize, V>, k: usize, v: V)
    ensures
        m.insert(k, v).contains_key(k),
        m.insert(k, v)[k] == v,
{
}

/// Inserting a key a second time hands back the value of the first insert
/// and leaves the count as it was.
pub proof fn lemma_overwrite<V>(m: Map<usize, V>, k: usize, v1: V, v2: V)
    requires
        m.dom().finite(),
    ensures
        m.insert(k, v1).contains_key(k),
        m.insert(k, v1)[k] == v1,
        m.insert(k, v1).insert(k, v2).len() == m.insert(k, v1).len(),
        m.insert(k, v1).insert(k, v2)[k] == v2,
{
    assert(m.insert(k, v1).dom().insert(k) =~= m.insert(k, v1).dom());
}

/// A key that was never inserted, or that was removed, is not found; and
/// inserting another key does not make it found.
pub proof fn lemma_miss<V>(m: Map<usize, V>, k: usize, j: usize, v: V)
    ensures
        !m.remove(k).contains_key(k),
        !Map::<usize, V>::empty().contains_key(k),
        k != j && !m.contains_key(k) ==> !m.insert(j, v).contains_key(k),
{
}

/// Removing a present key hands back its value, leaves it absent and lowers
/// the count by one; removing an absent key changes nothing.
pub proof fn lemma_remove<V>(m: Map<usize, V>, k: usize)
    requires
        m.dom().finite(),
    ensures
        !m.remove(k).contains_key(k),
        m.contains_key(k) ==> m.remove(k).len() == m.len() - 1,
        !m.contains_key(k) ==> m.remove(k) == m,
{
    if !m.contains_key(k) {
        assert(m.remove(k) =~= m);
    }
}

/// Two keys that share their first `n` nibbles and differ in the next one
/// are both found after both are inserted.
pub proof fn lemma_deep_collision<V>(m: Map<usize, V>, a: usize, va: V, b: usize, vb: V, n: nat)
    requires
        agree(a, b, n),
        nibble(a, n) != nibble(b, n),
    ensures
        m.insert(a, va).insert(b, vb).contains_key(a),
        m.insert(a, va).insert(b, vb)[a] == va,
        m.insert(a, va).insert(b, vb).contains_key(b),
        m.insert(a, va).insert(b, vb)[b] == vb,
{
    assert(a != b);
}

/// With distinct keys, what inserting `s` leaves under `k` is the value of
/// the entry of `s` with key `k`, or what `m` held when there is none.
proof fn lemma_inserted_at<V>(m: Map<usize, V>, s: Seq<(usize, V)>, k: usize)
    requires
        distinct_keys(s),
    ensures
        forall|i: int| 0 <= i < s.len() && #[trigger] s[i].0 == k ==> inserted(m, s).contains_key(k)
            && inserted(m, s)[k] == s[i].1,
        (forall|i: int| 0 <= i < s.len() ==> #[trigger] s[i].0 != k) ==> inserted(m, s).contains_key(k)
            == m.contains_key(k) && inserted(m, s)[k] == m[k],
    decreases s.len(),
{
    if s.len() > 0 {
        let t = s.drop_last();
        assert(distinct_keys(t)) by {
            assert forall|i: int, j: int| 0 <= i < j < t.len() implies #[trigger] t[i].0 != #[trigger] t[j].0 by {
                assert(t[i] == s[i] && t[j] == s[j]);
            }
        }
        lemma_inserted_at(m, t, k);
        assert forall|i: int| 0 <= i < s.len() && #[trigger] s[i].0 == k implies inserted(m, s).contains_key(k)
            && inserted(m, s)[k] == s[i].1 by {
            if i < s.len() - 1 {
                assert(t[i] == s[i]);
                assert(s[i].0 != s[s.len() - 1].0);
            }
        }
        if forall|i: int| 0 <= i < s.len() ==> #[trigger] s[i].0 != k {
            assert forall|i: int| 0 <= i < t.len() implies #[trigger] t[i].0 != k by {
                assert(t[i] == s[i]);
            }
            assert(s[s.len() - 1].0 != k);
        }
    }
}

/// Inserting the same entries, each key once, in any order gives the same
/// map, and so the same count.
pub proof fn lemma_order_independent<V>(m: Map<usize, V>, s1: Seq<(usize, V)>, s2: Seq<(usize, V)>)
    requires
        distinct_keys(s1),
        distinct_keys(s2),
        forall|e: (usize, V)| s1.contains(e) <==> s2.contains(e),
    ensures
        inserted(m, s1) == inserted(m, s2),
        inserted(m, s1).len() == inserted(m, s2).len(),
{
    assert forall|k: usize| #[trigger] inserted(m, s1).contains_key(k) == inserted(m, s2).contains_key(k)
        && (inserted(m, s1).contains_key(k) ==> inserted(m, s1)[k] == inserted(m, s2)[k]) by {
        lemma_inserted_at(m, s1, k);
        lemma_inserted_at(m, s2, k);
        if exists|i: int| 0 <= i < s1.len() && #[trigger] s1[i].0 == k {
            let i = choose|i: int| 0 <= i < s1.len() && #[trigger] s1[i].0 == k;
            assert(s1.contains(s1[i]));
            let j = choose|j: int| 0 <= j < s2.len() && s2[j] == s1[i];
            assert(s2[j].0 == k);
        } else if exists|j: int| 0 <= j < s2.len() && #[trigger] s2[j].0 == k {
            let j = choose|j: int| 0 <= j < s2.len() && #[trigger] s2[j].0 == k;
            assert(s2.contains(s2[j]));
            let i = choose|i: int| 0 <= i < s1.len() && s1[i] == s2[j];
            assert(s1[i].0 == k);
        }
    }
    assert(inserted(m, s1) =~= inserted(m, s2));
}

} // verus!
