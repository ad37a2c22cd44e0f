//! The trie: branches of sixteen slots and leaves holding one entry each.

use vstd::prelude::*;
use vstd::string::*;
use crate::dump::{append_decimal, append_node, decimal, dumped};
use crate::key::{agree, depth_in_range, lemma_agree_all, lemma_agree_step, nibble, nibble_at, FANOUT};

verus! {

/// A node of the trie.
pub enum Node<V> {
    /// Sixteen slots, one per nibble value at this node's depth.
    Branch(Vec<Option<Node<V>>>),
    /// One key and its value.
    Leaf(usize, V),
}

/// Some two distinct slots are occupied.
pub open spec fn two_occupied<V>(ch: Seq<Option<Node<V>>>) -> bool {
    exists|i: int, j: int| 0 <= i < j < ch.len() && #[trigger] ch[i] is Some && #[trigger] ch[j] is Some
}

/// Some slot holds a branch.
pub open spec fn holds_branch<V>(ch: Seq<Option<Node<V>>>) -> bool {
    exists|i: int| 0 <= i < ch.len() && #[trigger] ch[i] is Some && ch[i]->0 is Branch
}

/// A branch below the root that cannot be replaced by a single leaf: it has
/// two occupied slots, or leads on to a deeper branch.
pub open spec fn compact<V>(ch: Seq<Option<Node<V>>>) -> bool {
    two_occupied(ch) || holds_branch(ch)
}

impl<V> Node<V> {
    /// The value that a descent for `k`, starting at this node at depth `d`, finds.
    pub open spec fn lookup(self, k: usize, d: nat) -> Option<V>
        decreases self,
    {
        match self {
            Node::Leaf(k0, v) => if k0 == k { Some(v) } else { None },
            Node::Branch(ch) => {
                let i = nibble(k, d) as int;
                if i < ch@.len() && ch@[i] is Some {
                    ch@[i]->0.lookup(k, d + 1)
                } else {
                    None
                }
            },
        }
    }

    /// The node is a well-formed subtree rooted at depth `d`: every branch has
    /// sixteen slots and a readable nibble, each child holds only keys whose
    /// nibble selects its slot, and every branch below the root is compact.
    pub open spec fn wf(self, d: nat) -> bool
        decreases self,
    {
        match self {
            Node::Leaf(_, _) => true,
            Node::Branch(ch) => {
                &&& ch@.len() == FANOUT
                &&& depth_in_range(d)
                &&& d > 0 ==> compact(ch@)
                &&& forall|i: int| 0 <= i < ch@.len() && #[trigger] ch@[i] is Some ==> {
                    &&& ch@[i]->0.wf(d + 1)
                    &&& forall|k: usize| #[trigger] ch@[i]->0.lookup(k, d + 1) is Some ==> nibble(k, d) == i
                }
            },
        }
    }

    /// A branch of sixteen empty slots.
    fn empty16() -> (r: Node<V>)
        ensures
            r matches Node::Branch(ch) && ch@.len() == FANOUT
                && forall|i: int| 0 <= i < FANOUT ==> #[trigger] ch@[i] is None,
    {
        Node::Branch(empty_slots())
    }
}

/// Sixteen empty slots.
fn empty_slots<V>() -> (ch: Vec<Option<Node<V>>>)
    ensures
        ch@.len() == FANOUT,
        forall|i: int| 0 <= i < FANOUT ==> #[trigger] ch@[i] is None,
{
        let mut ch: Vec<Option<Node<V>>> = Vec::new();
        let mut i: usize = 0;
        while i < FANOUT
            invariant
                i <= FANOUT,
                ch@.len() == i,
                forall|j: int| 0 <= j < i ==> #[trigger] ch@[j] is None,
            decreases FANOUT - i,
        {
            ch.push(None);
            i = i + 1;
        }
        ch
}

/// Occupied slots stay occupied, and slots holding a branch still hold one.
proof fn lemma_compact_kept<V>(a: Seq<Option<Node<V>>>, b: Seq<Option<Node<V>>>)
    requires
        a.len() == b.len(),
        forall|i: int| 0 <= i < a.len() && #[trigger] a[i] is Some ==> b[i] is Some,
        forall|i: int| 0 <= i < a.len() && #[trigger] a[i] is Some && a[i]->0 is Branch ==> b[i] is Some && b[i]->0 is Branch,
        compact(a),
    ensures
        compact(b),
{
    if two_occupied(a) {
        let (i, j) = choose|i: int, j: int| 0 <= i < j < a.len() && #[trigger] a[i] is Some && #[trigger] a[j] is Some;
        assert(b[i] is Some && b[j] is Some);
    } else {
        let i = choose|i: int| 0 <= i < a.len() && #[trigger] a[i] is Some && a[i]->0 is Branch;
        assert(b[i] is Some);
    }
}

/// A branch at `depth` that holds the two distinct entries `(k0, v0)` and
/// `(key, value)`, with as many levels below it as the keys share nibbles.
fn split<V>(k0: usize, v0: V, key: usize, value: V, depth: usize) -> (r: Node<V>)
    requires
        k0 != key,
        agree(k0, key, depth as nat),
    ensures
        r.wf(depth as nat),
        r matches Node::Branch(ch) && compact(ch@),
        forall|k: usize| #[trigger] r.lookup(k, depth as nat) == if k == k0 {
            Some(v0)
        } else if k == key {
            Some(value)
        } else {
            None
        },
    decreases usize::BITS - 4 * depth,
{
    proof {
        if !depth_in_range(depth as nat) {
            lemma_agree_all(k0, key, depth as nat);
        }
    }
    let a = nibble_at(k0, depth);
    let b = nibble_at(key, depth);
    let mut ch: Vec<Option<Node<V>>> = empty_slots();
    if a != b {
        let ghost s0 = ch@;
        ch[a] = Some(Node::Leaf(k0, v0));
        ch[b] = Some(Node::Leaf(key, value));
        proof {
            assert(ch@ == s0.update(a as int, Some(Node::Leaf(k0, v0))).update(b as int, Some(Node::Leaf(key, value))));
            assert(ch@[a as int] is Some && ch@[b as int] is Some);
            if a < b {
                assert(two_occupied(ch@));
            } else {
                assert(two_occupied(ch@));
            }
            assert forall|i: int| 0 <= i < ch@.len() && #[trigger] ch@[i] is Some implies {
                &&& ch@[i]->0.wf(depth as nat + 1)
                &&& forall|k: usize| #[trigger] ch@[i]->0.lookup(k, depth as nat + 1) is Some ==> nibble(k, depth as nat) == i
            } by {
                assert(i == a || i == b);
            }
        }
        let r = Node::Branch(ch);
        proof {
            assert forall|k: usize| #[trigger] r.lookup(k, depth as nat) == if k == k0 {
                Some(v0)
            } else if k == key {
                Some(value)
            } else {
                None
            } by {
                let i = nibble(k, depth as nat) as int;
                if i != a && i != b {
                    assert(ch@[i] is None);
                } else if i == a {
                    assert(r.lookup(k, depth as nat) == Node::Leaf(k0, v0).lookup(k, depth as nat + 1));
                } else {
                    assert(r.lookup(k, depth as nat) == Node::Leaf(key, value).lookup(k, depth as nat + 1));
                }
            }
        }
        r
    } else {
        proof {
            lemma_agree_step(k0, key, depth as nat);
            if !depth_in_range(depth as nat + 1) {
                lemma_agree_all(k0, key, depth as nat + 1);
            }
        }
        let sub = split(k0, v0, key, value, depth + 1);
        let ghost s0 = ch@;
        ch[a] = Some(sub);
        proof {
            assert(ch@ == s0.update(a as int, Some(sub)));
            assert(ch@[a as int] is Some && ch@[a as int]->0 is Branch);
            assert(holds_branch(ch@));
            assert forall|k: usize| #[trigger] sub.lookup(k, depth as nat + 1) is Some implies nibble(k, depth as nat) == a by {
                assert(k == k0 || k == key);
            }
        }
        let r = Node::Branch(ch);
        proof {
            assert forall|k: usize| #[trigger] r.lookup(k, depth as nat) == if k == k0 {
                Some(v0)
            } else if k == key {
                Some(value)
            } else {
                None
            } by {
                let i = nibble(k, depth as nat) as int;
                if i != a {
                    assert(ch@[i] is None);
                    assert(k != k0 && k != key);
                } else {
                    assert(r.lookup(k, depth as nat) == sub.lookup(k, depth as nat + 1));
                }
            }
        }
        r
    }
}

/// Every key stored below `n` (at depth `d`) shares its first `d` nibbles with `key`.
pub open spec fn on_path<V>(n: Node<V>, key: usize, d: nat) -> bool {
    forall|k: usize| #[trigger] n.lookup(k, d) is Some ==> agree(k, key, d)
}

/// Sets `key` to `value` in the branch with slots `ch` at `depth`, returning
/// the value it replaced.
fn insert_in<V>(ch: &mut Vec<Option<Node<V>>>, key: usize, value: V, depth: usize) -> (r: Option<V>)
    requires
        Node::Branch(*old(ch)).wf(depth as nat),
        on_path(Node::Branch(*old(ch)), key, depth as nat),
    ensures
        Node::Branch(*final(ch)).wf(depth as nat),
        r == Node::Branch(*old(ch)).lookup(key, depth as nat),
        forall|k: usize| #[trigger] Node::Branch(*final(ch)).lookup(k, depth as nat) == if k == key {
            Some(value)
        } else {
            Node::Branch(*old(ch)).lookup(k, depth as nat)
        },
        final(ch)@.len() == old(ch)@.len(),
        forall|i: int| 0 <= i < old(ch)@.len() && #[trigger] old(ch)@[i] is Some ==> final(ch)@[i] is Some,
        forall|i: int| 0 <= i < old(ch)@.len() && #[trigger] old(ch)@[i] is Some && old(ch)@[i]->0 is Branch
            ==> final(ch)@[i] is Some && final(ch)@[i]->0 is Branch,
    decreases usize::BITS - 4 * depth,
{
    let ghost d = depth as nat;
    let ghost before = Node::Branch(*ch);
    let i = nibble_at(key, depth);
    let slot = ch[i].take();
    let ghost s0 = ch@;
    let ghost old_child = slot;
    let (child, r) = match slot {
        None => (Node::Leaf(key, value), None),
        Some(Node::Leaf(k0, v0)) => {
            if k0 == key {
                (Node::Leaf(k0, value), Some(v0))
            } else {
                proof {
                    assert(Node::Leaf(k0, v0).lookup(k0, d + 1) is Some);
                    assert(before.lookup(k0, d) is Some);
                    lemma_agree_step(k0, key, d);
                }
                (split(k0, v0, key, value, depth + 1), None)
            }
        },
        Some(Node::Branch(mut sub)) => {
            proof {
                let sb = Node::Branch(sub);
                assert forall|k: usize| #[trigger] sb.lookup(k, d + 1) is Some implies agree(k, key, d + 1) by {
                    assert(before.lookup(k, d) is Some);
                    lemma_agree_step(k, key, d);
                }
            }
            let r = insert_in(&mut sub, key, value, depth + 1);
            (Node::Branch(sub), r)
        },
    };
    ch[i] = Some(child);
    proof {
        let after = Node::Branch(*ch);
        assert(ch@ == s0.update(i as int, Some(child)));
        assert(before.lookup(key, d) == match old_child { Some(c) => c.lookup(key, d + 1), None => None });
        assert forall|k: usize| #[trigger] child.lookup(k, d + 1) is Some implies nibble(k, d) == i by {
            if k != key {
                assert(old_child is Some && old_child->0.lookup(k, d + 1) is Some);
            }
        }
        assert forall|j: int| 0 <= j < ch@.len() && #[trigger] ch@[j] is Some implies {
            &&& ch@[j]->0.wf(d + 1)
            &&& forall|k: usize| #[trigger] ch@[j]->0.lookup(k, d + 1) is Some ==> nibble(k, d) == j
        } by {
            if j != i {
                assert(ch@[j] == old(ch)@[j]);
            }
        }
        if d > 0 {
            lemma_compact_kept(old(ch)@, ch@);
        }
        assert forall|k: usize| #[trigger] after.lookup(k, d) == if k == key {
            Some(value)
        } else {
            before.lookup(k, d)
        } by {
            let j = nibble(k, d) as int;
            if j != i {
                assert(ch@[j] == old(ch)@[j]);
            } else {
                assert(after.lookup(k, d) == child.lookup(k, d + 1));
                if k != key {
                    match old_child {
                        Some(c) => {
                            assert(before.lookup(k, d) == c.lookup(k, d + 1));
                        },
                        None => {},
                    }
                }
            }
        }
    }
    r
}

/// The slots `ch` form a well-formed branch at depth `d`, compact or not.
pub open spec fn slots_ok<V>(ch: Seq<Option<Node<V>>>, d: nat) -> bool {
    &&& ch.len() == FANOUT
    &&& depth_in_range(d)
    &&& forall|i: int| 0 <= i < ch.len() && #[trigger] ch[i] is Some ==> {
        &&& ch[i]->0.wf(d + 1)
        &&& forall|k: usize| #[trigger] ch[i]->0.lookup(k, d + 1) is Some ==> nibble(k, d) == i
    }
}

/// What a descent for `k` at depth `d` finds in a slot.
pub open spec fn slot_lookup<V>(o: Option<Node<V>>, k: usize, d: nat) -> Option<V> {
    match o {
        Some(n) => n.lookup(k, d),
        None => None,
    }
}

/// Some slot is occupied.
pub open spec fn occupied<V>(ch: Seq<Option<Node<V>>>) -> bool {
    exists|i: int| 0 <= i < ch.len() && #[trigger] ch[i] is Some
}

/// The branch with slots `ch` at `depth` (below the root), or the single
/// leaf it holds when that leaf is all it holds.
fn collapse<V>(ch: Vec<Option<Node<V>>>, depth: usize) -> (r: Node<V>)
    requires
        depth > 0,
        slots_ok(ch@, depth as nat),
        occupied(ch@),
    ensures
        r.wf(depth as nat),
        forall|k: usize| #[trigger] r.lookup(k, depth as nat) == Node::Branch(ch).lookup(k, depth as nat),
{
    let ghost d = depth as nat;
    let mut found: Option<usize> = None;
    let mut many = false;
    let mut i: usize = 0;
    while i < FANOUT
        invariant
            ch@.len() == FANOUT,
            i <= FANOUT,
            found matches Some(f) ==> f < i && ch@[f as int] is Some,
            found is None ==> forall|j: int| 0 <= j < i ==> #[trigger] ch@[j] is None,
            !many && found is Some ==> forall|j: int| 0 <= j < i && j != found->0 ==> #[trigger] ch@[j] is None,
            many ==> two_occupied(ch@),
        decreases FANOUT - i,
    {
        if ch[i].is_some() {
            match found {
                None => {
                    found = Some(i);
                },
                Some(f) => {
                    assert(ch@[f as int] is Some && ch@[i as int] is Some);
                    many = true;
                },
            }
        }
        i = i + 1;
    }
    let ghost whole = Node::Branch(ch);
    if many {
        return Node::Branch(ch);
    }
    match found {
        None => {
            proof {
                let j = choose|j: int| 0 <= j < ch@.len() && #[trigger] ch@[j] is Some;
                assert(ch@[j] is None);
            }
            Node::Branch(ch)
        },
        Some(f) => {
            let is_leaf = match &ch[f] {
                Some(Node::Leaf(_, _)) => true,
                _ => false,
            };
            if !is_leaf {
                assert(holds_branch(ch@)) by {
                    assert(ch@[f as int] is Some);
                }
                return Node::Branch(ch);
            }
            let mut ch = ch;
            let ghost s0 = ch@;
            let leaf = ch[f].take();
            match leaf {
                Some(n) => {
                    proof {
                        assert(n == s0[f as int]->0);
                        assert forall|k: usize| #[trigger] n.lookup(k, d) == whole.lookup(k, d) by {
                            let j = nibble(k, d) as int;
                            if n.lookup(k, d) is Some {
                                assert(n.lookup(k, d + 1) is Some);
                            }
                            if j != f {
                                assert(s0[j] is None);
                            } else {
                                assert(whole.lookup(k, d) == n.lookup(k, d + 1));
                            }
                        }
                    }
                    n
                },
                None => Node::Branch(ch),
            }
        },
    }
}

/// Removes `key` from the branch with slots `ch` at `depth`, returning the
/// value it held, and collapses each branch below that is left holding a
/// single leaf into that leaf.
fn remove_in<V>(ch: &mut Vec<Option<Node<V>>>, key: usize, depth: usize) -> (r: Option<V>)
    requires
        Node::Branch(*old(ch)).wf(depth as nat),
    ensures
        slots_ok(final(ch)@, depth as nat),
        depth > 0 ==> occupied(final(ch)@),
        r == Node::Branch(*old(ch)).lookup(key, depth as nat),
        forall|k: usize| #[trigger] Node::Branch(*final(ch)).lookup(k, depth as nat) == if k == key {
            None
        } else {
            Node::Branch(*old(ch)).lookup(k, depth as nat)
        },
    decreases usize::BITS - 4 * depth,
{
    let ghost d = depth as nat;
    let ghost before = Node::Branch(*ch);
    let i = nibble_at(key, depth);
    let slot = ch[i].take();
    let ghost s0 = ch@;
    let ghost old_child = slot;
    let (child, r): (Option<Node<V>>, Option<V>) = match slot {
        None => (None, None),
        Some(Node::Leaf(k0, v0)) => {
            if k0 == key {
                proof {
                    assert forall|k: usize| k != key implies #[trigger] slot_lookup(old_child, k, d + 1) is None by {
                        assert(Node::Leaf(k0, v0).lookup(k, d + 1) is None);
                    }
                }
                (None, Some(v0))
            } else {
                (Some(Node::Leaf(k0, v0)), None)
            }
        },
        Some(Node::Branch(mut sub)) => {
            let ghost sb = Node::Branch(sub);
            let r = remove_in(&mut sub, key, depth + 1);
            let c = collapse(sub, depth + 1);
            proof {
                assert forall|k: usize| #[trigger] c.lookup(k, d + 1) == if k == key {
                    None
                } else {
                    sb.lookup(k, d + 1)
                } by {}
            }
            (Some(c), r)
        },
    };
    proof {
        assert forall|k: usize| #[trigger] slot_lookup(child, k, d + 1) == if k == key {
            None
        } else {
            slot_lookup(old_child, k, d + 1)
        } by {}
    }
    ch[i] = child;
    proof {
        let after = Node::Branch(*ch);
        assert(ch@ == s0.update(i as int, child));
        assert(before.lookup(key, d) == match old_child { Some(c) => c.lookup(key, d + 1), None => None });
        assert forall|j: int| 0 <= j < ch@.len() && #[trigger] ch@[j] is Some implies {
            &&& ch@[j]->0.wf(d + 1)
            &&& forall|k: usize| #[trigger] ch@[j]->0.lookup(k, d + 1) is Some ==> nibble(k, d) == j
        } by {
            if j != i {
                assert(ch@[j] == old(ch)@[j]);
            } else {
                assert forall|k: usize| #[trigger] ch@[j]->0.lookup(k, d + 1) is Some implies nibble(k, d) == j by {
                    assert(old_child is Some && old_child->0.lookup(k, d + 1) is Some);
                }
            }
        }
        if d > 0 {
            if two_occupied(old(ch)@) {
                let (a, b) = choose|a: int, b: int| 0 <= a < b < old(ch)@.len() && #[trigger] old(ch)@[a] is Some
                    && #[trigger] old(ch)@[b] is Some;
                if a != i {
                    assert(ch@[a] is Some);
                } else {
                    assert(ch@[b] is Some);
                }
            } else {
                let a = choose|a: int| 0 <= a < old(ch)@.len() && #[trigger] old(ch)@[a] is Some && old(ch)@[a]->0 is Branch;
                assert(ch@[a] is Some);
            }
        }
        assert forall|k: usize| #[trigger] after.lookup(k, d) == if k == key {
            None
        } else {
            before.lookup(k, d)
        } by {
            let j = nibble(k, d) as int;
            if j != i {
                assert(ch@[j] == old(ch)@[j]);
            } else {
                assert(after.lookup(k, d) == slot_lookup(child, k, d + 1));
                assert(before.lookup(k, d) == slot_lookup(old_child, k, d + 1));
            }
        }
    }
    r
}

/// `b` is `a` with the value under `key` (present in `a`) replaced by `x`,
/// and nothing else changed.
pub open spec fn value_set<V>(a: Node<V>, b: Node<V>, key: usize, x: V, d: nat) -> bool
    decreases a,
{
    match (a, b) {
        (Node::Leaf(ka, _), Node::Leaf(kb, y)) => ka == key && kb == key && y == x,
        (Node::Branch(sa), Node::Branch(sb)) => {
            let i = nibble(key, d) as int;
            &&& i < sa@.len()
            &&& sb@ == sa@.update(i, sb@[i])
            &&& sa@[i] is Some
            &&& sb@[i] is Some
            &&& value_set(sa@[i]->0, sb@[i]->0, key, x, d + 1)
        },
        _ => false,
    }
}

/// Replacing one value keeps the trie well formed, and changes what a
/// descent finds for that key alone.
proof fn lemma_value_set<V>(a: Node<V>, b: Node<V>, key: usize, x: V, d: nat)
    requires
        a.wf(d),
        value_set(a, b, key, x, d),
    ensures
        b.wf(d),
        a is Branch <==> b is Branch,
        forall|k: usize| #[trigger] b.lookup(k, d) == if k == key { Some(x) } else { a.lookup(k, d) },
    decreases a,
{
    match (a, b) {
        (Node::Branch(sa), Node::Branch(sb)) => {
            let i = nibble(key, d) as int;
            let ca = sa@[i]->0;
            let cb = sb@[i]->0;
            lemma_value_set(ca, cb, key, x, d + 1);
            assert forall|j: int| 0 <= j < sb@.len() && #[trigger] sb@[j] is Some implies {
                &&& sb@[j]->0.wf(d + 1)
                &&& forall|k: usize| #[trigger] sb@[j]->0.lookup(k, d + 1) is Some ==> nibble(k, d) == j
            } by {
                if j == i {
                    assert forall|k: usize| #[trigger] cb.lookup(k, d + 1) is Some implies nibble(k, d) == j by {
                        if k != key {
                            assert(ca.lookup(k, d + 1) is Some);
                        } else {
                            assert(ca.lookup(key, d + 1) is Some) by {
                                lemma_value_set_found(ca, cb, key, x, d + 1);
                            }
                        }
                    }
                } else {
                    assert(sb@[j] == sa@[j]);
                }
            }
            if d > 0 {
                lemma_compact_kept(sa@, sb@);
            }
            assert forall|k: usize| #[trigger] b.lookup(k, d) == if k == key { Some(x) } else { a.lookup(k, d) } by {
                let j = nibble(k, d) as int;
                if j != i {
                    assert(sb@[j] == sa@[j]);
                    if k == key {
                        assert(false);
                    }
                } else {
                    assert(b.lookup(k, d) == cb.lookup(k, d + 1));
                    assert(a.lookup(k, d) == ca.lookup(k, d + 1));
                }
            }
        },
        _ => {},
    }
}

/// The key whose value is replaced was present.
proof fn lemma_value_set_found<V>(a: Node<V>, b: Node<V>, key: usize, x: V, d: nat)
    requires
        value_set(a, b, key, x, d),
    ensures
        a.lookup(key, d) is Some,
    decreases a,
{
    match (a, b) {
        (Node::Branch(sa), Node::Branch(sb)) => {
            let i = nibble(key, d) as int;
            lemma_value_set_found(sa@[i]->0, sb@[i]->0, key, x, d + 1);
        },
        _ => {},
    }
}

/// A mutable borrow of the value under `key` in the branch with slots `ch`
/// at `depth`; the branch keeps its keys whatever is written through it.
fn get_mut_in<'a, V>(ch: &'a mut Vec<Option<Node<V>>>, key: usize, depth: usize) -> (r: Option<&'a mut V>)
    requires
        Node::Branch(*old(ch)).wf(depth as nat),
        Node::Branch(*old(ch)).lookup(key, depth as nat) is Some,
    ensures
        r matches Some(v) && *v == Node::Branch(*old(ch)).lookup(key, depth as nat)->0
            && value_set(Node::Branch(*old(ch)), Node::Branch(*final(ch)), key, *final(v), depth as nat),
    decreases usize::BITS - 4 * depth,
{
    let ghost before = Node::Branch(*ch);
    let ghost start = *ch;
    let ghost fin = *final(ch);
    let i = nibble_at(key, depth);
    let slot = &mut ch[i];
    let ghost fslot = *final(slot);
    assert(fin@ == start@.update(i as int, fslot));
    match slot {
        None => {
            assert(before.lookup(key, depth as nat) is None);
            None
        },
        Some(Node::Leaf(k0, v0)) => {
            assert(before.lookup(key, depth as nat) == Node::Leaf(*k0, *v0).lookup(key, depth as nat + 1));
            assert(fslot == Some(Node::Leaf(*k0, *final(v0))));
            assert(*k0 == key);
            assert(fin@[i as int] == fslot);
            assert(value_set(Node::Leaf(*k0, *v0), Node::Leaf(*k0, *final(v0)), key, *final(v0), depth as nat + 1));
            assert(value_set(before, Node::Branch(fin), key, *final(v0), depth as nat));
            Some(v0)
        },
        Some(Node::Branch(sub)) => {
            let ghost fsub = *final(sub);
            let ghost osub = *sub;
            assert(fslot == Some(Node::Branch(fsub)));
            let r = get_mut_in(sub, key, depth + 1);
            assert(value_set(Node::Branch(osub), Node::Branch(fsub), key, *final(r->0), depth as nat + 1));
            assert(value_set(before, Node::Branch(fin), key, *final(r->0), depth as nat));
            r
        },
    }
}

/// A map from `usize` keys to values of type `V`.
pub struct Trie<V> {
    root: Node<V>,
    size: usize,
}

impl<V> View for Trie<V> {
    type V = Map<usize, V>;

    /// The entries stored: each key whose descent from the root ends at a leaf
    /// holding that key.
    closed spec fn view(&self) -> Map<usize, V> {
        Map::new(|k: usize| self.root.lookup(k, 0) is Some, |k: usize| self.root.lookup(k, 0)->0)
    }
}

impl<V> Trie<V> {
    /// The root is a well-formed branch, the map it holds is finite and the
    /// stored count is its size.
    pub closed spec fn wf(&self) -> bool {
        &&& self.root is Branch
        &&& self.root.wf(0)
        &&& self@.dom().finite()
        &&& self.size == self@.len()
    }

    /// An empty trie.
    pub fn new() -> (r: Trie<V>)
        ensures
            r.wf(),
            r@ == Map::<usize, V>::empty(),
    {
        let root = Node::empty16();
        let r = Trie { root, size: 0 };
        assert(r@ =~= Map::<usize, V>::empty());
        r
    }

    /// The number of entries.
    pub fn len(&self) -> (r: usize)
        requires
            self.wf(),
        ensures
            r == self@.len(),
    {
        self.size
    }

    /// Stores `value` under `key`, returning the value it replaced. The count
    /// grows by one when the key is new.
    pub fn insert(&mut self, key: usize, value: V) -> (r: Option<V>)
        requires
            old(self).wf(),
            old(self)@.contains_key(key) || old(self)@.len() < usize::MAX,
        ensures
            final(self).wf(),
            final(self)@ == old(self)@.insert(key, value),
            r == (if old(self)@.contains_key(key) { Some(old(self)@[key]) } else { None }),
            final(self)@.len() == old(self)@.len() + (if r is None { 1int } else { 0int }),
    {
        let ghost before = self.root;
        let r = match &mut self.root {
            Node::Branch(ch) => {
                proof {
                    assert forall|k: usize| #[trigger] before.lookup(k, 0) is Some implies agree(k, key, 0) by {}
                }
                insert_in(ch, key, value, 0)
            },
            Node::Leaf(_, _) => None,
        };
        if r.is_none() {
            self.size = self.size + 1;
        }
        proof {
            assert(self@ =~= old(self)@.insert(key, value));
        }
        r
    }

    /// Removes `key`, returning the value it held. The count shrinks by one
    /// when the key was present.
    pub fn remove(&mut self, key: usize) -> (r: Option<V>)
        requires
            old(self).wf(),
        ensures
            final(self).wf(),
            final(self)@ == old(self)@.remove(key),
            r == (if old(self)@.contains_key(key) { Some(old(self)@[key]) } else { None }),
            final(self)@.len() == old(self)@.len() - (if r is Some { 1int } else { 0int }),
    {
        let r = match &mut self.root {
            Node::Branch(ch) => remove_in(ch, key, 0),
            Node::Leaf(_, _) => None,
        };
        proof {
            assert(self@ =~= old(self)@.remove(key));
        }
        if r.is_some() {
            self.size = self.size - 1;
        }
        r
    }

    /// A mutable borrow of the value stored under `key`, if any. What is
    /// written through it becomes the value under `key`; nothing else changes.
    pub fn get_mut(&mut self, key: usize) -> (r: Option<&mut V>)
        requires
            old(self).wf(),
        ensures
            r is Some <==> old(self)@.contains_key(key),
            r is None ==> *final(self) == *old(self),
            r matches Some(v) ==> {
                &&& *v == old(self)@[key]
                &&& final(self).wf()
                &&& final(self)@ == old(self)@.insert(key, *final(v))
            },
    {
        if self.get(key).is_none() {
            return None;
        }
        let ghost before = self.root;
        let ghost fin = *final(self);
        let r = match &mut self.root {
            Node::Branch(ch) => get_mut_in(ch, key, 0),
            Node::Leaf(_, _) => None,
        };
        proof {
            lemma_value_set(before, fin.root, key, *final(r->0), 0);
            assert(fin@ =~= old(self)@.insert(key, *final(r->0)));
        }
        r
    }

    /// The dump of the node structure below the root.
    pub closed spec fn structure(&self) -> Seq<char> {
        dumped(self.root)
    }

    /// A dump of the trie for debugging: its count, then its nodes, each
    /// branch as `N16(` with its slots and each leaf as its key.
    pub fn dump(&self) -> (r: String)
        requires
            self.wf(),
        ensures
            r@ == "Trie { size: "@ + decimal(self@.len()) + ", root: "@ + self.structure() + " }"@,
    {
        let mut out = String::new();
        out.append("Trie { size: ");
        append_decimal(&mut out, self.size);
        out.append(", root: ");
        append_node(&self.root, &mut out);
        out.append(" }");
        proof {
            reveal_strlit("Trie { size: ");
            reveal_strlit(", root: ");
            reveal_strlit(" }");
            assert(out@ =~= "Trie { size: "@ + decimal(self@.len()) + ", root: "@ + self.structure() + " }"@);
        }
        out
    }

    /// The value stored under `key`, if any.
    pub fn get(&self, key: usize) -> (r: Option<&V>)
        requires
            self.wf(),
        ensures
            r is Some <==> self@.contains_key(key),
            r matches Some(v) ==> *v == self@[key],
    {
        let mut cur: &Node<V> = &self.root;
        let mut depth: usize = 0;
        loop
            invariant
                cur.wf(depth as nat),
                cur.lookup(key, depth as nat) == self.root.lookup(key, 0),
                4 * depth < usize::BITS + 4,
            decreases usize::BITS + 4 - 4 * depth,
        {
            match cur {
                Node::Branch(ch) => {
                    let i = nibble_at(key, depth);
                    match &ch[i] {
                        Some(c) => {
                            cur = c;
                            depth = depth + 1;
                        },
                        None => {
                            return None;
                        },
                    }
                },
                Node::Leaf(k, v) => {
                    if *k == key {
                        return Some(v);
                    } else {
                        return None;
                    }
                },
            }
        }
    }
}

} // verus!
