//! A textual dump of a trie's structure, for debugging: a branch shows as
//! `N16(` followed by each of its slots and `)` with a line break; an occupied
//! slot shows its node and a comma, an empty one `o,`; a leaf shows its key in
//! decimal.

use vstd::prelude::*;
use vstd::string::*;
use crate::key::FANOUT;
use crate::trie::Node;

verus! {

/// The decimal digit character for `d < 10`.
pub open spec fn digit_char(d: nat) -> char {
    if d == 0 { '0' } else if d == 1 { '1' } else if d == 2 { '2' } else if d == 3 { '3' }
    else if d == 4 { '4' } else if d == 5 { '5' } else if d == 6 { '6' } else if d == 7 { '7' }
    else if d == 8 { '8' } else { '9' }
}

/// `k` written in decimal, without leading zeros.
pub open spec fn decimal(k: nat) -> Seq<char>
    decreases k,
{
    if k < 10 {
        seq![digit_char(k)]
    } else {
        decimal(k / 10).push(digit_char(k % 10))
    }
}

/// The dump of `n`, cut after its first `i` slots when `n` is a branch and
/// `i <= FANOUT`; the whole dump for any larger `i`.
pub open spec fn shown<V>(n: Node<V>, i: nat) -> Seq<char>
    decreases n, i,
{
    match n {
        Node::Leaf(k, _) => decimal(k as nat),
        Node::Branch(ch) => {
            if i == 0 {
                seq!['N', '1', '6', '(']
            } else if i <= FANOUT {
                let j = (i - 1) as int;
                if j < ch@.len() && ch@[j] is Some {
                    shown(n, (i - 1) as nat) + shown(ch@[j]->0, (FANOUT + 1) as nat) + seq![',']
                } else {
                    shown(n, (i - 1) as nat) + seq!['o', ',']
                }
            } else {
                shown(n, FANOUT as nat) + seq![')', '\n']
            }
        },
    }
}

/// The whole dump of `n`.
pub open spec fn dumped<V>(n: Node<V>) -> Seq<char> {
    shown(n, (FANOUT + 1) as nat)
}

/// The text of one decimal digit.
fn digit_text(d: usize) -> (r: &'static str)
    requires
        d < 10,
    ensures
        r@ == seq![digit_char(d as nat)],
{
    proof {
        reveal_strlit("0");
        reveal_strlit("1");
        reveal_strlit("2");
        reveal_strlit("3");
        reveal_strlit("4");
        reveal_strlit("5");
        reveal_strlit("6");
        reveal_strlit("7");
        reveal_strlit("8");
        reveal_strlit("9");
    }
    match d {
        0 => "0",
        1 => "1",
        2 => "2",
        3 => "3",
        4 => "4",
        5 => "5",
        6 => "6",
        7 => "7",
        8 => "8",
        _ => "9",
    }
}

/// Appends `k` in decimal to `out`.
pub fn append_decimal(out: &mut String, k: usize)
    ensures
        final(out)@ == old(out)@ + decimal(k as nat),
    decreases k,
{
    if k >= 10 {
        append_decimal(out, k / 10);
    }
    out.append(digit_text(k % 10));
    proof {
        if k >= 10 {
            assert(old(out)@ + decimal(k as nat) =~= old(out)@ + decimal((k / 10) as nat) + seq![
                digit_char((k % 10) as nat),
            ]);
        }
    }
}

/// Appends the dump of `n` to `out`.
pub fn append_node<V>(n: &Node<V>, out: &mut String)
    ensures
        final(out)@ == old(out)@ + dumped(*n),
    decreases n,
{
    match n {
        Node::Leaf(k, _) => {
            append_decimal(out, *k);
        },
        Node::Branch(ch) => {
            let ghost start = out@;
            proof {
                reveal_strlit("N16(");
            }
            out.append("N16(");
            let len = ch.len();
            let mut i: usize = 0;
            while i < FANOUT
                invariant
                    i <= FANOUT,
                    len == ch@.len(),
                    *n == Node::Branch(*ch),
                    out@ == start + shown(*n, i as nat),
                decreases FANOUT - i,
            {
                let ghost before = out@;
                let ghost next = (i + 1) as nat;
                proof {
                    reveal_strlit("o,");
                    reveal_strlit(",");
                }
                if i < len {
                    match &ch[i] {
                        Some(c) => {
                            proof {
                                assert(decreases_to!(*n => *c)) by {
                                    assert(decreases_to!(*n => *ch));
                                    assert(decreases_to!(*ch => ch@));
                                    assert(decreases_to!(ch@ => ch@[i as int]));
                                    assert(decreases_to!(ch@[i as int] => ch@[i as int]->0));
                                    assert(ch@[i as int]->0 == *c);
                                }
                            }
                            append_node(c, out);
                            out.append(",");
                            proof {
                                assert(shown(*n, next) == shown(*n, i as nat) + dumped(*c) + seq![',']);
                            }
                        },
                        None => {
                            out.append("o,");
                            proof {
                                assert(shown(*n, next) == shown(*n, i as nat) + seq!['o', ',']);
                            }
                        },
                    }
                } else {
                    out.append("o,");
                    proof {
                        assert(shown(*n, next) == shown(*n, i as nat) + seq!['o', ',']);
                    }
                }
                i = i + 1;
                proof {
                    assert(out@ =~= start + shown(*n, i as nat));
                }
            }
            out.append(")\n");
            proof {
                reveal_strlit(")\n");
                assert(out@ =~= start + dumped(*n));
            }
        },
    }
}

} // verus!
