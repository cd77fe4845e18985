use vstd::prelude::*;
use super::tree::Node;
use crate::io::{msb_bits, lemma_msb_bits_step, lemma_msb_bits_len};

verus! {

/// The bits a code-table entry stands for: the top `len` bits of the packed
/// 64-bit code.
pub open spec fn code_bits(entry: (u64, u8)) -> Seq<bool> {
    msb_bits((entry.0 >> ((64 - entry.1) as u64)) as nat, entry.1 as nat)
}

/// The bits of a code-table entry below its code are all zero: the entry
/// is the code shifted into the top bits.
pub open spec fn low_bits_clear(entry: (u64, u8)) -> bool {
    entry.0 == (entry.0 >> ((64 - entry.1) as u64)) << ((64 - entry.1) as u64)
}

/// The code of a symbol in a tree: its path from the root, or a single zero
/// bit when the root itself is the leaf.
pub open spec fn symbol_code(t: Node, s: u8) -> Seq<bool> {
    if t.path(s).len() == 0 {
        seq![false]
    } else {
        t.path(s)
    }
}

/// A path to a leaf is no longer than the tree is high.
pub proof fn lemma_path_len(t: Node, s: u8)
    requires
        t.wf(),
        t.leaves().contains(s),
    ensures
        t.path(s).len() <= t.height(),
    decreases t,
{
    if let (Some(l), Some(r)) = (t.left, t.right) {
        if l.leaves().contains(s) {
            lemma_path_len(*l, s);
        } else {
            assert(r.leaves().contains(s)) by {
                let k = choose|k: int| 0 <= k < t.leaves().len() && #[trigger] t.leaves()[k] == s;
                if k >= l.leaves().len() {
                    assert(r.leaves()[k - l.leaves().len()] == s);
                } else {
                    assert(l.leaves()[k] == s);
                }
            }
            lemma_path_len(*r, s);
        }
    }
}

/// The leaves of the two subtrees of a tree without repeated symbols are
/// disjoint and themselves without repetition.
pub proof fn lemma_children_distinct(t: Node)
    requires
        t.wf(),
        t.leaves().no_duplicates(),
        t.left is Some,
    ensures
        t.left->0.leaves().no_duplicates(),
        t.right->0.leaves().no_duplicates(),
        forall|s: u8| t.left->0.leaves().contains(s) ==> !t.right->0.leaves().contains(s),
        forall|s: u8| #[trigger] t.leaves().contains(s) <==> (t.left->0.leaves().contains(s) || t.right->0.leaves().contains(s)),
{
    let l = t.left->0.leaves();
    let r = t.right->0.leaves();
    assert(t.leaves() == l + r);
    assert forall|i: int, j: int| 0 <= i < l.len() && 0 <= j < l.len() && i != j implies l[i] != l[j] by {
        assert((l + r)[i] == l[i] && (l + r)[j] == l[j]);
    }
    assert forall|i: int, j: int| 0 <= i < r.len() && 0 <= j < r.len() && i != j implies r[i] != r[j] by {
        assert((l + r)[i + l.len()] == r[i] && (l + r)[j + l.len()] == r[j]);
    }
    assert forall|s: u8| l.contains(s) implies !r.contains(s) by {
        let i = choose|i: int| 0 <= i < l.len() && #[trigger] l[i] == s;
        if r.contains(s) {
            let j = choose|j: int| 0 <= j < r.len() && #[trigger] r[j] == s;
            assert((l + r)[i] == (l + r)[j + l.len()]);
        }
    }
    assert forall|s: u8| #[trigger] (l + r).contains(s) <==> (l.contains(s) || r.contains(s)) by {
        if (l + r).contains(s) {
            let k = choose|k: int| 0 <= k < (l + r).len() && #[trigger] (l + r)[k] == s;
            if k < l.len() {
                assert(l[k] == s);
            } else {
                assert(r[k - l.len()] == s);
            }
        }
        if l.contains(s) {
            let i = choose|i: int| 0 <= i < l.len() && #[trigger] l[i] == s;
            assert((l + r)[i] == s);
        }
        if r.contains(s) {
            let j = choose|j: int| 0 <= j < r.len() && #[trigger] r[j] == s;
            assert((l + r)[j + l.len()] == s);
        }
    }
}

proof fn lemma_pack(c: u64, l: u64, k: u64)
    requires
        1 <= l <= 64,
        k == 64 - l,
        l < 64 ==> c < (1u64 << l),
    ensures
        (c << k) >> k == c,
        ((c << k) >> k) << k == c << k,
{
    assert(((c << k) >> k) << k == c << k) by (bit_vector)
        requires
            k < 64,
    ;
    assert((c << k) >> k == c) by (bit_vector)
        requires
            1 <= l <= 64,
            k == 64 - l,
            l < 64 ==> c < (1u64 << l),
    ;
}

proof fn lemma_shift_in(c: u64, l: u64)
    requires
        l < 64,
        c < (1u64 << l),
    ensures
        (c << 1u64) == c * 2,
        ((c << 1u64) | 1u64) == c * 2 + 1,
        l + 1 < 64 ==> (c << 1u64) < (1u64 << (l + 1)),
        l + 1 < 64 ==> ((c << 1u64) | 1u64) < (1u64 << (l + 1)),
{
    assert((c << 1u64) == c * 2 && ((c << 1u64) | 1u64) == c * 2 + 1 && (l + 1 < 64 ==> (c << 1u64)
        < (1u64 << (l + 1))) && (l + 1 < 64 ==> ((c << 1u64) | 1u64) < (1u64 << (l + 1))))
        by (bit_vector)
        requires
            l < 64,
            c < (1u64 << l),
    ;
}

/// The code table of a tree: for every symbol, its code packed into the top
/// bits of a `u64`, with the code length; `(0, 0)` for symbols not in the tree.
pub fn generate_code_table(root: &Node) -> (table: [(u64, u8); 256])
    requires
        root.wf(),
        root.leaves().no_duplicates(),
        root.height() <= 64,
    ensures
        forall|s: u8|
            #[trigger] root.leaves().contains(s) ==> 1 <= table@[s as int].1 <= 64
                && code_bits(table@[s as int]) == symbol_code(*root, s) && low_bits_clear(table@[s as int]),
        forall|s: u8| !(#[trigger] root.leaves().contains(s)) ==> table@[s as int] == (0u64, 0u8),
{
    let mut table = [(0u64, 0u8); 256];
    proof {
        assert(0u64 < (1u64 << 0u64)) by (bit_vector);
    }
    walk(&mut table, root, 0u64, 0u8);
    proof {
        assert forall|s: u8| #[trigger] root.leaves().contains(s) implies 1 <= table@[s as int].1 <= 64
            && code_bits(table@[s as int]) == symbol_code(*root, s) && low_bits_clear(table@[s as int]) by {
            lemma_path_len(*root, s);
            assert(msb_bits(0, 0) =~= Seq::<bool>::empty());
            assert(Seq::<bool>::empty() + root.path(s) =~= root.path(s));
        }
    }
    table
}

fn walk(table: &mut [(u64, u8); 256], node: &Node, curr_bits: u64, curr_len: u8)
    requires
        node.wf(),
        node.leaves().no_duplicates(),
        curr_len + node.height() <= 64,
        curr_len < 64 ==> curr_bits < (1u64 << curr_len as u64),
    ensures
        forall|s: u8|
            #[trigger] node.leaves().contains(s) ==> {
                let total = curr_len + node.path(s).len();
                &&& final(table)@[s as int].1 == (if total == 0 { 1 } else { total })
                &&& low_bits_clear(final(table)@[s as int])
                &&& code_bits(final(table)@[s as int]) == (if total == 0 {
                    seq![false]
                } else {
                    msb_bits(curr_bits as nat, curr_len as nat) + node.path(s)
                })
            },
        forall|s: u8| !(#[trigger] node.leaves().contains(s)) ==> final(table)@[s as int] == old(table)@[s as int],
    decreases node,
{
    if is_leaf(node) {
        let sym = match node.symbol {
            Some(s) => s,
            None => 0,
        };
        let effective_len: u8 = if curr_len == 0 { 1 } else { curr_len };
        let packed = curr_bits << ((64 - effective_len) as u64);
        proof {
            if curr_len == 0 {
                assert(curr_bits == 0) by (bit_vector)
                    requires curr_bits < (1u64 << 0u64);
                assert(packed == 0) by (bit_vector)
                    requires packed == 0u64 << 63u64;
                assert(packed >> 63u64 == 0) by (bit_vector)
                    requires packed == 0;
                assert((packed >> 63u64) << 63u64 == packed) by (bit_vector)
                    requires packed == 0;
                assert(msb_bits(0, 1) =~= seq![false]) by {
                    reveal_with_fuel(msb_bits, 2);
                }
            } else {
                lemma_pack(curr_bits, curr_len as u64, (64 - effective_len) as u64);
            }
            assert(node.leaves() =~= seq![sym]);
            assert(node.path(sym) =~= Seq::<bool>::empty());
            assert(msb_bits(curr_bits as nat, curr_len as nat) + Seq::<bool>::empty() =~= msb_bits(
                curr_bits as nat,
                curr_len as nat,
            ));
        }
        table[sym as usize] = (packed, effective_len);
        proof {
            assert forall|s: u8| !(#[trigger] node.leaves().contains(s)) implies table@[s as int]
                == old(table)@[s as int] by {
                assert(s != sym) by {
                    assert(node.leaves()[0] == sym);
                }
            }
        }
        return ;
    } else {
        proof {
            lemma_children_distinct(*node);
        }
        match (&node.left, &node.right) {
            (Some(left_node), Some(right_node)) => {
                proof {
                    lemma_shift_in(curr_bits, curr_len as u64);
                    lemma_msb_bits_step(curr_bits as nat, curr_len as nat, false);
                    lemma_msb_bits_step(curr_bits as nat, curr_len as nat, true);
                }
                let ghost t0 = *old(table);
                walk(table, left_node, curr_bits << 1, curr_len + 1);
                let ghost t1 = *table;
                walk(table, right_node, (curr_bits << 1) | 1, curr_len + 1);
                proof {
                    let lb = msb_bits(curr_bits as nat, curr_len as nat);
                    assert forall|s: u8| #[trigger] node.leaves().contains(s) implies {
                        let total = curr_len + node.path(s).len();
                        &&& table@[s as int].1 == (if total == 0 { 1 } else { total })
                        &&& low_bits_clear(table@[s as int])
                        &&& code_bits(table@[s as int]) == (if total == 0 {
                            seq![false]
                        } else {
                            lb + node.path(s)
                        })
                    } by {
                        if left_node.leaves().contains(s) {
                            assert(node.path(s) == seq![false] + left_node.path(s));
                            assert(lb.push(false) + left_node.path(s) =~= lb + node.path(s));
                        } else {
                            assert(node.path(s) == seq![true] + right_node.path(s));
                            assert(lb.push(true) + right_node.path(s) =~= lb + node.path(s));
                        }
                    }
                }
            },
            _ => {},
        }
    }
}

/// A node without children.
fn is_leaf(n: &Node) -> (r: bool)
    ensures
        r == n.spec_is_leaf(),
{
    n.left.is_none() && n.right.is_none()
}

} // verus!
