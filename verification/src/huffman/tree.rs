use vstd::prelude::*;
use vstd::multiset::Multiset;
use vstd::seq_lib::{lemma_multiset_commutative, group_to_multiset_ensures};
use vstd::std_specs::cmp::{PartialEqSpecImpl, PartialOrdSpecImpl};
use std::cmp::Ordering;
use super::optimal::{WeightTree, first_min, greedy_cost, lemma_first_min, lemma_greedy_optimal};

verus! {

/// A node of a Huffman tree. Leaves carry a symbol; internal nodes carry two
/// children and no symbol. `weight` is the total frequency below the node.
#[derive(Debug)]
pub struct Node {
    pub weight: u64,
    pub symbol: Option<u8>,
    pub left: Option<Box<Node>>,
    pub right: Option<Box<Node>>,
}

impl Node {
    /// A node without children.
    pub open spec fn spec_is_leaf(self) -> bool {
        self.left is None && self.right is None
    }

    /// The node a header holds when no tree was built: no symbol, no children.
    pub open spec fn empty_node() -> Node {
        Node { weight: 0, symbol: None, left: None, right: None }
    }

    /// A full binary tree whose leaves, and only its leaves, carry symbols.
    pub open spec fn wf(self) -> bool
        decreases self,
    {
        match (self.left, self.right) {
            (None, None) => self.symbol is Some,
            (Some(l), Some(r)) => self.symbol is None && l.wf() && r.wf(),
            _ => false,
        }
    }

    /// The symbols of the leaves, left to right.
    pub open spec fn leaves(self) -> Seq<u8>
        decreases self,
    {
        if self.left is None && self.right is None {
            match self.symbol {
                Some(s) => seq![s],
                None => Seq::empty(),
            }
        } else {
            let l = match self.left {
                Some(l) => l.leaves(),
                None => Seq::empty(),
            };
            let r = match self.right {
                Some(r) => r.leaves(),
                None => Seq::empty(),
            };
            l + r
        }
    }

    /// Number of edges on the longest path from this node to a leaf.
    pub open spec fn height(self) -> nat
        decreases self,
    {
        let l = match self.left {
            Some(l) => l.height() + 1,
            None => 0,
        };
        let r = match self.right {
            Some(r) => r.height() + 1,
            None => 0,
        };
        if l >= r {
            l
        } else {
            r
        }
    }

    /// The same tree with every weight set to zero, as it comes back from the
    /// serialized form.
    pub open spec fn zero_weights(self) -> Node
        decreases self,
    {
        Node {
            weight: 0,
            symbol: self.symbol,
            left: match self.left {
                Some(l) => Some(Box::new(l.zero_weights())),
                None => None,
            },
            right: match self.right {
                Some(r) => Some(Box::new(r.zero_weights())),
                None => None,
            },
        }
    }

    /// The branch bits (`false` = left, `true` = right) from this node down to
    /// the leaf that carries `s`.
    pub open spec fn path(self, s: u8) -> Seq<bool>
        decreases self,
    {
        match (self.left, self.right) {
            (Some(l), Some(r)) => if l.leaves().contains(s) {
                seq![false] + l.path(s)
            } else {
                seq![true] + r.path(s)
            },
            _ => Seq::empty(),
        }
    }

    /// The tree as a weight tree: each leaf carries its weight, symbols aside.
    pub open spec fn shape(self) -> WeightTree
        decreases self,
    {
        match (self.left, self.right) {
            (Some(l), Some(r)) => WeightTree::Join(Box::new(l.shape()), Box::new(r.shape())),
            _ => WeightTree::Leaf(self.weight as int),
        }
    }

    /// The leaf weights, left to right.
    pub open spec fn leaf_weights(self) -> Seq<int> {
        self.shape().weights()
    }

    /// Each leaf weight times the depth of the leaf, summed: with symbol
    /// frequencies as weights, the number of bits the encoded data takes.
    pub open spec fn weighted_path_length(self) -> int {
        self.shape().cost()
    }

    /// The largest weight of a node strictly below this one; zero for a leaf.
    pub open spec fn inner_max(self) -> int
        decreases self,
    {
        match (self.left, self.right) {
            (Some(l), Some(r)) => {
                let a = if l.weight >= r.weight { l.weight as int } else { r.weight as int };
                let b = if l.inner_max() >= r.inner_max() { l.inner_max() } else { r.inner_max() };
                if a >= b { a } else { b }
            },
            _ => 0,
        }
    }

    /// Every node weighs at least the Fibonacci number two past its height.
    pub open spec fn fib_ok(self) -> bool
        decreases self,
    {
        &&& self.weight >= fib(self.height() + 2)
        &&& match (self.left, self.right) {
            (Some(l), Some(r)) => l.fib_ok() && r.fib_ok(),
            _ => true,
        }
    }

    /// Every internal node has its lighter child on the left: the first of
    /// the two trees joined is never the heavier.
    pub open spec fn children_ordered(self) -> bool
        decreases self,
    {
        match (self.left, self.right) {
            (Some(l), Some(r)) => l.weight <= r.weight && l.children_ordered() && r.children_ordered(),
            _ => true,
        }
    }

    /// Weights are consistent with the frequency table: a leaf weighs the
    /// frequency of its symbol, an internal node the sum of its children.
    pub open spec fn weights_ok(self, freq: Seq<u64>) -> bool
        decreases self,
    {
        match (self.left, self.right) {
            (None, None) => match self.symbol {
                Some(s) => self.weight == freq[s as int],
                None => true,
            },
            (Some(l), Some(r)) => self.weight == l.weight + r.weight && l.weights_ok(freq)
                && r.weights_ok(freq),
            _ => true,
        }
    }
}

impl Clone for Node {
    /// A deep copy of the tree.
    fn clone(&self) -> (r: Self)
        ensures
            r == *self,
        decreases self,
    {
        Node {
            weight: self.weight,
            symbol: self.symbol,
            left: match &self.left {
                Some(l) => Some(Box::new((&**l).clone())),
                None => None,
            },
            right: match &self.right {
                Some(r) => Some(Box::new((&**r).clone())),
                None => None,
            },
        }
    }
}

impl PartialEq for Node {
    /// Nodes compare by weight alone.
    fn eq(&self, other: &Self) -> (r: bool) {
        self.weight == other.weight
    }
}

impl PartialEqSpecImpl for Node {
    open spec fn obeys_eq_spec() -> bool {
        true
    }

    open spec fn eq_spec(&self, other: &Node) -> bool {
        self.weight == other.weight
    }
}

impl Eq for Node {

}

impl PartialOrd for Node {
    /// Nodes order by weight, reversed: the heavier node is the smaller one,
    /// so that a max-first queue yields the lightest node first.
    fn partial_cmp(&self, other: &Self) -> (r: Option<Ordering>) {
        if other.weight < self.weight {
            Some(Ordering::Less)
        } else if other.weight == self.weight {
            Some(Ordering::Equal)
        } else {
            Some(Ordering::Greater)
        }
    }
}

impl PartialOrdSpecImpl for Node {
    open spec fn obeys_partial_cmp_spec() -> bool {
        true
    }

    open spec fn partial_cmp_spec(&self, other: &Node) -> Option<Ordering> {
        if other.weight < self.weight {
            Some(Ordering::Less)
        } else if other.weight == self.weight {
            Some(Ordering::Equal)
        } else {
            Some(Ordering::Greater)
        }
    }
}

/// The Fibonacci numbers: 0, 1, 1, 2, 3, 5, ...
pub open spec fn fib(n: nat) -> nat
    decreases n,
{
    if n < 2 {
        n
    } else {
        fib((n - 1) as nat) + fib((n - 2) as nat)
    }
}

/// The Fibonacci numbers never decrease.
pub proof fn lemma_fib_monotone(m: nat, n: nat)
    requires
        m <= n,
    ensures
        fib(m) <= fib(n),
    decreases n,
{
    if m < n {
        lemma_fib_monotone(m, (n - 1) as nat);
        if n >= 2 {
            assert(fib(n) == fib((n - 1) as nat) + fib((n - 2) as nat));
        } else {
            reveal_with_fuel(fib, 2);
        }
    }
}

/// `k` steps of the Fibonacci recurrence started from the pair `a, b`.
pub open spec fn fib_from(k: nat, a: nat, b: nat) -> nat
    decreases k,
{
    if k == 0 {
        a
    } else {
        fib_from((k - 1) as nat, b, a + b)
    }
}

/// Stepping the recurrence from two consecutive Fibonacci numbers gives a
/// later one.
pub proof fn lemma_fib_from(k: nat, m: nat)
    ensures
        fib_from(k, fib(m), fib(m + 1)) == fib(m + k),
    decreases k,
{
    if k > 0 {
        lemma_fib_from((k - 1) as nat, m + 1);
        assert(fib(m + 2) == fib(m + 1) + fib(m));
    }
}

/// The Fibonacci number that bounds the weight of a tree 65 edges high.
pub proof fn lemma_fib_67()
    ensures
        fib(67) == 44945570212853,
{
    lemma_fib_from(67, 0);
    reveal_with_fuel(fib, 2);
    reveal_with_fuel(fib_from, 68);
    assert(fib_from(67, 0, 1) == 44945570212853);
}

/// A tree under 2^45 in weight whose nodes keep the Fibonacci bound is at
/// most 64 edges high, so each of its codes fits 64 bits.
pub proof fn lemma_light_tree_height(t: Node)
    requires
        t.fib_ok(),
        t.weight < 0x2000_0000_0000,
    ensures
        t.height() <= 64,
{
    if t.height() > 64 {
        lemma_fib_67();
        lemma_fib_monotone(67, t.height() + 2);
    }
}

/// The largest weight below a node never exceeds the node's own weight.
pub proof fn lemma_inner_max_le_weight(t: Node, freq: Seq<u64>)
    requires
        t.wf(),
        t.weights_ok(freq),
    ensures
        t.inner_max() <= t.weight,
        t.inner_max() >= 0,
    decreases t,
{
    if let (Some(l), Some(r)) = (t.left, t.right) {
        lemma_inner_max_le_weight(*l, freq);
        lemma_inner_max_le_weight(*r, freq);
    }
}

/// Joining two trees, each at least as heavy as everything below the other,
/// gives a tree that weighs at least the Fibonacci number two past its height.
pub proof fn lemma_join_fib(a: Node, b: Node)
    requires
        a.wf(),
        b.wf(),
        a.fib_ok(),
        b.fib_ok(),
        b.weight >= a.inner_max(),
        a.weight >= b.inner_max(),
    ensures
        a.weight + b.weight >= fib((if a.height() >= b.height() { a.height() } else { b.height() }) + 3),
{
    reveal_with_fuel(fib, 4);
    let ha = a.height();
    let hb = b.height();
    if ha >= hb {
        if ha == 0 {
            assert(fib(2) == 1 && fib(3) == 2);
        } else {
            lemma_taller_child(a);
            assert(fib(ha + 3) == fib(ha + 2) + fib(ha + 1));
        }
    } else {
        lemma_taller_child(b);
        assert(fib(hb + 3) == fib(hb + 2) + fib(hb + 1));
    }
}

/// An internal node has a child one level lower, and that child weighs no
/// more than the largest weight below the node.
proof fn lemma_taller_child(t: Node)
    requires
        t.wf(),
        t.fib_ok(),
        t.height() > 0,
    ensures
        t.inner_max() >= fib(t.height() + 1),
{
    reveal_with_fuel(Node::fib_ok, 2);
    if let (Some(l), Some(r)) = (t.left, t.right) {
        if l.height() >= r.height() {
            assert(l.height() + 1 == t.height());
            assert(l.weight >= fib(l.height() + 2));
        } else {
            assert(r.height() + 1 == t.height());
            assert(r.weight >= fib(r.height() + 2));
        }
    }
}

/// Everything in the queue weighs at least as much as anything below any
/// tree of the queue.
pub open spec fn queue_balanced(q: Seq<Node>) -> bool {
    forall|a: int, b: int| 0 <= a < q.len() && 0 <= b < q.len() ==> #[trigger] q[b].weight >= #[trigger] q[a].inner_max()
}

/// Serialized form of a tree: a leaf is `1, symbol`; an internal node is `0`
/// followed by its left and right subtrees. A node with no symbol and a missing
/// child writes nothing.
pub open spec fn spec_serialize(n: Node) -> Seq<u8>
    decreases n,
{
    if n.symbol is None && (n.left is None || n.right is None) {
        Seq::empty()
    } else {
        match n.symbol {
            Some(s) => seq![1u8, s],
            None => match (n.left, n.right) {
                (Some(l), Some(r)) => seq![0u8] + spec_serialize(*l) + spec_serialize(*r),
                _ => Seq::empty(),
            },
        }
    }
}

/// Reads a tree from the front of `s`: the tree and the number of bytes used,
/// or `None` where the bytes are not a tree. An empty input reads as the
/// empty node.
pub open spec fn spec_deserialize(s: Seq<u8>) -> Option<(Node, nat)>
    decreases s.len(),
{
    if s.len() == 0 {
        Some((Node::empty_node(), 0))
    } else if s[0] == 1 {
        if s.len() >= 2 {
            Some((Node { weight: 0, symbol: Some(s[1]), left: None, right: None }, 2))
        } else {
            None
        }
    } else if s[0] == 0 {
        match spec_deserialize(s.skip(1)) {
            None => None,
            Some((l, k1)) => if 1 + k1 <= s.len() {
                match spec_deserialize(s.skip(1 + k1 as int)) {
                    None => None,
                    Some((r, k2)) => Some(
                        (
                            Node {
                                weight: 0,
                                symbol: None,
                                left: Some(Box::new(l)),
                                right: Some(Box::new(r)),
                            },
                            1 + k1 + k2,
                        ),
                    ),
                }
            } else {
                None
            },
        }
    } else {
        None
    }
}

/// A tree read back never claims more bytes than it was given.
pub proof fn lemma_deserialize_len(s: Seq<u8>)
    ensures
        spec_deserialize(s) matches Some((_, k)) ==> k <= s.len(),
    decreases s.len(),
{
    if s.len() > 0 && s[0] == 0 {
        lemma_deserialize_len(s.skip(1));
        if let Some((l, k1)) = spec_deserialize(s.skip(1)) {
            if 1 + k1 <= s.len() {
                lemma_deserialize_len(s.skip(1 + k1 as int));
            }
        }
    }
}

/// Serializing a well-formed tree and reading it back, with anything after it,
/// gives the same tree without its weights and the exact byte count.
pub proof fn lemma_serialize_roundtrip(t: Node, rest: Seq<u8>)
    requires
        t.wf(),
    ensures
        spec_deserialize(spec_serialize(t) + rest) == Some(
            (t.zero_weights(), spec_serialize(t).len()),
        ),
    decreases t,
{
    let s = spec_serialize(t) + rest;
    match (t.left, t.right) {
        (Some(l), Some(r)) => {
            let sl = spec_serialize(*l);
            let sr = spec_serialize(*r);
            assert(spec_serialize(t) == seq![0u8] + sl + sr);
            lemma_serialize_roundtrip(*l, sr + rest);
            lemma_serialize_roundtrip(*r, rest);
            assert(s.skip(1) =~= sl + (sr + rest));
            assert(s.skip(1 + sl.len() as int) =~= sr + rest);
            assert(s.len() > 0 && s[0] == 0);
        },
        _ => {
            assert(s.len() >= 2 && s[0] == 1);
        },
    }
}

/// The empty node serializes to nothing and nothing reads back as the empty node.
pub proof fn lemma_serialize_roundtrip_empty()
    ensures
        spec_serialize(Node::empty_node()) == Seq::<u8>::empty(),
        spec_deserialize(Seq::empty()) == Some((Node::empty_node(), 0nat)),
        Node::empty_node().zero_weights() == Node::empty_node(),
{
}

/// Writes the serialized form of `node` to the end of `out`.
pub fn serialize_tree(node: &Node, out: &mut Vec<u8>)
    ensures
        final(out)@ == old(out)@ + spec_serialize(*node),
    decreases node,
{
    if node.symbol.is_none() && (node.left.is_none() || node.right.is_none()) {
        assert(old(out)@ + spec_serialize(*node) =~= old(out)@);
        return ;
    }
    match node.symbol {
        Some(symbol) => {
            out.push(1);
            out.push(symbol);
            assert(final(out)@ =~= old(out)@ + spec_serialize(*node));
        },
        None => {
            out.push(0);
            match (&node.left, &node.right) {
                (Some(left), Some(right)) => {
                    serialize_tree(left, out);
                    serialize_tree(right, out);
                    assert(out@ =~= old(out)@ + spec_serialize(*node));
                },
                _ => {},
            }
        },
    }
}

/// Reads a tree from `stream` starting at `*pos`, advancing `*pos` past it;
/// `None` where the bytes there are not a tree.
pub fn deserialize_tree_checked(stream: &[u8], pos: &mut usize) -> (r: Option<Node>)
    requires
        *old(pos) <= stream.len(),
    ensures
        match spec_deserialize(stream@.skip(*old(pos) as int)) {
            Some((n, k)) => r == Some(n) && *final(pos) == *old(pos) + k,
            None => r is None,
        },
        *final(pos) <= stream.len(),
    decreases stream.len() - *old(pos),
{
    let ghost s = stream@.skip(*pos as int);
    proof {
        lemma_deserialize_len(s);
    }
    if *pos >= stream.len() {
        return Some(Node { weight: 0, symbol: None, left: None, right: None });
    }
    let marker = stream[*pos];
    if marker == 1 {
        if stream.len() - *pos >= 2 {
            let symbol = stream[*pos + 1];
            *pos = *pos + 2;
            return Some(Node { weight: 0, symbol: Some(symbol), left: None, right: None });
        } else {
            return None;
        }
    } else if marker == 0 {
        *pos = *pos + 1;
        proof {
            assert(stream@.skip(*pos as int) =~= s.skip(1));
        }
        let left = match deserialize_tree_checked(stream, pos) {
            Some(l) => l,
            None => {
                return None;
            },
        };
        let ghost k1 = (*pos - 1 - *old(pos)) as nat;
        proof {
            assert(stream@.skip(*pos as int) =~= s.skip(1 + k1 as int));
        }
        let right = match deserialize_tree_checked(stream, pos) {
            Some(r) => r,
            None => {
                return None;
            },
        };
        return Some(
            Node { weight: 0, symbol: None, left: Some(Box::new(left)), right: Some(Box::new(right)) },
        );
    } else {
        return None;
    }
}

/// Reads a tree from `stream` starting at `*pos`, advancing `*pos` past it.
/// The bytes there must form a tree.
pub fn deserialize_tree(stream: &[u8], pos: &mut usize) -> (r: Node)
    requires
        *old(pos) <= stream.len(),
        spec_deserialize(stream@.skip(*old(pos) as int)) is Some,
    ensures
        spec_deserialize(stream@.skip(*old(pos) as int)) == Some(
            (r, (*final(pos) - *old(pos)) as nat),
        ),
{
    match deserialize_tree_checked(stream, pos) {
        Some(n) => n,
        None => Node { weight: 0, symbol: None, left: None, right: None },
    }
}


/// A well-formed tree with `k` leaves serializes to `3k - 1` bytes.
pub proof fn lemma_serialize_len(t: Node)
    requires
        t.wf(),
    ensures
        spec_serialize(t).len() + 1 == 3 * t.leaves().len(),
    decreases t,
{
    if let (Some(l), Some(r)) = (t.left, t.right) {
        lemma_serialize_len(*l);
        lemma_serialize_len(*r);
    }
}

/// Symbols without repetition are at most 256.
pub proof fn lemma_distinct_bytes_at_most_256(s: Seq<u8>)
    requires
        s.no_duplicates(),
    ensures
        s.len() <= 256,
{
    let f = |x: u8| x as int;
    let t = s.map_values(f);
    assert(vstd::relations::injective(f));
    s.lemma_no_duplicates_injective(f);
    t.unique_seq_to_set();
    vstd::set_lib::lemma_int_range(0, 256);
    assert(t.to_set().subset_of(vstd::set_lib::set_int_range(0, 256))) by {
        assert forall|x: int| t.to_set().contains(x) implies vstd::set_lib::set_int_range(0, 256).contains(x) by {
            let k = choose|k: int| 0 <= k < t.len() && #[trigger] t[k] == x;
            assert(t[k] == s[k] as int);
        }
    }
    vstd::set_lib::lemma_len_subset(t.to_set(), vstd::set_lib::set_int_range(0, 256));
}

/// Setting the weights to zero changes neither the shape, nor the leaves,
/// nor the paths of a tree.
pub proof fn lemma_zero_weights(t: Node)
    ensures
        t.zero_weights().wf() == t.wf(),
        t.zero_weights().leaves() == t.leaves(),
        forall|s: u8| #[trigger] t.zero_weights().path(s) == t.path(s),
        t.zero_weights().height() == t.height(),
        t.zero_weights().symbol == t.symbol,
        t.zero_weights().left is Some <==> t.left is Some,
    decreases t,
{
    match t.left {
        Some(l) => lemma_zero_weights(*l),
        None => {},
    }
    match t.right {
        Some(r) => lemma_zero_weights(*r),
        None => {},
    }
    assert forall|s: u8| #[trigger] t.zero_weights().path(s) == t.path(s) by {
        match (t.left, t.right) {
            (Some(l), Some(r)) => {
                assert(l.zero_weights().path(s) == l.path(s));
                assert(r.zero_weights().path(s) == r.path(s));
            },
            _ => {},
        }
    }
}

/// Whether the tree is at most `limit` edges high.
pub fn height_within(n: &Node, limit: u64) -> (r: bool)
    ensures
        r == (n.height() <= limit),
    decreases n,
{
    let left_ok = match &n.left {
        Some(l) => limit > 0 && height_within(l, limit - 1),
        None => true,
    };
    let right_ok = match &n.right {
        Some(r) => limit > 0 && height_within(r, limit - 1),
        None => true,
    };
    left_ok && right_ok
}

/// The symbols with a non-zero frequency among the first `n`, in increasing order.
pub open spec fn nonzero_symbols(freq: Seq<u64>, n: nat) -> Seq<u8>
    decreases n,
{
    if n == 0 {
        Seq::empty()
    } else {
        let p = nonzero_symbols(freq, (n - 1) as nat);
        if freq[n - 1] > 0 {
            p.push((n - 1) as u8)
        } else {
            p
        }
    }
}

/// The sum of the first `n` frequencies.
pub open spec fn freq_sum(freq: Seq<u64>, n: nat) -> int
    decreases n,
{
    if n == 0 {
        0
    } else {
        freq_sum(freq, (n - 1) as nat) + freq[n - 1]
    }
}

/// All leaf symbols of the nodes of a queue, as a multiset.
pub open spec fn queue_leaves(q: Seq<Node>) -> Multiset<u8>
    decreases q.len(),
{
    if q.len() == 0 {
        Multiset::empty()
    } else {
        queue_leaves(q.drop_last()).add(q.last().leaves().to_multiset())
    }
}

/// The total weight of the nodes of a queue.
pub open spec fn queue_weight(q: Seq<Node>) -> int
    decreases q.len(),
{
    if q.len() == 0 {
        0
    } else {
        queue_weight(q.drop_last()) + q.last().weight
    }
}

proof fn lemma_queue_remove(q: Seq<Node>, i: int)
    requires
        0 <= i < q.len(),
    ensures
        queue_leaves(q) =~= queue_leaves(q.remove(i)).add(q[i].leaves().to_multiset()),
        queue_weight(q) == queue_weight(q.remove(i)) + q[i].weight,
    decreases q.len(),
{
    if i == q.len() - 1 {
        assert(q.remove(i) =~= q.drop_last());
    } else {
        lemma_queue_remove(q.drop_last(), i);
        assert(q.remove(i).drop_last() =~= q.drop_last().remove(i));
        assert(q.remove(i).last() == q.last());
    }
}

proof fn lemma_queue_weight_bound(q: Seq<Node>, i: int)
    requires
        0 <= i < q.len(),
    ensures
        q[i].weight <= queue_weight(q),
        queue_weight(q) >= 0,
    decreases q.len(),
{
    lemma_queue_weight_nonneg(q.drop_last());
    if i < q.len() - 1 {
        lemma_queue_weight_bound(q.drop_last(), i);
    }
}

/// The weights of the nodes of a queue, in order.
pub open spec fn queue_weights(q: Seq<Node>) -> Seq<int> {
    q.map_values(|n: Node| n.weight as int)
}

/// The weighted path lengths of the trees of a queue, summed.
pub open spec fn queue_cost(q: Seq<Node>) -> int
    decreases q.len(),
{
    if q.len() == 0 {
        0
    } else {
        queue_cost(q.drop_last()) + q.last().weighted_path_length()
    }
}

/// The leaf weights of all the trees of a queue.
pub open spec fn queue_leaf_weights(q: Seq<Node>) -> Multiset<int>
    decreases q.len(),
{
    if q.len() == 0 {
        Multiset::empty()
    } else {
        queue_leaf_weights(q.drop_last()).add(q.last().leaf_weights().to_multiset())
    }
}

proof fn lemma_queue_shape_remove(q: Seq<Node>, i: int)
    requires
        0 <= i < q.len(),
    ensures
        queue_leaf_weights(q) =~= queue_leaf_weights(q.remove(i)).add(q[i].leaf_weights().to_multiset()),
        queue_cost(q) == queue_cost(q.remove(i)) + q[i].weighted_path_length(),
        queue_weights(q.remove(i)) =~= queue_weights(q).remove(i),
    decreases q.len(),
{
    if i == q.len() - 1 {
        assert(q.remove(i) =~= q.drop_last());
    } else {
        lemma_queue_shape_remove(q.drop_last(), i);
        assert(q.remove(i).drop_last() =~= q.drop_last().remove(i));
        assert(q.remove(i).last() == q.last());
    }
}

/// A queue of single leaves: its leaf weights are its node weights, and no
/// leaf is below the root.
proof fn lemma_leaf_queue(q: Seq<Node>)
    requires
        forall|j: int| 0 <= j < q.len() ==> (#[trigger] q[j]).left is None,
    ensures
        queue_leaf_weights(q) =~= queue_weights(q).to_multiset(),
        queue_cost(q) == 0,
    decreases q.len(),
{
    broadcast use vstd::seq_lib::group_to_multiset_ensures;

    if q.len() > 0 {
        let t = q.drop_last();
        lemma_leaf_queue(t);
        assert(q.last() == q[q.len() - 1]);
        assert(queue_weights(q) =~= queue_weights(t).push(q.last().weight as int));
        assert(q.last().leaf_weights() =~= seq![q.last().weight as int]);
        assert(seq![q.last().weight as int] =~= Seq::<int>::empty().push(q.last().weight as int));
    }
}

/// The weight of a tree is the sum of its leaf weights.
proof fn lemma_shape_total(t: Node, freq: Seq<u64>)
    requires
        t.wf(),
        t.weights_ok(freq),
    ensures
        t.shape().total() == t.weight,
    decreases t,
{
    if let (Some(l), Some(r)) = (t.left, t.right) {
        lemma_shape_total(*l, freq);
        lemma_shape_total(*r, freq);
    }
}

/// Joining the first two lightest trees adds to the weighted path lengths of
/// the queue what the greedy cost of the queue's weights loses, and keeps the
/// leaf weights.
proof fn lemma_merge_cost(h0: Seq<Node>, i1: int, i2: int, p: Node, freq: Seq<u64>)
    requires
        queue_wf(h0, freq),
        h0.len() >= 2,
        i1 == first_min(queue_weights(h0)),
        i2 == first_min(queue_weights(h0.remove(i1))),
        p.weight == h0[i1].weight + h0.remove(i1)[i2].weight,
        p.left == Some(Box::new(h0[i1])),
        p.right == Some(Box::new(h0.remove(i1)[i2])),
    ensures
        queue_cost(h0.remove(i1).remove(i2).push(p)) + greedy_cost(
            queue_weights(h0.remove(i1).remove(i2).push(p)),
        ) == queue_cost(h0) + greedy_cost(queue_weights(h0)),
        queue_leaf_weights(h0.remove(i1).remove(i2).push(p)) =~= queue_leaf_weights(h0),
{
    let h1 = h0.remove(i1);
    let h2 = h1.remove(i2);
    let q = h2.push(p);
    let s = queue_weights(h0);
    lemma_first_min(s);
    lemma_queue_shape_remove(h0, i1);
    lemma_first_min(queue_weights(h1));
    lemma_queue_shape_remove(h1, i2);
    let a = h0[i1];
    let b = h1[i2];
    assert(h1[i2] == h0[if i2 < i1 { i2 } else { i2 + 1 }]);
    lemma_shape_total(a, freq);
    lemma_shape_total(b, freq);
    assert(p.shape() == WeightTree::Join(Box::new(a.shape()), Box::new(b.shape())));
    assert(q.drop_last() =~= h2);
    assert(queue_weights(q) =~= s.remove(i1).remove(i2).push(a.weight + b.weight));
    assert(p.leaf_weights() =~= a.leaf_weights() + b.leaf_weights());
    vstd::seq_lib::lemma_multiset_commutative(a.leaf_weights(), b.leaf_weights());
}

proof fn lemma_queue_weight_nonneg(q: Seq<Node>)
    ensures
        queue_weight(q) >= 0,
    decreases q.len(),
{
    if q.len() > 0 {
        lemma_queue_weight_nonneg(q.drop_last());
    }
}

proof fn lemma_nonzero_symbols(freq: Seq<u64>, n: nat)
    requires
        n <= 256,
        freq.len() == 256,
    ensures
        nonzero_symbols(freq, n).no_duplicates(),
        forall|s: u8| #[trigger] nonzero_symbols(freq, n).contains(s) <==> (s < n && freq[s as int] > 0),
        nonzero_symbols(freq, n).len() <= n,
    decreases n,
{
    if n > 0 {
        lemma_nonzero_symbols(freq, (n - 1) as nat);
        let p = nonzero_symbols(freq, (n - 1) as nat);
        let x = (n - 1) as u8;
        if freq[n - 1] > 0 {
            let q = p.push(x);
            assert forall|s: u8| #[trigger] q.contains(s) <==> (s < n && freq[s as int] > 0) by {
                if s == x {
                    assert(q[p.len() as int] == s);
                } else {
                    if q.contains(s) {
                        let k = choose|k: int| 0 <= k < q.len() && #[trigger] q[k] == s;
                        assert(k < p.len());
                        assert(p[k] == s);
                        assert(p.contains(s));
                    }
                    if p.contains(s) {
                        let k = choose|k: int| 0 <= k < p.len() && #[trigger] p[k] == s;
                        assert(q[k] == s);
                    }
                }
            }
            assert forall|a: int, b: int| 0 <= a < q.len() && 0 <= b < q.len() && a != b implies q[a]
                != q[b] by {
                if a == p.len() as int {
                    assert(p.contains(q[b]));
                } else if b == p.len() as int {
                    assert(p.contains(q[a]));
                }
            }
        }
    }
}

/// A well-formed tree has at least one leaf.
pub proof fn lemma_wf_leaves_nonempty(t: Node)
    requires
        t.wf(),
    ensures
        t.leaves().len() >= 1,
    decreases t,
{
    if let (Some(l), Some(r)) = (t.left, t.right) {
        lemma_wf_leaves_nonempty(*l);
    }
}

proof fn lemma_singleton_multiset(x: u8)
    ensures
        seq![x].to_multiset() =~= Multiset::<u8>::empty().insert(x),
{
    broadcast use group_to_multiset_ensures;

    assert(seq![x] =~= Seq::<u8>::empty().push(x));
    assert(Seq::<u8>::empty().to_multiset() =~= Multiset::<u8>::empty());
}

/// Joining the two lightest trees of a balanced queue keeps it balanced, and
/// the joined tree keeps the Fibonacci weight bound.
proof fn lemma_merge_balanced(h0: Seq<Node>, i1: int, i2: int, p: Node, freq: Seq<u64>)
    requires
        queue_wf(h0, freq),
        queue_balanced(h0),
        0 <= i1 < h0.len(),
        0 <= i2 < h0.len() - 1,
        forall|j: int| 0 <= j < h0.len() ==> h0[i1].weight <= #[trigger] h0[j].weight,
        forall|j: int| 0 <= j < h0.len() - 1 ==> h0.remove(i1)[i2].weight <= #[trigger] h0.remove(i1)[j].weight,
        p.weight == h0[i1].weight + h0.remove(i1)[i2].weight,
        p.symbol is None,
        p.left == Some(Box::new(h0[i1])),
        p.right == Some(Box::new(h0.remove(i1)[i2])),
    ensures
        p.fib_ok(),
        queue_balanced(h0.remove(i1).remove(i2).push(p)),
{
    let a = h0[i1];
    let h1 = h0.remove(i1);
    let b = h1[i2];
    let h2 = h1.remove(i2);
    let q = h2.push(p);
    // index in h0 of the j-th tree of h1, and of the j-th tree of h2
    let k1 = |j: int| if j < i1 { j } else { j + 1 };
    let k2 = |j: int| k1(if j < i2 { j } else { j + 1 });
    assert forall|j: int| 0 <= j < h1.len() implies h1[j] == h0[k1(j)] && 0 <= k1(j) < h0.len() && k1(j) != i1 by {}
    assert forall|j: int| 0 <= j < h2.len() implies h2[j] == h0[k2(j)] && 0 <= k2(j) < h0.len() by {
        let j1 = if j < i2 { j } else { j + 1 };
        assert(h2[j] == h1[j1]);
        assert(h1[j1] == h0[k1(j1)]);
    }
    let kb = k1(i2);
    assert(b == h0[kb]);
    assert(h0[kb].weight >= h0[i1].inner_max());
    assert(h0[i1].weight >= h0[kb].inner_max());
    assert(a.wf() && b.wf() && a.fib_ok() && b.fib_ok());
    assert(a.weights_ok(freq));
    assert(b.weights_ok(freq));
    lemma_inner_max_le_weight(a, freq);
    lemma_inner_max_le_weight(b, freq);
    lemma_join_fib(a, b);
    assert(p.inner_max() == b.weight);
    assert(p.fib_ok());
    assert forall|x: int, y: int| 0 <= x < q.len() && 0 <= y < q.len() implies #[trigger] q[y].weight
        >= #[trigger] q[x].inner_max() by {
        if x < h2.len() {
            assert(q[x] == h0[k2(x)]);
            if y < h2.len() {
                assert(q[y] == h0[k2(y)]);
            } else {
                assert(q[y] == p);
                assert(h0[i1].weight >= h0[k2(x)].inner_max());
            }
        } else {
            assert(q[x] == p);
            if y < h2.len() {
                let j1 = if y < i2 { y } else { y + 1 };
                assert(q[y] == h1[j1]);
                assert(h1[i2].weight <= h1[j1].weight);
            }
        }
    }
}

/// Every node of the queue is a well-formed tree with consistent weights.
pub open spec fn queue_wf(q: Seq<Node>, freq: Seq<u64>) -> bool {
    forall|j: int| 0 <= j < q.len() ==> (#[trigger] q[j]).wf() && q[j].weights_ok(freq) && q[j].children_ordered()
        && q[j].fib_ok()
}

proof fn lemma_freq_sum_zero(freq: Seq<u64>, n: nat)
    requires
        n <= freq.len(),
    ensures
        freq_sum(freq, n) >= 0,
        (forall|i: int| 0 <= i < n ==> freq[i] == 0) ==> freq_sum(freq, n) == 0,
    decreases n,
{
    if n > 0 {
        lemma_freq_sum_zero(freq, (n - 1) as nat);
    }
}

/// The leaves of the symbols among the first `n` whose frequency is not zero,
/// in increasing order of symbol, each weighing its frequency.
pub open spec fn leaf_queue(freq: Seq<u64>, n: nat) -> Seq<Node>
    decreases n,
{
    if n == 0 {
        Seq::empty()
    } else {
        let q = leaf_queue(freq, (n - 1) as nat);
        if freq[n - 1] > 0 {
            q.push(Node { weight: freq[n - 1], symbol: Some((n - 1) as u8), left: None, right: None })
        } else {
            q
        }
    }
}

/// The tree that joining trees of `q` two at a time builds: each time the
/// first lightest tree is taken out and becomes the left child, then the
/// first lightest of the rest becomes the right child, and their join goes to
/// the end of the queue. `None` for an empty queue.
pub open spec fn greedy_tree(q: Seq<Node>) -> Option<Node>
    decreases q.len(),
{
    if q.len() == 0 {
        None
    } else if q.len() == 1 {
        Some(q[0])
    } else {
        let i = first_min(queue_weights(q));
        let q1 = q.remove(i);
        let j = first_min(queue_weights(q1));
        proof {
            lemma_first_min(queue_weights(q));
            lemma_first_min(queue_weights(q1));
        }
        let p = Node {
            weight: (q[i].weight + q1[j].weight) as u64,
            symbol: None,
            left: Some(Box::new(q[i])),
            right: Some(Box::new(q1[j])),
        };
        greedy_tree(q1.remove(j).push(p))
    }
}

/// Builds a Huffman tree from symbol frequencies by repeatedly joining the two
/// lightest trees; `None` when every frequency is zero.
#[verifier::rlimit(40)]
pub fn build_huffman_tree(freq: &[u64; 256]) -> (r: Option<Node>)
    requires
        freq_sum(freq@, 256) <= u64::MAX,
    ensures
        r is None <==> (forall|i: int| 0 <= i < 256 ==> freq@[i] == 0),
        r == greedy_tree(leaf_queue(freq@, 256)),
        r matches Some(t) ==> {
            &&& t.wf()
            &&& t.leaves().no_duplicates()
            &&& forall|s: u8| t.leaves().contains(s) <==> freq@[s as int] > 0
            &&& t.weights_ok(freq@)
            &&& t.weight == freq_sum(freq@, 256)
            &&& t.children_ordered()
            &&& t.fib_ok()
            &&& forall|o: Node| #[trigger] o.leaf_weights().to_multiset() == t.leaf_weights().to_multiset()
                ==> t.weighted_path_length() <= o.weighted_path_length()
        },
{
    broadcast use group_to_multiset_ensures;

    let mut heap: Vec<Node> = Vec::new();
    let mut i: usize = 0;
    while i < 256
        invariant
            0 <= i <= 256,
            freq_sum(freq@, 256) <= u64::MAX,
            heap.len() == nonzero_symbols(freq@, i as nat).len(),
            queue_wf(heap@, freq@),
            forall|j: int| 0 <= j < heap.len() ==> (#[trigger] heap@[j]).inner_max() == 0,
            forall|j: int| 0 <= j < heap.len() ==> (#[trigger] heap@[j]).left is None,
            queue_leaves(heap@) =~= nonzero_symbols(freq@, i as nat).to_multiset(),
            queue_weight(heap@) == freq_sum(freq@, i as nat),
            heap@ == leaf_queue(freq@, i as nat),
        decreases 256 - i,
    {
        let ghost old_heap = heap@;
        if freq[i] > 0 {
            let node = Node { weight: freq[i], symbol: Some(i as u8), left: None, right: None };
            proof {
                reveal_with_fuel(fib, 3);
                assert(node.fib_ok());
                assert(node.leaves() =~= seq![i as u8]);
                assert(old_heap.push(node).drop_last() =~= old_heap);
                lemma_singleton_multiset(i as u8);
            }
            heap.push(node);
            proof {
                assert(heap@.last() == node);
                assert(heap@.drop_last() =~= old_heap);
                assert(queue_leaves(heap@) =~= queue_leaves(old_heap).add(node.leaves().to_multiset()));
                assert(queue_leaves(heap@) =~= queue_leaves(old_heap).add(seq![i as u8].to_multiset()));
                let nzi = nonzero_symbols(freq@, i as nat);
                assert(nonzero_symbols(freq@, (i + 1) as nat) =~= nzi.push(i as u8));
                nzi.to_multiset_ensures();
                assert(nzi.push(i as u8).to_multiset() =~= nzi.to_multiset().insert(i as u8));
                assert(queue_leaves(heap@) =~= nzi.to_multiset().insert(i as u8));
                assert(queue_wf(heap@, freq@)) by {
                    assert forall|j: int| 0 <= j < heap.len() implies (#[trigger] heap@[j]).wf() && heap@[j].weights_ok(freq@) && heap@[j].children_ordered() && heap@[j].fib_ok() by {
                        if j < old_heap.len() {
                            assert(heap@[j] == old_heap[j]);
                        }
                    }
                }
                assert forall|j: int| 0 <= j < heap.len() implies (#[trigger] heap@[j]).inner_max() == 0
                    && heap@[j].left is None by {
                    if j < old_heap.len() {
                        assert(heap@[j] == old_heap[j]);
                    }
                }
            }
        } else {
            assert(nonzero_symbols(freq@, (i + 1) as nat) =~= nonzero_symbols(freq@, i as nat));
        }
        i = i + 1;
    }
    proof {
        lemma_nonzero_symbols(freq@, 256);
        lemma_freq_sum_zero(freq@, 256);
        assert forall|a: int, b: int| 0 <= a < heap.len() && 0 <= b < heap.len() implies #[trigger] heap@[b].weight
            >= #[trigger] heap@[a].inner_max() by {
            assert(heap@[a].inner_max() == 0);
        }
        lemma_leaf_queue(heap@);
    }
    let ghost total = queue_leaves(heap@);
    let ghost w0 = queue_weights(heap@);
    let ghost q0 = heap@;
    while heap.len() > 1
        invariant
            greedy_tree(heap@) == greedy_tree(q0),
            q0 == leaf_queue(freq@, 256),
            heap.len() >= 1 || total.len() == 0,
            freq_sum(freq@, 256) <= u64::MAX,
            queue_wf(heap@, freq@),
            queue_balanced(heap@),
            queue_leaves(heap@) =~= total,
            queue_weight(heap@) == freq_sum(freq@, 256),
            queue_cost(heap@) + greedy_cost(queue_weights(heap@)) == greedy_cost(w0),
            queue_leaf_weights(heap@) =~= w0.to_multiset(),
        decreases heap.len(),
    {
        let ghost h0 = heap@;
        let i1 = lightest(&heap);
        proof {
            lemma_queue_remove(heap@, i1 as int);
        }
        let low_1 = heap.remove(i1);
        let ghost h1 = heap@;
        let i2 = lightest(&heap);
        proof {
            lemma_queue_remove(heap@, i2 as int);
            lemma_queue_weight_bound(heap@, i2 as int);
            lemma_queue_weight_nonneg(heap@.remove(i2 as int));
            assert(low_1 == h0[i1 as int]);
            assert(h1 =~= h0.remove(i1 as int));
            assert(queue_wf(h1, freq@)) by {
                assert forall|j: int| 0 <= j < h1.len() implies (#[trigger] h1[j]).wf() && h1[j].weights_ok(freq@) && h1[j].children_ordered() && h1[j].fib_ok() by {
                    if j < i1 {
                        assert(h1[j] == h0[j]);
                    } else {
                        assert(h1[j] == h0[j + 1]);
                    }
                }
            }
        }
        let low_2 = heap.remove(i2);
        let ghost h2 = heap@;
        proof {
            assert(low_2 == h1[i2 as int]);
            assert(h2 =~= h1.remove(i2 as int));
            assert(queue_wf(h2, freq@)) by {
                assert forall|j: int| 0 <= j < h2.len() implies (#[trigger] h2[j]).wf() && h2[j].weights_ok(freq@) && h2[j].children_ordered() && h2[j].fib_ok() by {
                    if j < i2 {
                        assert(h2[j] == h1[j]);
                    } else {
                        assert(h2[j] == h1[j + 1]);
                    }
                }
            }
        }
        let parent = Node {
            weight: low_1.weight + low_2.weight,
            symbol: None,
            left: Some(Box::new(low_1)),
            right: Some(Box::new(low_2)),
        };
        proof {
            lemma_merge_balanced(h0, i1 as int, i2 as int, parent, freq@);
            lemma_merge_cost(h0, i1 as int, i2 as int, parent, freq@);
            lemma_first_min(queue_weights(h0));
            lemma_first_min(queue_weights(h1));
            assert(greedy_tree(h0) == greedy_tree(h0.remove(i1 as int).remove(i2 as int).push(parent)));
            lemma_multiset_commutative(low_1.leaves(), low_2.leaves());
            assert(heap@.push(parent).drop_last() =~= heap@);
        }
        heap.push(parent);
        proof {
            assert(queue_wf(heap@, freq@)) by {
                assert forall|j: int| 0 <= j < heap.len() implies (#[trigger] heap@[j]).wf() && heap@[j].weights_ok(freq@) && heap@[j].children_ordered() && heap@[j].fib_ok() by {
                    if j < h2.len() {
                        assert(heap@[j] == h2[j]);
                    }
                }
            }
        }
    }
    let ghost hf = heap@;
    let r = heap.pop();
    proof {
        if r is Some {
            let t = r->0;
            assert(hf =~= seq![t]);
            assert(queue_leaves(seq![t]) =~= t.leaves().to_multiset()) by {
                assert(seq![t].drop_last() =~= Seq::<Node>::empty());
                assert(queue_leaves(Seq::<Node>::empty()) =~= Multiset::<u8>::empty());
                assert(seq![t].last() == t);
            }
            assert(hf[0] == t);
            assert(t.wf() && t.weights_ok(freq@) && t.children_ordered() && t.fib_ok());
            assert(hf.drop_last() =~= Seq::<Node>::empty());
            assert(hf.last() == t);
            assert(queue_cost(Seq::<Node>::empty()) == 0);
            assert(queue_leaf_weights(Seq::<Node>::empty()) =~= Multiset::<int>::empty());
            assert(queue_cost(hf) == t.weighted_path_length());
            assert(queue_leaf_weights(hf) =~= t.leaf_weights().to_multiset());
            assert(queue_weights(hf).len() == 1);
            assert forall|o: Node| #[trigger] o.leaf_weights().to_multiset() == t.leaf_weights().to_multiset()
                implies t.weighted_path_length() <= o.weighted_path_length() by {
                lemma_greedy_optimal(w0, o.shape());
            }
            let nz0 = nonzero_symbols(freq@, 256);
            assert(t.leaves().to_multiset() =~= nz0.to_multiset());
            t.leaves().to_multiset_ensures();
            nz0.to_multiset_ensures();
            assert forall|x: u8| #[trigger] t.leaves().contains(x) <==> freq@[x as int] > 0 by {
                assert(t.leaves().contains(x) <==> t.leaves().to_multiset().count(x) > 0);
                assert(nz0.contains(x) <==> nz0.to_multiset().count(x) > 0);
            }
            lemma_wf_leaves_nonempty(t);
            assert(t.leaves().contains(t.leaves()[0]));
            assert(!(forall|k: int| 0 <= k < 256 ==> freq@[k] == 0)) by {
                assert(freq@[t.leaves()[0] as int] > 0);
            }
            let nz = nonzero_symbols(freq@, 256);
            nz.lemma_multiset_has_no_duplicates();
            t.leaves().lemma_multiset_has_no_duplicates_conv();
            assert(queue_weight(seq![t]) == t.weight) by {
                assert(seq![t].drop_last() =~= Seq::<Node>::empty());
                assert(queue_weight(Seq::<Node>::empty()) == 0);
                assert(seq![t].last() == t);
            }
        } else {
            assert(hf.len() == 0);
            nonzero_symbols(freq@, 256).to_multiset_ensures();
            assert(nonzero_symbols(freq@, 256).len() == 0);
            assert forall|k: int| 0 <= k < 256 implies freq@[k] == 0 by {
                if freq@[k] > 0 {
                    assert(nonzero_symbols(freq@, 256).contains(k as u8));
                }
            }
        }
    }
    r
}

/// Index of the first lightest node of a non-empty queue.
fn lightest(heap: &Vec<Node>) -> (r: usize)
    requires
        heap.len() > 0,
    ensures
        r < heap.len(),
        r == first_min(queue_weights(heap@)),
        forall|j: int| 0 <= j < heap.len() ==> heap@[r as int].weight <= #[trigger] heap@[j].weight,
{
    let ghost w = queue_weights(heap@);
    let mut best: usize = 0;
    let mut j: usize = 1;
    proof {
        assert(w.take(1).len() == 1);
    }
    while j < heap.len()
        invariant
            0 < j <= heap.len(),
            w == queue_weights(heap@),
            best < j,
            best == first_min(w.take(j as int)),
            forall|k: int| 0 <= k < j ==> heap@[best as int].weight <= #[trigger] heap@[k].weight,
        decreases heap.len() - j,
    {
        proof {
            assert(w.take(j as int + 1).drop_last() =~= w.take(j as int));
            assert(w.take(j as int + 1)[best as int] == heap@[best as int].weight);
            assert(w.take(j as int + 1).last() == heap@[j as int].weight);
        }
        if heap[j].weight < heap[best].weight {
            best = j;
        }
        j = j + 1;
    }
    proof {
        assert(w.take(j as int) =~= w);
    }
    best
}

} // verus!
