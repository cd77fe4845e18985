//! Weighted path length of code trees, and why joining the two lightest
//! trees first gives the least of it.
use vstd::prelude::*;
use vstd::multiset::Multiset;

verus! {

/// A full binary tree with a weight on each leaf: the shape of a code tree,
/// with each symbol replaced by how often it occurs.
pub enum WeightTree {
    Leaf(int),
    Join(Box<WeightTree>, Box<WeightTree>),
}

impl WeightTree {
    /// The leaf weights, left to right.
    pub open spec fn weights(self) -> Seq<int>
        decreases self,
    {
        match self {
            WeightTree::Leaf(w) => seq![w],
            WeightTree::Join(l, r) => l.weights() + r.weights(),
        }
    }

    /// The sum of the leaf weights.
    pub open spec fn total(self) -> int
        decreases self,
    {
        match self {
            WeightTree::Leaf(w) => w,
            WeightTree::Join(l, r) => l.total() + r.total(),
        }
    }

    /// The weighted path length: each leaf weight times the depth of the leaf,
    /// summed. For a code tree it is the number of bits that the codes of all
    /// symbol occurrences take together.
    pub open spec fn cost(self) -> int
        decreases self,
    {
        match self {
            WeightTree::Leaf(_) => 0,
            WeightTree::Join(l, r) => l.cost() + r.cost() + l.total() + r.total(),
        }
    }

    /// The number of edges on the longest path from the root to a leaf.
    pub open spec fn height(self) -> nat
        decreases self,
    {
        match self {
            WeightTree::Leaf(_) => 0,
            WeightTree::Join(l, r) => 1 + if l.height() >= r.height() {
                l.height()
            } else {
                r.height()
            },
        }
    }

    /// The depth of the `k`-th leaf from the left.
    pub open spec fn depth(self, k: int) -> int
        decreases self,
    {
        match self {
            WeightTree::Leaf(_) => 0,
            WeightTree::Join(l, r) => if k < l.weights().len() {
                1 + l.depth(k)
            } else {
                1 + r.depth(k - l.weights().len())
            },
        }
    }

    /// The tree with the `k`-th leaf weighing `w`.
    pub open spec fn set(self, k: int, w: int) -> WeightTree
        decreases self,
    {
        match self {
            WeightTree::Leaf(_) => WeightTree::Leaf(w),
            WeightTree::Join(l, r) => if k < l.weights().len() {
                WeightTree::Join(Box::new(l.set(k, w)), r)
            } else {
                WeightTree::Join(l, Box::new(r.set(k - l.weights().len(), w)))
            },
        }
    }

    /// The tree with the weights of leaves `i` and `j` exchanged.
    pub open spec fn swap(self, i: int, j: int) -> WeightTree {
        self.set(i, self.weights()[j]).set(j, self.weights()[i])
    }

    /// Whether leaves `k` and `k + 1` are the two children of one node.
    pub open spec fn cherry(self, k: int) -> bool
        decreases self,
    {
        match self {
            WeightTree::Leaf(_) => false,
            WeightTree::Join(l, r) => {
                ||| ((*l) is Leaf && (*r) is Leaf && k == 0)
                ||| (k < l.weights().len() && l.cherry(k))
                ||| (k >= l.weights().len() && r.cherry(k - l.weights().len()))
            },
        }
    }

    /// The tree with the node above leaves `k` and `k + 1` made a leaf that
    /// weighs as much as the two did together.
    pub open spec fn contract(self, k: int) -> WeightTree
        decreases self,
    {
        match self {
            WeightTree::Leaf(_) => self,
            WeightTree::Join(l, r) => if (*l) is Leaf && (*r) is Leaf && k == 0 {
                WeightTree::Leaf(l.total() + r.total())
            } else if k < l.weights().len() {
                WeightTree::Join(Box::new(l.contract(k)), r)
            } else {
                WeightTree::Join(l, Box::new(r.contract(k - l.weights().len())))
            },
        }
    }
}

/// A tree has at least one leaf, and a joined tree at least two.
pub proof fn lemma_weights_len(t: WeightTree)
    ensures
        t.weights().len() >= 1,
        t is Join ==> t.weights().len() >= 2,
        t is Leaf ==> t.weights().len() == 1 && t.cost() == 0,
    decreases t,
{
    if let WeightTree::Join(l, r) = t {
        lemma_weights_len(*l);
        lemma_weights_len(*r);
    }
}

/// Every leaf lies between the root and the height of the tree.
pub proof fn lemma_depth_bound(t: WeightTree, k: int)
    requires
        0 <= k < t.weights().len(),
    ensures
        0 <= t.depth(k) <= t.height(),
    decreases t,
{
    if let WeightTree::Join(l, r) = t {
        if k < l.weights().len() {
            lemma_depth_bound(*l, k);
        } else {
            lemma_depth_bound(*r, k - l.weights().len());
        }
    }
}

/// Reweighing a leaf changes that weight alone, keeps the shape, and changes
/// the weighted path length by the change in weight times the leaf's depth.
pub proof fn lemma_set(t: WeightTree, k: int, w: int)
    requires
        0 <= k < t.weights().len(),
    ensures
        t.set(k, w).weights() == t.weights().update(k, w),
        t.set(k, w).total() == t.total() + (w - t.weights()[k]),
        t.set(k, w).cost() == t.cost() + (w - t.weights()[k]) * t.depth(k),
        t.set(k, w).height() == t.height(),
        forall|j: int| #[trigger] t.set(k, w).depth(j) == t.depth(j),
        forall|j: int| #[trigger] t.set(k, w).cherry(j) == t.cherry(j),
    decreases t,
{
    match t {
        WeightTree::Leaf(_) => {
            assert(t.set(k, w) == WeightTree::Leaf(w));
            assert(t.set(k, w).weights() =~= t.weights().update(k, w));
            assert forall|j: int| #[trigger] t.set(k, w).depth(j) == t.depth(j) by {
                assert(WeightTree::Leaf(w).depth(j) == 0);
            }
        },
        WeightTree::Join(l, r) => {
            let nl = l.weights().len();
            lemma_weights_len(*l);
            lemma_weights_len(*r);
            if k < nl {
                lemma_set(*l, k, w);
                assert(t.set(k, w).weights() =~= t.weights().update(k, w));
                let d = l.depth(k);
                let c = w - t.weights()[k];
                assert(c * d + c == c * (d + 1)) by (nonlinear_arith);
                assert forall|j: int| #[trigger] t.set(k, w).depth(j) == t.depth(j) by {
                    assert(t.set(k, w) == WeightTree::Join(Box::new(l.set(k, w)), r));
                    assert(l.set(k, w).weights().len() == nl);
                    assert(l.set(k, w).depth(j) == l.depth(j));
                }
                assert forall|j: int| #[trigger] t.set(k, w).cherry(j) == t.cherry(j) by {
                    assert(t.set(k, w) == WeightTree::Join(Box::new(l.set(k, w)), r));
                    assert(l.set(k, w).weights().len() == nl);
                    assert(l.set(k, w).cherry(j) == l.cherry(j));
                    if l.set(k, w) is Leaf {
                        assert((*l) is Leaf);
                    }
                    if (*l) is Leaf {
                        assert(l.set(k, w) is Leaf);
                    }
                }
            } else {
                lemma_set(*r, k - nl, w);
                assert(t.set(k, w).weights() =~= t.weights().update(k, w));
                let d = r.depth(k - nl);
                let c = w - t.weights()[k];
                assert(c * d + c == c * (d + 1)) by (nonlinear_arith);
                assert forall|j: int| #[trigger] t.set(k, w).depth(j) == t.depth(j) by {
                    assert(t.set(k, w) == WeightTree::Join(l, Box::new(r.set(k - nl, w))));
                    assert(r.set(k - nl, w).depth(j - nl) == r.depth(j - nl));
                }
                assert forall|j: int| #[trigger] t.set(k, w).cherry(j) == t.cherry(j) by {
                    assert(t.set(k, w) == WeightTree::Join(l, Box::new(r.set(k - nl, w))));
                    assert(r.set(k - nl, w).cherry(j - nl) == r.cherry(j - nl));
                    if r.set(k - nl, w) is Leaf {
                        assert((*r) is Leaf);
                    }
                    if (*r) is Leaf {
                        assert(r.set(k - nl, w) is Leaf);
                    }
                }
            }
        },
    }
}

/// Exchanging the weights of two leaves keeps the multiset of weights and the
/// shape; the weighted path length changes by the difference of the weights
/// times the difference of the depths.
pub proof fn lemma_swap(t: WeightTree, i: int, j: int)
    requires
        0 <= i < t.weights().len(),
        0 <= j < t.weights().len(),
        i != j,
    ensures
        t.swap(i, j).weights() == t.weights().update(i, t.weights()[j]).update(j, t.weights()[i]),
        t.swap(i, j).weights().to_multiset() == t.weights().to_multiset(),
        t.swap(i, j).cost() == t.cost() + (t.weights()[j] - t.weights()[i]) * (t.depth(i) - t.depth(j)),
        t.swap(i, j).height() == t.height(),
        forall|m: int| #[trigger] t.swap(i, j).depth(m) == t.depth(m),
        forall|m: int| #[trigger] t.swap(i, j).cherry(m) == t.cherry(m),
{
    broadcast use vstd::seq_lib::to_multiset_update, vstd::multiset::group_multiset_axioms;

    let w = t.weights();
    let wi = w[i];
    let wj = w[j];
    let u = t.set(i, wj);
    lemma_set(t, i, wj);
    lemma_set(u, j, wi);
    let m = w.to_multiset();
    assert(w.to_multiset().count(wi) > 0) by {
        vstd::seq_lib::to_multiset_contains(w, wi);
        assert(w.contains(wi));
    }
    assert(w.update(i, wj).to_multiset().count(wj) > 0) by {
        vstd::seq_lib::to_multiset_contains(w.update(i, wj), wj);
        assert(w.update(i, wj)[i] == wj);
    }
    assert(u.weights()[j] == wj);
    assert(w.update(i, wj).update(j, wi).to_multiset() =~= m);
    let di = t.depth(i);
    let dj = t.depth(j);
    assert((wj - wi) * di + (wi - wj) * dj == (wj - wi) * (di - dj)) by (nonlinear_arith);
}

/// A cherry's two leaves are next to each other inside the tree.
pub proof fn lemma_cherry_range(t: WeightTree, k: int)
    requires
        t.cherry(k),
    ensures
        0 <= k,
        k + 1 < t.weights().len(),
    decreases t,
{
    if let WeightTree::Join(l, r) = t {
        lemma_weights_len(*l);
        lemma_weights_len(*r);
        let nl = l.weights().len();
        if (*l) is Leaf && (*r) is Leaf && k == 0 {
        } else if k < nl && l.cherry(k) {
            lemma_cherry_range(*l, k);
        } else {
            lemma_cherry_range(*r, k - nl);
        }
    }
}

/// A tree with two leaves or more has a cherry on its lowest level.
pub proof fn lemma_deep_cherry(t: WeightTree) -> (k: int)
    requires
        t is Join,
    ensures
        t.cherry(k),
        0 <= k,
        k + 1 < t.weights().len(),
        t.depth(k) == t.height(),
        t.depth(k + 1) == t.height(),
    decreases t,
{
    match t {
        WeightTree::Leaf(_) => {
            assert(false);
            0
        },
        WeightTree::Join(l, r) => {
            lemma_weights_len(*l);
            lemma_weights_len(*r);
            let nl = l.weights().len();
            if (*l) is Leaf && (*r) is Leaf {
                assert(l.depth(0) == 0 && r.depth(0) == 0);
                assert(t.depth(0) == 1 + l.depth(0));
                assert(t.depth(1) == 1 + r.depth(0));
                assert(l.height() == 0 && r.height() == 0);
                0
            } else if l.height() >= r.height() {
                let k = lemma_deep_cherry(*l);
                assert(t.depth(k) == 1 + l.depth(k));
                assert(t.depth(k + 1) == 1 + l.depth(k + 1));
                assert(t.height() == 1 + l.height());
                k
            } else {
                let k = lemma_deep_cherry(*r);
                assert(t.depth(nl + k) == 1 + r.depth(k));
                assert(t.depth(nl + k + 1) == 1 + r.depth(k + 1));
                assert(t.height() == 1 + r.height());
                nl + k
            }
        },
    }
}

/// Contracting a cherry replaces its two leaf weights by their sum and takes
/// that sum off the weighted path length.
pub proof fn lemma_contract(t: WeightTree, k: int)
    requires
        t.cherry(k),
    ensures
        0 <= k,
        k + 1 < t.weights().len(),
        t.contract(k).weights() == t.weights().take(k) + seq![t.weights()[k] + t.weights()[k + 1]]
            + t.weights().skip(k + 2),
        t.contract(k).total() == t.total(),
        t.contract(k).cost() == t.cost() - (t.weights()[k] + t.weights()[k + 1]),
    decreases t,
{
    lemma_cherry_range(t, k);
    if let WeightTree::Join(l, r) = t {
        lemma_weights_len(*l);
        lemma_weights_len(*r);
        let nl = l.weights().len();
        let w = t.weights();
        if (*l) is Leaf && (*r) is Leaf && k == 0 {
            assert(t.contract(k).weights() =~= w.take(k) + seq![w[k] + w[k + 1]] + w.skip(k + 2));
        } else if k < nl {
            lemma_contract(*l, k);
            assert(t.contract(k).weights() =~= w.take(k) + seq![w[k] + w[k + 1]] + w.skip(k + 2));
        } else {
            lemma_contract(*r, k - nl);
            assert(t.contract(k).weights() =~= w.take(k) + seq![w[k] + w[k + 1]] + w.skip(k + 2));
        }
    }
}

/// With the lightest weight at leaf `ix` and the next lightest at leaf `iy`,
/// exchanging weights brings the two onto a cherry on the lowest level
/// without lengthening the weighted path.
pub proof fn lemma_exchange(t: WeightTree, ix: int, iy: int) -> (r: (WeightTree, int))
    requires
        t is Join,
        0 <= ix < t.weights().len(),
        0 <= iy < t.weights().len(),
        ix != iy,
        forall|m: int| 0 <= m < t.weights().len() ==> t.weights()[ix] <= #[trigger] t.weights()[m],
        forall|m: int| 0 <= m < t.weights().len() && m != ix ==> t.weights()[iy] <= #[trigger] t.weights()[m],
    ensures
        r.0.cherry(r.1),
        r.0.weights()[r.1] == t.weights()[ix],
        r.0.weights()[r.1 + 1] == t.weights()[iy],
        r.0.weights().len() == t.weights().len(),
        r.0.weights().to_multiset() == t.weights().to_multiset(),
        r.0.cost() <= t.cost(),
{
    let w = t.weights();
    let n = w.len();
    let x = w[ix];
    let y = w[iy];
    let k = lemma_deep_cherry(t);
    let h = t.height() as int;
    lemma_depth_bound(t, ix);
    lemma_depth_bound(t, iy);
    let ta = if ix == k { t } else { t.swap(k, ix) };
    if ix != k {
        lemma_swap(t, k, ix);
        let wk = w[k];
        let dx = t.depth(ix);
        assert((x - wk) * (h - dx) <= 0) by (nonlinear_arith)
            requires
                x <= wk,
                dx <= h,
        ;
    }
    let wa = ta.weights();
    let iy2 = if iy == k { ix } else { iy };
    assert(wa.len() == n);
    assert(wa[k] == x);
    assert(wa[iy2] == y);
    assert(iy2 != k);
    assert(forall|m: int| 0 <= m < n && m != k ==> y <= #[trigger] wa[m]);
    assert(ta.cherry(k) && ta.depth(k + 1) == h && ta.height() == h);
    let tb = if iy2 == k + 1 { ta } else { ta.swap(k + 1, iy2) };
    if iy2 != k + 1 {
        lemma_swap(ta, k + 1, iy2);
        lemma_depth_bound(ta, iy2);
        let wk1 = wa[k + 1];
        let dy = ta.depth(iy2);
        assert((y - wk1) * (h - dy) <= 0) by (nonlinear_arith)
            requires
                y <= wk1,
                dy <= h,
        ;
    }
    (tb, k)
}

/// The index of the first least element of `s`.
pub open spec fn first_min(s: Seq<int>) -> int
    decreases s.len(),
{
    if s.len() <= 1 {
        0
    } else {
        let k = first_min(s.drop_last());
        if s.last() < s[k] {
            s.len() - 1
        } else {
            k
        }
    }
}

/// `first_min` picks a least element, and the first one.
pub proof fn lemma_first_min(s: Seq<int>)
    requires
        s.len() >= 1,
    ensures
        0 <= first_min(s) < s.len(),
        forall|m: int| 0 <= m < s.len() ==> s[first_min(s)] <= #[trigger] s[m],
        forall|m: int| 0 <= m < first_min(s) ==> s[first_min(s)] < #[trigger] s[m],
    decreases s.len(),
{
    if s.len() > 1 {
        let t = s.drop_last();
        lemma_first_min(t);
        let k = first_min(t);
        assert(t[k] == s[k]);
        assert forall|m: int| 0 <= m < s.len() implies s[first_min(s)] <= #[trigger] s[m] by {
            if m < s.len() - 1 {
                assert(t[m] == s[m]);
            }
        }
        assert forall|m: int| 0 <= m < first_min(s) implies s[first_min(s)] < #[trigger] s[m] by {
            if m < s.len() - 1 {
                assert(t[m] == s[m]);
            }
        }
    }
}

/// The weighted path length that comes of repeatedly joining the two lightest
/// trees (the first lightest on ties), starting from trees weighing `s`: each
/// join adds the weight of the joined tree.
pub open spec fn greedy_cost(s: Seq<int>) -> int
    decreases s.len(),
{
    if s.len() < 2 {
        0
    } else {
        let i = first_min(s);
        let s1 = s.remove(i);
        let j = first_min(s1);
        let m = s[i] + s1[j];
        proof {
            lemma_first_min(s);
            lemma_first_min(s1);
        }
        m + greedy_cost(s1.remove(j).push(m))
    }
}

/// No tree whose leaves carry the weights `s` has a shorter weighted path
/// than the one that joining the two lightest trees first builds.
pub proof fn lemma_greedy_optimal(s: Seq<int>, t: WeightTree)
    requires
        t.weights().to_multiset() == s.to_multiset(),
    ensures
        greedy_cost(s) <= t.cost(),
    decreases s.len(),
{
    broadcast use vstd::seq_lib::group_to_multiset_ensures, vstd::multiset::group_multiset_axioms;

    let w = t.weights();
    lemma_weights_len(t);
    vstd::seq_lib::to_multiset_len(w);
    vstd::seq_lib::to_multiset_len(s);
    assert(w.len() == s.len());
    if s.len() >= 2 {
        lemma_first_min(s);
        let i = first_min(s);
        let x = s[i];
        let s1 = s.remove(i);
        lemma_first_min(s1);
        let j = first_min(s1);
        let y = s1[j];
        let m = x + y;
        let s2 = s1.remove(j).push(m);
        assert(s1[j] == y);
        // where the two lightest weights sit in the tree
        vstd::seq_lib::to_multiset_contains(s, x);
        vstd::seq_lib::to_multiset_contains(w, x);
        assert(s.contains(x));
        assert(w.contains(x));
        let ix = choose|p: int| 0 <= p < w.len() && w[p] == x;
        let w1 = w.remove(ix);
        vstd::seq_lib::to_multiset_remove(w, ix);
        vstd::seq_lib::to_multiset_remove(s, i);
        assert(w1.to_multiset() == s1.to_multiset());
        vstd::seq_lib::to_multiset_contains(s1, y);
        vstd::seq_lib::to_multiset_contains(w1, y);
        assert(s1.contains(y));
        assert(w1.contains(y));
        let p1 = choose|p: int| 0 <= p < w1.len() && w1[p] == y;
        let iy = if p1 < ix { p1 } else { p1 + 1 };
        assert(w[iy] == y);
        assert forall|p: int| 0 <= p < w.len() implies x <= #[trigger] w[p] by {
            vstd::seq_lib::to_multiset_contains(w, w[p]);
            vstd::seq_lib::to_multiset_contains(s, w[p]);
            assert(w.contains(w[p]));
            let q = choose|q: int| 0 <= q < s.len() && s[q] == w[p];
            assert(x <= s[q]);
        }
        assert forall|p: int| 0 <= p < w.len() && p != ix implies y <= #[trigger] w[p] by {
            let p2 = if p < ix { p } else { p - 1 };
            assert(w1[p2] == w[p]);
            vstd::seq_lib::to_multiset_contains(w1, w[p]);
            vstd::seq_lib::to_multiset_contains(s1, w[p]);
            assert(w1.contains(w[p]));
            let q = choose|q: int| 0 <= q < s1.len() && s1[q] == w[p];
            assert(y <= s1[q]);
        }
        if t is Leaf {
            assert(false);
        }
        let (t1, k) = lemma_exchange(t, ix, iy);
        lemma_contract(t1, k);
        let t2 = t1.contract(k);
        let v = t1.weights();
        let pre = v.take(k);
        let post = v.skip(k + 2);
        assert(v =~= pre + seq![x, y] + post);
        assert(t2.weights() =~= pre + seq![m] + post);
        vstd::seq_lib::lemma_multiset_commutative(pre + seq![x, y], post);
        vstd::seq_lib::lemma_multiset_commutative(pre, seq![x, y]);
        vstd::seq_lib::lemma_multiset_commutative(pre + seq![m], post);
        vstd::seq_lib::lemma_multiset_commutative(pre, seq![m]);
        assert(seq![x, y].to_multiset() =~= Multiset::empty().insert(x).insert(y)) by {
            assert(seq![x, y] =~= seq![x].push(y));
            assert(seq![x] =~= Seq::<int>::empty().push(x));
        }
        assert(seq![m].to_multiset() =~= Multiset::empty().insert(m)) by {
            assert(seq![m] =~= Seq::<int>::empty().push(m));
        }
        vstd::seq_lib::to_multiset_remove(s1, j);
        assert(s2.to_multiset() =~= s.to_multiset().remove(x).remove(y).insert(m));
        assert(t2.weights().to_multiset() =~= s2.to_multiset());
        lemma_greedy_optimal(s2, t2);
    } else if t is Join {
        assert(false);
    }
}

} // verus!
