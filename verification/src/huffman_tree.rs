//! Huffman trees over weighted symbols, and the code lengths they give.

use vstd::arithmetic::power2::*;
use vstd::prelude::*;

verus! {

/// A Huffman tree. The weight of a node is the sum of the weights below it.
pub enum Tree {
    Leaf { code: u32, weight: u32 },
    Node { weight: u32, left: Box<Tree>, right: Box<Tree> },
}

impl Tree {
    pub open spec fn spec_weight(&self) -> u32 {
        match *self {
            Tree::Leaf { weight, .. } => weight,
            Tree::Node { weight, .. } => weight,
        }
    }

    pub fn weight(&self) -> (r: u32)
        ensures
            r == self.spec_weight(),
    {
        match self {
            Tree::Leaf { weight, .. } => *weight,
            Tree::Node { weight, .. } => *weight,
        }
    }

    /// The length of the longest path down.
    pub open spec fn height(self) -> nat
        decreases self,
    {
        match self {
            Tree::Leaf { .. } => 0,
            Tree::Node { left, right, .. } => if left.height() >= right.height() {
                left.height() + 1
            } else {
                right.height() + 1
            },
        }
    }

    /// The number of leaves.
    pub open spec fn size(self) -> nat
        decreases self,
    {
        match self {
            Tree::Leaf { .. } => 1,
            Tree::Node { left, right, .. } => left.size() + right.size(),
        }
    }

    /// Whether symbol `c` is at a leaf.
    pub open spec fn has(self, c: u32) -> bool
        decreases self,
    {
        match self {
            Tree::Leaf { code, .. } => code == c,
            Tree::Node { left, right, .. } => left.has(c) || right.has(c),
        }
    }

    /// Whether no symbol is at two leaves.
    pub open spec fn distinct(self) -> bool
        decreases self,
    {
        match self {
            Tree::Leaf { .. } => true,
            Tree::Node { left, right, .. } => {
                &&& left.distinct()
                &&& right.distinct()
                &&& forall|c: u32| !(#[trigger] left.has(c) && right.has(c))
            },
        }
    }

    /// The number of nodes, leaves among them, at depth `d`.
    pub open spec fn nodes_at(self, d: nat) -> nat
        decreases self,
    {
        match self {
            Tree::Leaf { .. } => if d == 0 {
                1
            } else {
                0
            },
            Tree::Node { left, right, .. } => if d == 0 {
                1
            } else {
                left.nodes_at((d - 1) as nat) + right.nodes_at((d - 1) as nat)
            },
        }
    }

    /// The number of leaves at depth `d`.
    pub open spec fn leaves_at(self, d: nat) -> nat
        decreases self,
    {
        match self {
            Tree::Leaf { .. } => if d == 0 {
                1
            } else {
                0
            },
            Tree::Node { left, right, .. } => if d == 0 {
                0
            } else {
                left.leaves_at((d - 1) as nat) + right.leaves_at((d - 1) as nat)
            },
        }
    }
}

/// The place for a tree of weight `w` in a list of descending weights, from place `i` on:
/// behind every tree that weighs as much.
pub open spec fn insert_point(list: Seq<Tree>, w: u32, i: int) -> int
    decreases list.len() - i,
{
    if i < 0 || i >= list.len() || w > list[i].spec_weight() {
        i
    } else {
        insert_point(list, w, i + 1)
    }
}

/// The list with `t` at its place.
pub open spec fn inserted(list: Seq<Tree>, t: Tree) -> Seq<Tree> {
    list.insert(insert_point(list, t.spec_weight(), 0), t)
}

/// The weight of a symbol that occurs `count > 0` times out of `total`, when all the weights
/// are scaled to add up to about `scale`. No weight is zero.
pub open spec fn scaled_weight(count: u32, total: u32, scale: u32) -> u32 {
    let w = (count * scale) / (total as int);
    if w == 0 {
        1
    } else {
        w as u32
    }
}

/// The leaves of the first `n` symbols that occur, by descending weight, and where weights are
/// equal by ascending symbol.
pub open spec fn leaves(histo: Seq<u32>, total: u32, scale: u32, n: nat) -> Seq<Tree>
    decreases n,
{
    if n == 0 {
        Seq::empty()
    } else {
        let rest = leaves(histo, total, scale, (n - 1) as nat);
        if histo[n - 1] == 0 {
            rest
        } else {
            inserted(
                rest,
                Tree::Leaf {
                    code: (n - 1) as u32,
                    weight: scaled_weight(histo[n - 1], total, scale),
                },
            )
        }
    }
}

/// The tree over two others.
pub open spec fn joined(a: Tree, b: Tree) -> Tree {
    Tree::Node {
        weight: (a.spec_weight() + b.spec_weight()) as u32,
        left: Box::new(a),
        right: Box::new(b),
    }
}

/// The list after its two lightest trees were replaced by the tree over them.
pub open spec fn step(list: Seq<Tree>) -> Seq<Tree> {
    inserted(
        list.take(list.len() - 2),
        joined(list[list.len() - 2], list[list.len() - 1]),
    )
}

/// What is left of a list when steps were taken down to a single tree.
pub open spec fn combined(list: Seq<Tree>) -> Seq<Tree>
    decreases list.len(),
{
    if list.len() <= 1 {
        list
    } else {
        proof {
            lemma_insert_point(
                list.take(list.len() - 2),
                joined(list[list.len() - 2], list[list.len() - 1]).spec_weight(),
                0,
            );
        }
        combined(step(list))
    }
}

/// `lengths` with the depths of the leaves of `t` put in, where `t` hangs at depth `d`.
/// A tree that is a single leaf still gets a code of one bit.
pub open spec fn with_lengths(t: Tree, d: nat, lengths: Seq<u8>) -> Seq<u8>
    decreases t,
{
    match t {
        Tree::Leaf { code, .. } => lengths.update(
            code as int,
            if d == 0 {
                1u8
            } else {
                d as u8
            },
        ),
        Tree::Node { left, right, .. } => with_lengths(
            *right,
            d + 1,
            with_lengths(*left, d + 1, lengths),
        ),
    }
}

/// The code length of every symbol; zero for a symbol that does not occur.
pub open spec fn tree_lengths(histo: Seq<u32>, total: u32, scale: u32) -> Seq<u8> {
    let none = Seq::new(histo.len(), |i: int| 0u8);
    let list = combined(leaves(histo, total, scale, histo.len()));
    if list.len() == 0 {
        none
    } else {
        with_lengths(list[0], 0, none)
    }
}

/// The greatest of the first `n` lengths.
pub open spec fn longest(lengths: Seq<u8>, n: nat) -> u8
    decreases n,
{
    if n == 0 {
        0
    } else {
        let m = longest(lengths, (n - 1) as nat);
        if lengths[n - 1] > m {
            lengths[n - 1]
        } else {
            m
        }
    }
}

/// The sum of the first `n` counts.
pub open spec fn sum_of(histo: Seq<u32>, n: nat) -> nat
    decreases n,
{
    if n == 0 {
        0
    } else {
        sum_of(histo, (n - 1) as nat) + histo[n - 1] as nat
    }
}

/// The number of symbols, out of the first `n`, that occur.
pub open spec fn used(histo: Seq<u32>, n: nat) -> nat
    decreases n,
{
    if n == 0 {
        0
    } else {
        used(histo, (n - 1) as nat) + if histo[n - 1] == 0 {
            0nat
        } else {
            1nat
        }
    }
}

pub proof fn lemma_insert_point(list: Seq<Tree>, w: u32, i: int)
    requires
        0 <= i <= list.len(),
    ensures
        i <= insert_point(list, w, i) <= list.len(),
        forall|j: int| i <= j < insert_point(list, w, i) ==> w <= (#[trigger] list[j]).spec_weight(),
        insert_point(list, w, i) < list.len() ==> w > list[insert_point(list, w, i)].spec_weight(),
    decreases list.len() - i,
{
    if i < list.len() && !(w > list[i].spec_weight()) {
        lemma_insert_point(list, w, i + 1);
    }
}

/// The sum over a list of what `f` says of each tree.
spec fn list_sum(list: Seq<Tree>, f: spec_fn(Tree) -> int) -> int
    decreases list.len(),
{
    if list.len() == 0 {
        0
    } else {
        list_sum(list.drop_last(), f) + f(list.last())
    }
}

proof fn lemma_sum_insert(list: Seq<Tree>, p: int, t: Tree, f: spec_fn(Tree) -> int)
    requires
        0 <= p <= list.len(),
    ensures
        list_sum(list.insert(p, t), f) == list_sum(list, f) + f(t),
    decreases list.len(),
{
    let new = list.insert(p, t);
    if p == list.len() {
        assert(new.drop_last() =~= list);
    } else {
        assert(new.drop_last() =~= list.drop_last().insert(p, t));
        assert(new.last() == list.last());
        lemma_sum_insert(list.drop_last(), p, t, f);
    }
}

proof fn lemma_sum_step(list: Seq<Tree>, f: spec_fn(Tree) -> int)
    requires
        list.len() >= 2,
    ensures
        list_sum(step(list), f) == list_sum(list, f) - f(list[list.len() - 2]) - f(
            list[list.len() - 1],
        ) + f(joined(list[list.len() - 2], list[list.len() - 1])),
        step(list).len() == list.len() - 1,
{
    let n = list.len();
    let base = list.take(n - 2);
    let t = joined(list[n - 2], list[n - 1]);
    lemma_insert_point(base, t.spec_weight(), 0);
    lemma_sum_insert(base, insert_point(base, t.spec_weight(), 0), t, f);
    assert(list.drop_last().drop_last() =~= base);
    assert(list.drop_last().last() == list[n - 2]);
    assert(list_sum(list.drop_last(), f) == list_sum(base, f) + f(list[n - 2]));
}

spec fn weight_fn() -> spec_fn(Tree) -> int {
    |t: Tree| t.spec_weight() as int
}

spec fn size_fn() -> spec_fn(Tree) -> int {
    |t: Tree| t.size() as int
}

proof fn lemma_sum_bounds(list: Seq<Tree>, f: spec_fn(Tree) -> int)
    requires
        forall|t: Tree| #[trigger] f(t) >= 0,
    ensures
        list_sum(list, f) >= 0,
        forall|i: int| 0 <= i < list.len() ==> f(#[trigger] list[i]) <= list_sum(list, f),
        list.len() >= 2 ==> f(list[list.len() - 2]) + f(list[list.len() - 1]) <= list_sum(list, f),
    decreases list.len(),
{
    if list.len() > 0 {
        lemma_sum_bounds(list.drop_last(), f);
        assert(f(list.last()) >= 0);
        assert forall|i: int| 0 <= i < list.len() implies f(#[trigger] list[i]) <= list_sum(list, f) by {
            if i < list.len() - 1 {
                assert(list.drop_last()[i] == list[i]);
            }
        }
        if list.len() >= 2 {
            assert(list.drop_last()[list.len() - 2] == list[list.len() - 2]);
        }
    }
}

/// A tree is lower than it has leaves.
proof fn lemma_height(t: Tree)
    ensures
        t.height() < t.size(),
        t.size() >= 1,
    decreases t,
{
    match t {
        Tree::Leaf { .. } => {},
        Tree::Node { left, right, .. } => {
            lemma_height(*left);
            lemma_height(*right);
        },
    }
}

/// What holds of a list of trees all along: symbols are below `n` and no two leaves share one.
pub open spec fn list_ok(list: Seq<Tree>, n: nat) -> bool {
    &&& forall|i: int| 0 <= i < list.len() ==> (#[trigger] list[i]).distinct()
    &&& forall|i: int, c: u32| 0 <= i < list.len() && #[trigger] list[i].has(c) ==> c < n
    &&& forall|i: int, j: int, c: u32|
        0 <= i < list.len() && 0 <= j < list.len() && i != j && #[trigger] list[i].has(c)
            ==> !#[trigger] list[j].has(c)
}

/// Whether the weights of a list descend.
pub open spec fn sorted(list: Seq<Tree>) -> bool {
    forall|i: int, j: int|
        0 <= i <= j < list.len() ==> (#[trigger] list[i]).spec_weight() >= (
        #[trigger] list[j]).spec_weight()
}

pub proof fn lemma_inserted_sorted(list: Seq<Tree>, t: Tree)
    requires
        sorted(list),
    ensures
        sorted(inserted(list, t)),
{
    lemma_insert_point(list, t.spec_weight(), 0);
    let p = insert_point(list, t.spec_weight(), 0);
    let new = inserted(list, t);
    assert forall|i: int, j: int| 0 <= i <= j < new.len() implies (#[trigger] new[i]).spec_weight() >= (
    #[trigger] new[j]).spec_weight() by {
        let a = if i < p { list[i] } else { list[i - 1] };
        let b = if j < p { list[j] } else { list[j - 1] };
        if i != p { assert(new[i] == a); }
        if j != p { assert(new[j] == b); }
        if i == p && j > p {
            assert(list[p].spec_weight() >= list[j - 1].spec_weight());
        }
    }
}

proof fn lemma_inserted_ok(list: Seq<Tree>, t: Tree, n: nat)
    requires
        list_ok(list, n),
        t.distinct(),
        forall|c: u32| #[trigger] t.has(c) ==> c < n,
        forall|i: int, c: u32| 0 <= i < list.len() && #[trigger] list[i].has(c) ==> !t.has(c),
    ensures
        list_ok(inserted(list, t), n),
        inserted(list, t).len() == list.len() + 1,
{
    lemma_insert_point(list, t.spec_weight(), 0);
    let p = insert_point(list, t.spec_weight(), 0);
    let new = inserted(list, t);
    assert forall|i: int| 0 <= i < new.len() implies #[trigger] new[i] == (if i < p {
        list[i]
    } else if i == p {
        t
    } else {
        list[i - 1]
    }) by {}
    assert forall|i: int, j: int, c: u32|
        0 <= i < new.len() && 0 <= j < new.len() && i != j && #[trigger] new[i].has(c) implies !(
    #[trigger] new[j].has(c)) by {
        let i0 = if i < p { i } else { i - 1 };
        let j0 = if j < p { j } else { j - 1 };
        if i != p {
            assert(list[i0].has(c));
        }
        if j != p && new[j].has(c) {
            assert(list[j0].has(c));
        }
    }
}

proof fn lemma_step_ok(list: Seq<Tree>, n: nat)
    requires
        list_ok(list, n),
        list.len() >= 2,
    ensures
        list_ok(step(list), n),
{
    let m = list.len();
    let base = list.take(m - 2);
    let a = list[m - 2];
    let b = list[m - 1];
    let t = joined(a, b);
    assert forall|c: u32| !(#[trigger] a.has(c) && b.has(c)) by {
        if a.has(c) && b.has(c) {
            assert(list[m - 2].has(c) && list[m - 1].has(c));
        }
    }
    assert forall|c: u32| #[trigger] t.has(c) implies c < n by {
        assert(list[m - 2].has(c) || list[m - 1].has(c));
    }
    assert(list_ok(base, n)) by {
        assert forall|i: int| 0 <= i < base.len() implies #[trigger] base[i] == list[i] by {}
        assert forall|i: int, j: int, c: u32|
            0 <= i < base.len() && 0 <= j < base.len() && i != j && #[trigger] base[i].has(c)
            implies !#[trigger] base[j].has(c) by {
            assert(list[i].has(c));
            if base[j].has(c) {
                assert(list[j].has(c));
            }
        }
        assert forall|i: int, c: u32| 0 <= i < base.len() && #[trigger] base[i].has(c) implies c < n by {
            assert(list[i].has(c));
        }
    }
    assert forall|i: int, c: u32| 0 <= i < base.len() && #[trigger] base[i].has(c) implies !t.has(c) by {
        assert(list[i].has(c));
        if t.has(c) {
            assert(list[m - 2].has(c) || list[m - 1].has(c));
        }
    }
    lemma_inserted_ok(base, t, n);
}

proof fn lemma_scaled(count: u32, total: u32, scale: u32)
    requires
        0 < count <= total,
        scale <= 2 * total,
        2 * total <= u32::MAX,
    ensures
        1 <= scaled_weight(count, total, scale) <= 2 * count,
        (count * scale) / (total as int) <= u32::MAX,
        scale == 0 ==> scaled_weight(count, total, scale) == 1,
{
    let q = (count * scale) / (total as int);
    assert(0 <= q <= 2 * count) by (nonlinear_arith)
        requires
            total > 0,
            scale <= 2 * total,
            q == (count * scale) / (total as int),
    ;
    if scale == 0 {
        assert(count * scale == 0);
    }
}

pub proof fn lemma_sum_mono(histo: Seq<u32>, n: nat, m: nat)
    requires
        n <= m <= histo.len(),
    ensures
        sum_of(histo, n) <= sum_of(histo, m),
        forall|i: int| 0 <= i < m ==> histo[i] <= sum_of(histo, m),
    decreases m,
{
    if m > 0 {
        if n < m {
            lemma_sum_mono(histo, n, (m - 1) as nat);
        } else {
            lemma_sum_mono(histo, (n - 1) as nat, (m - 1) as nat);
        }
    }
}

proof fn lemma_leaves(histo: Seq<u32>, total: u32, scale: u32, n: nat)
    requires
        n <= histo.len() <= 256,
        total == sum_of(histo, histo.len()),
        scale <= 2 * total,
        2 * total <= u32::MAX,
    ensures
        list_ok(leaves(histo, total, scale, n), n),
        sorted(leaves(histo, total, scale, n)),
        list_sum(leaves(histo, total, scale, n), weight_fn()) <= 2 * sum_of(histo, n),
        list_sum(leaves(histo, total, scale, n), size_fn()) == used(histo, n),
        leaves(histo, total, scale, n).len() == used(histo, n) <= n,
        forall|i: int|
            0 <= i < used(histo, n) ==> (#[trigger] leaves(histo, total, scale, n)[i]) is Leaf,
    decreases n,
{
    if n > 0 {
        let m = (n - 1) as nat;
        lemma_leaves(histo, total, scale, m);
        lemma_sum_mono(histo, n, histo.len());
        let rest = leaves(histo, total, scale, m);
        let whole = leaves(histo, total, scale, n);
        if histo[n - 1] != 0 {
            let t = Tree::Leaf { code: (n - 1) as u32, weight: scaled_weight(histo[n - 1], total, scale) };
            lemma_scaled(histo[n - 1], total, scale);
            assert forall|i: int, c: u32| 0 <= i < rest.len() && #[trigger] rest[i].has(c) implies !t.has(c) by {}
            assert(list_ok(rest, n));
            lemma_inserted_ok(rest, t, n);
            lemma_inserted_sorted(rest, t);
            lemma_insert_point(rest, t.spec_weight(), 0);
            let p = insert_point(rest, t.spec_weight(), 0);
            lemma_sum_insert(rest, p, t, weight_fn());
            lemma_sum_insert(rest, p, t, size_fn());
            assert(t.size() == 1);
            assert forall|i: int| 0 <= i < whole.len() implies (#[trigger] whole[i]) is Leaf by {
                if i < p {
                    assert(whole[i] == rest[i]);
                } else if i > p {
                    assert(whole[i] == rest[i - 1]);
                }
            }
        } else {
            assert(list_ok(rest, n));
        }
    }
}

/// The trees that a list is combined to keep the symbols and the sizes of the list.
proof fn lemma_combined(list: Seq<Tree>, n: nat)
    requires
        list_ok(list, n),
    ensures
        list_ok(combined(list), n),
        list_sum(combined(list), size_fn()) == list_sum(list, size_fn()),
        combined(list).len() == if list.len() == 0 { 0int } else { 1 },
    decreases list.len(),
{
    if list.len() > 1 {
        lemma_step_ok(list, n);
        lemma_sum_step(list, size_fn());
        lemma_combined(step(list), n);
    }
}

/// The lengths that a tree of given symbols puts in.
proof fn lemma_with_lengths(t: Tree, d: nat, lengths: Seq<u8>, m: nat)
    requires
        forall|c: u32| #[trigger] t.has(c) ==> c < lengths.len(),
        d + t.height() <= m <= 255,
        1 <= m,
        forall|i: int| 0 <= i < lengths.len() ==> #[trigger] lengths[i] <= m,
    ensures
        with_lengths(t, d, lengths).len() == lengths.len(),
        forall|i: int| 0 <= i < lengths.len() ==> #[trigger] with_lengths(t, d, lengths)[i] <= m,
        forall|c: u32|
            c < lengths.len() && !#[trigger] t.has(c) ==> with_lengths(t, d, lengths)[c as int]
                == lengths[c as int],
        forall|c: u32| #[trigger] t.has(c) ==> with_lengths(t, d, lengths)[c as int] >= 1,
    decreases t,
{
    match t {
        Tree::Leaf { code, .. } => {
            assert(t.has(code));
        },
        Tree::Node { left, right, .. } => {
            assert forall|c: u32| #[trigger] left.has(c) implies c < lengths.len() by {
                assert(t.has(c));
            }
            lemma_with_lengths(*left, d + 1, lengths, m);
            let mid = with_lengths(*left, d + 1, lengths);
            assert forall|c: u32| #[trigger] right.has(c) implies c < mid.len() by {
                assert(t.has(c));
            }
            lemma_with_lengths(*right, d + 1, mid, m);
            assert forall|c: u32| c < lengths.len() && !#[trigger] t.has(c) implies with_lengths(
                t,
                d,
                lengths,
            )[c as int] == lengths[c as int] by {
                assert(!left.has(c) && !right.has(c));
            }
            assert forall|c: u32| #[trigger] t.has(c) implies with_lengths(t, d, lengths)[c as int]
                >= 1 by {
                if right.has(c) {
                } else {
                    assert(left.has(c));
                }
            }
        },
    }
}

pub proof fn lemma_longest(lengths: Seq<u8>, n: nat, m: u8)
    requires
        n <= lengths.len(),
    ensures
        longest(lengths, n) <= m <==> forall|i: int| 0 <= i < n ==> #[trigger] lengths[i] <= m,
    decreases n,
{
    if n > 0 {
        lemma_longest(lengths, (n - 1) as nat, m);
    }
}

/// A tree as light as 2^k, or as 2^(k+1), or between the two.
spec fn even_item(t: Tree, k: nat) -> bool {
    ||| t.spec_weight() == pow2(k) && t.height() <= k
    ||| t.spec_weight() == pow2(k + 1) && t.height() <= k + 1
}

spec fn odd_item(t: Tree, k: nat) -> bool {
    pow2(k) < t.spec_weight() < pow2(k + 1) && t.height() <= k + 1
}

/// A list of equal weights as it is combined: no two trees between the powers of two.
spec fn balanced(list: Seq<Tree>, k: nat) -> bool {
    &&& sorted(list)
    &&& forall|i: int| 0 <= i < list.len() ==> even_item(#[trigger] list[i], k) || odd_item(list[i], k)
    &&& forall|i: int, j: int|
        0 <= i < list.len() && 0 <= j < list.len() && odd_item(#[trigger] list[i], k) && odd_item(
            #[trigger] list[j],
            k,
        ) ==> i == j
}

proof fn lemma_balanced_step(list: Seq<Tree>, k: nat) -> (k1: nat)
    requires
        balanced(list, k),
        list.len() >= 2,
        list_sum(list, weight_fn()) <= u32::MAX,
    ensures
        balanced(step(list), k1),
{
    let m = list.len();
    let a = list[m - 2];
    let b = list[m - 1];
    let t = joined(a, b);
    let base = list.take(m - 2);
    lemma_pow2_pos(k);
    lemma_pow2_unfold(k + 1);
    lemma_pow2_unfold(k + 2);
    lemma_sum_bounds(list, weight_fn());
    assert(weight_fn()(a) + weight_fn()(b) <= list_sum(list, weight_fn()));
    assert(t.spec_weight() == a.spec_weight() + b.spec_weight());
    assert(sorted(base));
    lemma_inserted_sorted(base, t);
    lemma_insert_point(base, t.spec_weight(), 0);
    let p = insert_point(base, t.spec_weight(), 0);
    let new = step(list);
    assert forall|i: int| 0 <= i < new.len() implies #[trigger] new[i] == (if i < p {
        list[i]
    } else if i == p {
        t
    } else {
        list[i - 1]
    }) by {}
    assert(even_item(a, k) || odd_item(a, k));
    assert(even_item(b, k) || odd_item(b, k));
    assert(a.spec_weight() >= b.spec_weight());
    let both_small = a.spec_weight() == pow2(k) && b.spec_weight() == pow2(k);
    let k1: nat = if both_small { k } else { k + 1 };
    if both_small {
        assert(even_item(t, k));
        assert forall|i: int, j: int|
            0 <= i < new.len() && 0 <= j < new.len() && odd_item(#[trigger] new[i], k) && odd_item(
                #[trigger] new[j],
                k,
            ) implies i == j by {
            let i0 = if i < p { i } else { i - 1 };
            let j0 = if j < p { j } else { j - 1 };
            if i != p && j != p {
                assert(list[i0] == new[i] && list[j0] == new[j]);
            }
        }
    } else {
        assert forall|i: int| 0 <= i < m - 2 implies (#[trigger] list[i]).spec_weight() == pow2(k + 1)
            && list[i].height() <= k + 1 by {
            assert(list[i].spec_weight() >= list[m - 2].spec_weight());
            assert(list[i].spec_weight() >= list[m - 1].spec_weight());
            if odd_item(list[i], k) {
                assert(!odd_item(list[m - 2], k));
                assert(!odd_item(list[m - 1], k));
            }
        }
        assert(even_item(t, k1) || odd_item(t, k1));
        assert forall|i: int, j: int|
            0 <= i < new.len() && 0 <= j < new.len() && odd_item(#[trigger] new[i], k1) && odd_item(
                #[trigger] new[j],
                k1,
            ) implies i == j by {
            let i0 = if i < p { i } else { i - 1 };
            let j0 = if j < p { j } else { j - 1 };
            if i != p {
                assert(list[i0] == new[i]);
            }
            if j != p {
                assert(list[j0] == new[j]);
            }
        }
    }
    k1
}

proof fn lemma_balanced_combined(list: Seq<Tree>, k: nat) -> (k1: nat)
    requires
        balanced(list, k),
        list.len() >= 1,
        list_sum(list, weight_fn()) <= u32::MAX,
    ensures
        balanced(combined(list), k1),
        list_sum(combined(list), weight_fn()) == list_sum(list, weight_fn()),
    decreases list.len(),
{
    if list.len() <= 1 {
        k
    } else {
        let k2 = lemma_balanced_step(list, k);
        lemma_sum_bounds(list, weight_fn());
        lemma_sum_step(list, weight_fn());
        lemma_balanced_combined(step(list), k2)
    }
}

proof fn lemma_ones(histo: Seq<u32>, total: u32, n: nat)
    requires
        n <= histo.len() <= 256,
        total == sum_of(histo, histo.len()),
        2 * total <= u32::MAX,
    ensures
        forall|i: int|
            0 <= i < used(histo, n) ==> (#[trigger] leaves(histo, total, 0, n)[i]).spec_weight() == 1,
        list_sum(leaves(histo, total, 0, n), weight_fn()) == used(histo, n),
    decreases n,
{
    lemma_leaves(histo, total, 0, n);
    if n > 0 {
        let m = (n - 1) as nat;
        lemma_ones(histo, total, m);
        lemma_leaves(histo, total, 0, m);
        lemma_sum_mono(histo, n, histo.len());
        if histo[n - 1] != 0 {
            let rest = leaves(histo, total, 0, m);
            let whole = leaves(histo, total, 0, n);
            let t = Tree::Leaf { code: (n - 1) as u32, weight: scaled_weight(histo[n - 1], total, 0) };
            lemma_scaled(histo[n - 1], total, 0);
            lemma_insert_point(rest, t.spec_weight(), 0);
            let p = insert_point(rest, t.spec_weight(), 0);
            lemma_sum_insert(rest, p, t, weight_fn());
            assert forall|i: int| 0 <= i < whole.len() implies (#[trigger] whole[i]).spec_weight() == 1 by {
                if i < p {
                    assert(whole[i] == rest[i]);
                } else if i > p {
                    assert(whole[i] == rest[i - 1]);
                }
            }
        }
    }
}

/// Symbols of equal weight get codes of the least length that is enough for all of them.
pub proof fn equal_weights_fit(histo: Seq<u32>, total: u32, max_bits: u8)
    requires
        histo.len() <= 256,
        total == sum_of(histo, histo.len()),
        2 * total <= u32::MAX,
        1 <= max_bits,
        used(histo, histo.len()) <= pow2(max_bits as nat),
    ensures
        longest(tree_lengths(histo, total, 0), histo.len()) <= max_bits,
{
    let n = histo.len();
    let list = leaves(histo, total, 0, n);
    let none = Seq::new(n, |i: int| 0u8);
    lemma_leaves(histo, total, 0, n);
    lemma_ones(histo, total, n);
    lemma_combined(list, n);
    if list.len() == 0 {
        lemma_longest(none, n, max_bits);
    } else {
        lemma_pow2_unfold(1);
        lemma2_to64();
        assert(balanced(list, 0)) by {
            assert forall|i: int| 0 <= i < list.len() implies even_item(#[trigger] list[i], 0) by {}
            assert forall|i: int, j: int|
                0 <= i < list.len() && 0 <= j < list.len() && odd_item(#[trigger] list[i], 0) && odd_item(
                    #[trigger] list[j],
                    0,
                ) implies i == j by {
                assert(list[i].spec_weight() == 1);
            }
        }
        let k = lemma_balanced_combined(list, 0);
        let t = combined(list)[0];
        let one = combined(list);
        assert(one =~= seq![t]);
        assert(list_sum(one, weight_fn()) == t.spec_weight()) by {
            assert(one.drop_last() =~= Seq::empty());
            assert(list_sum(one.drop_last(), weight_fn()) == 0);
        }
        assert(even_item(t, k) || odd_item(t, k));
        if t.height() > max_bits {
            if k > max_bits {
                lemma_pow2_strictly_increases(max_bits as nat, k);
            }
            if k + 1 > max_bits {
                lemma_pow2_strictly_increases(max_bits as nat, k + 1);
            }
            assert(false);
        }
        lemma_with_lengths(t, 0, none, max_bits as nat);
        lemma_longest(with_lengths(t, 0, none), n, max_bits);
    }
}


proof fn lemma_step_sums(list: Seq<Tree>)
    requires
        list.len() >= 2,
        list_sum(list, weight_fn()) <= u32::MAX,
    ensures
        list[list.len() - 2].spec_weight() + list[list.len() - 1].spec_weight() <= u32::MAX,
        list_sum(step(list), weight_fn()) == list_sum(list, weight_fn()),
        list_sum(step(list), size_fn()) == list_sum(list, size_fn()),
{
    lemma_sum_bounds(list, weight_fn());
    lemma_sum_step(list, weight_fn());
    lemma_sum_step(list, size_fn());
    assert(weight_fn()(list[list.len() - 2]) + weight_fn()(list[list.len() - 1]) <= list_sum(
        list,
        weight_fn(),
    ));
}

/// Puts a tree at its place in a list of descending weights.
fn insert_tree(list: &mut Vec<Tree>, t: Tree)
    requires
        old(list)@.len() < usize::MAX,
    ensures
        final(list)@ == inserted(old(list)@, t),
{
    let w = t.weight();
    let mut i: usize = 0;
    while i < list.len() && w <= list[i].weight()
        invariant
            i <= list@.len(),
            list@ == old(list)@,
            insert_point(list@, w, 0) == insert_point(list@, w, i as int),
        decreases list@.len() - i,
    {
        i = i + 1;
    }
    list.insert(i, t);
}

/// Puts the depths of the leaves into `lengths`.
fn fill_lengths(t: &Tree, depth: u8, lengths: &mut Vec<u8>)
    requires
        depth + t.height() <= 255,
        forall|c: u32| #[trigger] t.has(c) ==> c < old(lengths)@.len(),
    ensures
        final(lengths)@ == with_lengths(*t, depth as nat, old(lengths)@),
        final(lengths)@.len() == old(lengths)@.len(),
    decreases t,
{
    match t {
        Tree::Leaf { code, .. } => {
            assert(t.has(*code));
            lengths[*code as usize] = if depth == 0 {
                1
            } else {
                depth
            };
        },
        Tree::Node { left, right, .. } => {
            assert forall|c: u32| #[trigger] left.has(c) implies c < lengths@.len() by {
                assert(t.has(c));
            }
            fill_lengths(left, depth + 1, lengths);
            assert forall|c: u32| #[trigger] right.has(c) implies c < lengths@.len() by {
                assert(t.has(c));
            }
            fill_lengths(right, depth + 1, lengths);
        },
    }
}

/// Builds the tree for a histogram under a weight scale. Returns the code lengths and the
/// greatest of them.
pub fn build_tree(histo: &Vec<u32>, total: u32, scale: u32) -> (r: (Vec<u8>, u8))
    requires
        histo@.len() <= 256,
        total == sum_of(histo@, histo@.len()),
        scale <= 2 * total,
        2 * total <= u32::MAX,
    ensures
        r.0@ == tree_lengths(histo@, total, scale),
        r.0@.len() == histo@.len(),
        r.1 == longest(r.0@, histo@.len()),
{
    let n = histo.len();
    let mut list: Vec<Tree> = Vec::new();
    let mut i: usize = 0;
    while i < n
        invariant
            i <= n == histo@.len() <= 256,
            total == sum_of(histo@, histo@.len()),
            scale <= 2 * total,
            2 * total <= u32::MAX,
            list@ == leaves(histo@, total, scale, i as nat),
        decreases n - i,
    {
        let count = histo[i];
        proof {
            lemma_leaves(histo@, total, scale, i as nat);
        }
        if count != 0 {
            proof {
                lemma_sum_mono(histo@, (i + 1) as nat, histo@.len());
                lemma_scaled(count, total, scale);
                assert(count * scale <= u64::MAX) by (nonlinear_arith)
                    requires
                        count <= u32::MAX,
                        scale <= u32::MAX,
                ;
            }
            let scaled: u64 = count as u64 * scale as u64 / total as u64;
            let weight: u32 = if scaled == 0 {
                1
            } else {
                scaled as u32
            };
            insert_tree(&mut list, Tree::Leaf { code: i as u32, weight });
        }
        i = i + 1;
    }
    proof {
        lemma_leaves(histo@, total, scale, n as nat);
        lemma_combined(list@, n as nat);
    }
    let ghost start = list@;
    while list.len() > 1
        invariant
            combined(list@) == combined(start),
            list@.len() <= 256,
            list_sum(list@, weight_fn()) <= u32::MAX,
        decreases list@.len(),
    {
        let ghost before = list@;
        proof {
            lemma_step_sums(before);
            lemma_sum_step(before, size_fn());
        }
        let b = list.pop().unwrap();
        let a = list.pop().unwrap();
        assert(list@ =~= before.take(before.len() - 2));
        let weight = a.weight() + b.weight();
        insert_tree(&mut list, Tree::Node { weight, left: Box::new(a), right: Box::new(b) });
        assert(list@ == step(before));
    }
    let mut lengths: Vec<u8> = vec![0u8; n];
    assert(lengths@ =~= Seq::new(n as nat, |i: int| 0u8));
    if list.len() > 0 {
        assert(list@ == combined(start));
        proof {
            let t = list@[0];
            assert(list@ =~= seq![t]);
            assert(list@.drop_last() =~= Seq::empty());
            assert(list_sum(list@.drop_last(), size_fn()) == 0);
            assert(list_sum(list@, size_fn()) == size_fn()(t));
            lemma_height(t);
            lemma_with_lengths(t, 0, lengths@, 255);
        }
        fill_lengths(&list[0], 0, &mut lengths);
    }
    let mut max: u8 = 0;
    let mut j: usize = 0;
    while j < n
        invariant
            j <= n == lengths@.len(),
            max == longest(lengths@, j as nat),
        decreases n - j,
    {
        if lengths[j] > max {
            max = lengths[j];
        }
        j = j + 1;
    }
    (lengths, max)
}

/// Below every inner node hang two nodes.
proof fn lemma_nodes(t: Tree, d: nat)
    ensures
        t.nodes_at(d + 1) == 2 * (t.nodes_at(d) - t.leaves_at(d)),
        t.leaves_at(d) <= t.nodes_at(d),
        d > t.height() ==> t.nodes_at(d) == 0,
    decreases t,
{
    match t {
        Tree::Leaf { .. } => {},
        Tree::Node { left, right, .. } => {
            if d == 0 {
                assert(left.nodes_at(0) == 1 && right.nodes_at(0) == 1);
                assert(t.nodes_at(1) == left.nodes_at(0) + right.nodes_at(0));
            } else {
                lemma_nodes(*left, (d - 1) as nat);
                lemma_nodes(*right, (d - 1) as nat);
            }
        },
    }
}

/// The number of symbols, out of the first `n`, with codes of length `l`.
pub open spec fn count_of(lengths: Seq<u8>, l: u8, n: nat) -> nat
    decreases n,
{
    if n == 0 {
        0
    } else {
        count_of(lengths, l, (n - 1) as nat) + if lengths[n - 1] == l {
            1nat
        } else {
            0nat
        }
    }
}

proof fn lemma_count_update(lengths: Seq<u8>, c: int, v: u8, l: u8, n: nat)
    requires
        0 <= c < lengths.len(),
        n <= lengths.len(),
        lengths[c] == 0,
        l > 0,
        v > 0,
    ensures
        count_of(lengths.update(c, v), l, n) == count_of(lengths, l, n) + if c < n && v == l {
            1nat
        } else {
            0nat
        },
    decreases n,
{
    if n > 0 {
        lemma_count_update(lengths, c, v, l, (n - 1) as nat);
    }
}

pub proof fn lemma_count_bound(lengths: Seq<u8>, l: u8, n: nat)
    ensures
        count_of(lengths, l, n) <= n,
    decreases n,
{
    if n > 0 {
        lemma_count_bound(lengths, l, (n - 1) as nat);
    }
}

proof fn lemma_count_none(lengths: Seq<u8>, l: u8, n: nat)
    requires
        n <= lengths.len(),
        forall|i: int| 0 <= i < n ==> lengths[i] != l,
    ensures
        count_of(lengths, l, n) == 0,
    decreases n,
{
    if n > 0 {
        lemma_count_none(lengths, l, (n - 1) as nat);
    }
}

/// A tree puts in one length per leaf.
proof fn lemma_count_tree(t: Tree, d: nat, lengths: Seq<u8>, l: u8)
    requires
        t.distinct(),
        forall|c: u32| #[trigger] t.has(c) ==> c < lengths.len() && lengths[c as int] == 0,
        d + t.height() <= 255,
        forall|i: int| 0 <= i < lengths.len() ==> #[trigger] lengths[i] <= 255,
        d >= 1 || t is Node,
        l >= 1,
    ensures
        count_of(with_lengths(t, d, lengths), l, lengths.len()) == count_of(
            lengths,
            l,
            lengths.len(),
        ) + if l >= d {
            t.leaves_at((l - d) as nat)
        } else {
            0nat
        },
    decreases t,
{
    match t {
        Tree::Leaf { code, .. } => {
            assert(t.has(code));
            lemma_count_update(lengths, code as int, d as u8, l, lengths.len());
        },
        Tree::Node { left, right, .. } => {
            let mid = with_lengths(*left, d + 1, lengths);
            assert forall|c: u32| #[trigger] left.has(c) implies c < lengths.len() && lengths[c as int]
                == 0 by {
                assert(t.has(c));
            }
            lemma_with_lengths(*left, d + 1, lengths, 255);
            assert forall|c: u32| #[trigger] right.has(c) implies c < mid.len() && mid[c as int] == 0 by {
                assert(t.has(c));
                assert(!left.has(c));
            }
            lemma_count_tree(*left, d + 1, lengths, l);
            lemma_count_tree(*right, d + 1, mid, l);
        },
    }
}

/// The code that comes first among those of length `l`. Codes are handed out from the longest
/// to the shortest, each length going on where the next longer one stopped.
pub open spec fn first_code(lengths: Seq<u8>, l: nat) -> nat
    decreases 32 - l,
{
    if l >= 32 {
        0
    } else {
        (first_code(lengths, l + 1) + count_of(lengths, (l + 1) as u8, lengths.len())) / 2
    }
}

/// Whether every inner node of the code tree above the last level has both its children.
pub open spec fn full_levels(lengths: Seq<u8>) -> bool {
    forall|l: nat|
        2 <= l <= 32 ==> (#[trigger] first_code(lengths, l) + count_of(
            lengths,
            l as u8,
            lengths.len(),
        )) % 2 == 0
}

/// The canonical code of symbol `c`.
pub open spec fn canonical_code(lengths: Seq<u8>, c: int) -> nat {
    first_code(lengths, lengths[c] as nat) + count_of(lengths, lengths[c], c as nat)
}

/// How many codes of length at most `l` a set of lengths may hold.
pub open spec fn within_levels(lengths: Seq<u8>) -> bool {
    forall|l: nat|
        1 <= l <= 32 ==> #[trigger] first_code(lengths, l) + count_of(
            lengths,
            l as u8,
            lengths.len(),
        ) <= pow2(l)
}

proof fn lemma_nodes_pow2(t: Tree, d: nat)
    ensures
        t.nodes_at(d) <= pow2(d),
    decreases d,
{
    if d == 0 {
        lemma2_to64();
    } else {
        lemma_nodes_pow2(t, (d - 1) as nat);
        lemma_nodes(t, (d - 1) as nat);
        lemma_pow2_unfold(d);
    }
}

proof fn lemma_first_code_tree(t: Tree, lengths: Seq<u8>, l: nat)
    requires
        t.height() <= 32,
        1 <= l <= 32,
        forall|k: u8|
            1 <= k <= 32 ==> #[trigger] count_of(lengths, k, lengths.len()) == t.leaves_at(k as nat),
    ensures
        first_code(lengths, l) == t.nodes_at(l) - t.leaves_at(l),
    decreases 32 - l,
{
    lemma_nodes(t, l);
    if l == 32 {
        lemma_nodes(t, 33);
    } else {
        lemma_first_code_tree(t, lengths, l + 1);
        assert(count_of(lengths, (l + 1) as u8, lengths.len()) == t.leaves_at((l + 1) as u8 as nat));
    }
}

proof fn lemma_first_code_zero(lengths: Seq<u8>, l: nat)
    requires
        1 <= l <= 32,
        forall|k: u8| 2 <= k <= 32 ==> #[trigger] count_of(lengths, k, lengths.len()) == 0,
    ensures
        first_code(lengths, l) == 0,
    decreases 32 - l,
{
    if l < 32 {
        lemma_first_code_zero(lengths, l + 1);
        assert(count_of(lengths, (l + 1) as u8, lengths.len()) == 0);
    }
}

/// The lengths of a Huffman tree make a code: every level of the code tree is full, and none
/// holds more than there is room for.
pub proof fn tree_lengths_make_a_code(histo: Seq<u32>, total: u32, scale: u32)
    requires
        histo.len() <= 256,
        total == sum_of(histo, histo.len()),
        scale <= 2 * total,
        2 * total <= u32::MAX,
        longest(tree_lengths(histo, total, scale), histo.len()) <= 32,
    ensures
        tree_lengths(histo, total, scale).len() == histo.len(),
        full_levels(tree_lengths(histo, total, scale)),
        within_levels(tree_lengths(histo, total, scale)),
{
    let n = histo.len();
    let none = Seq::new(n, |i: int| 0u8);
    let list = leaves(histo, total, scale, n);
    let lengths = tree_lengths(histo, total, scale);
    lemma_leaves(histo, total, scale, n);
    lemma_combined(list, n);
    let one = combined(list);
    if one.len() == 0 {
        assert forall|k: u8| 2 <= k <= 32 implies #[trigger] count_of(lengths, k, lengths.len()) == 0 by {
            lemma_count_none(lengths, k, n);
        }
        assert forall|l: nat| 1 <= l <= 32 implies #[trigger] first_code(lengths, l) == 0 by {
            lemma_first_code_zero(lengths, l);
        }
        lemma_count_none(lengths, 1, n);
        assert forall|l: nat| 1 <= l <= 32 implies #[trigger] first_code(lengths, l) + count_of(
            lengths,
            l as u8,
            lengths.len(),
        ) <= pow2(l) by {
            lemma_count_none(lengths, l as u8, n);
        }
        assert forall|l: nat| 2 <= l <= 32 implies (#[trigger] first_code(lengths, l) + count_of(
            lengths,
            l as u8,
            lengths.len(),
        )) % 2 == 0 by {
            assert(count_of(lengths, l as u8, lengths.len()) == 0);
        }
    } else {
        let t = one[0];
        assert(one =~= seq![t]);
        assert(one.drop_last() =~= Seq::empty());
        assert(list_sum(one.drop_last(), size_fn()) == 0);
        assert(list_sum(one, size_fn()) == size_fn()(t));
        lemma_height(t);
        lemma_with_lengths(t, 0, none, 255);
        assert forall|c: u32| #[trigger] t.has(c) implies c < none.len() && none[c as int] == 0 by {
            assert(one[0].has(c));
        }
        lemma_longest(lengths, n, 32);
        if t is Leaf {
            let c = t->Leaf_code;
            assert(t.has(c));
            assert forall|k: u8| 1 <= k <= 32 implies #[trigger] count_of(lengths, k, lengths.len()) == (
            if k == 1 { 1nat } else { 0nat }) by {
                lemma_count_update(none, c as int, 1, k, n);
                lemma_count_none(none, k, n);
            }
            lemma2_to64();
            assert forall|l: nat| 1 <= l <= 32 implies #[trigger] first_code(lengths, l) == 0 by {
                lemma_first_code_zero(lengths, l);
            }
            assert forall|l: nat| 2 <= l <= 32 implies (#[trigger] first_code(lengths, l) + count_of(
                lengths,
                l as u8,
                lengths.len(),
            )) % 2 == 0 by {
                assert(count_of(lengths, l as u8, lengths.len()) == 0);
            }
            assert forall|l: nat| 1 <= l <= 32 implies #[trigger] first_code(lengths, l) + count_of(
                lengths,
                l as u8,
                lengths.len(),
            ) <= pow2(l) by {
                assert(count_of(lengths, l as u8, lengths.len()) <= 1);
                lemma_pow2_pos(l);
            }
        } else {
            lemma_depth_reached(t, 0, none);
            assert(t.height() <= 32);
            assert forall|k: u8| 1 <= k <= 32 implies #[trigger] count_of(lengths, k, lengths.len())
                == t.leaves_at(k as nat) by {
                lemma_count_tree(t, 0, none, k);
                lemma_count_none(none, k, n);
            }
            assert forall|l: nat| 1 <= l <= 32 implies #[trigger] first_code(lengths, l) + count_of(
                lengths,
                l as u8,
                lengths.len(),
            ) == t.nodes_at(l) by {
                lemma_first_code_tree(t, lengths, l);
                assert(count_of(lengths, l as u8, lengths.len()) == t.leaves_at(l as u8 as nat));
                lemma_nodes(t, l);
            }
            assert forall|l: nat| 2 <= l <= 32 implies (#[trigger] first_code(lengths, l) + count_of(
                lengths,
                l as u8,
                lengths.len(),
            )) % 2 == 0 by {
                lemma_nodes(t, (l - 1) as nat);
            }
            assert forall|l: nat| 1 <= l <= 32 implies #[trigger] first_code(lengths, l) + count_of(
                lengths,
                l as u8,
                lengths.len(),
            ) <= pow2(l) by {
                lemma_nodes_pow2(t, l);
            }
        }
    }
}

/// Some symbol has a code as long as the tree is high.
proof fn lemma_depth_reached(t: Tree, d: nat, lengths: Seq<u8>)
    requires
        t.distinct(),
        forall|c: u32| #[trigger] t.has(c) ==> c < lengths.len(),
        d + t.height() <= 255,
        d >= 1 || t is Node,
    ensures
        exists|c: u32| t.has(c) && #[trigger] with_lengths(t, d, lengths)[c as int] == d + t.height(),
    decreases t,
{
    match t {
        Tree::Leaf { code, .. } => {
            assert(t.has(code));
            assert(with_lengths(t, d, lengths)[code as int] == d + t.height());
        },
        Tree::Node { left, right, .. } => {
            let mid = with_lengths(*left, d + 1, lengths);
            assert forall|c: u32| #[trigger] left.has(c) implies c < lengths.len() by {
                assert(t.has(c));
            }
            lemma_with_lengths(*left, d + 1, lengths, 255);
            assert forall|c: u32| #[trigger] right.has(c) implies c < mid.len() by {
                assert(t.has(c));
            }
            lemma_with_lengths(*right, d + 1, mid, 255);
            if left.height() >= right.height() {
                lemma_depth_reached(*left, d + 1, lengths);
                let c = choose|c: u32| left.has(c) && #[trigger] mid[c as int] == d + 1 + left.height();
                assert(!right.has(c));
                assert(t.has(c));
                assert(with_lengths(t, d, lengths)[c as int] == d + t.height());
            } else {
                lemma_depth_reached(*right, d + 1, mid);
                let c = choose|c: u32|
                    right.has(c) && #[trigger] with_lengths(*right, d + 1, mid)[c as int] == d + 1
                        + right.height();
                assert(t.has(c));
                assert(with_lengths(t, d, lengths)[c as int] == d + t.height());
            }
        },
    }
}


/// Whether symbol `c` is in one of the trees.
spec fn list_has(list: Seq<Tree>, c: u32) -> bool {
    exists|i: int| 0 <= i < list.len() && (#[trigger] list[i]).has(c)
}

proof fn lemma_inserted_has(list: Seq<Tree>, t: Tree, c: u32)
    ensures
        list_has(inserted(list, t), c) == (list_has(list, c) || t.has(c)),
{
    lemma_insert_point(list, t.spec_weight(), 0);
    let p = insert_point(list, t.spec_weight(), 0);
    let new = inserted(list, t);
    assert(new[p] == t);
    if list_has(list, c) {
        let i = choose|i: int| 0 <= i < list.len() && (#[trigger] list[i]).has(c);
        let j = if i < p { i } else { i + 1 };
        assert(new[j] == list[i]);
    }
    if list_has(new, c) {
        let j = choose|j: int| 0 <= j < new.len() && (#[trigger] new[j]).has(c);
        if j != p {
            let i = if j < p { j } else { j - 1 };
            assert(new[j] == list[i]);
        }
    }
}

proof fn lemma_combined_has(list: Seq<Tree>, c: u32)
    ensures
        list_has(combined(list), c) == list_has(list, c),
    decreases list.len(),
{
    if list.len() > 1 {
        let m = list.len();
        let base = list.take(m - 2);
        let t = joined(list[m - 2], list[m - 1]);
        lemma_inserted_has(base, t, c);
        lemma_insert_point(base, t.spec_weight(), 0);
        assert(list_has(list, c) == (list_has(base, c) || t.has(c))) by {
            assert(t.has(c) == (list[m - 2].has(c) || list[m - 1].has(c)));
            if list_has(list, c) {
                let i = choose|i: int| 0 <= i < list.len() && (#[trigger] list[i]).has(c);
                if i < m - 2 {
                    assert(base[i] == list[i]);
                }
            }
            if list_has(base, c) {
                let i = choose|i: int| 0 <= i < base.len() && (#[trigger] base[i]).has(c);
                assert(base[i] == list[i]);
            }
        }
        lemma_combined_has(step(list), c);
    }
}

proof fn lemma_leaves_has(histo: Seq<u32>, total: u32, scale: u32, n: nat, c: u32)
    requires
        n <= histo.len() <= 256,
    ensures
        list_has(leaves(histo, total, scale, n), c) == (c < n && histo[c as int] != 0),
    decreases n,
{
    if n > 0 {
        let m = (n - 1) as nat;
        lemma_leaves_has(histo, total, scale, m, c);
        if histo[n - 1] != 0 {
            lemma_inserted_has(
                leaves(histo, total, scale, m),
                Tree::Leaf { code: (n - 1) as u32, weight: scaled_weight(histo[n - 1], total, scale) },
                c,
            );
        }
    }
}

/// Exactly the symbols that occur have codes.
pub proof fn used_symbols_have_codes(histo: Seq<u32>, total: u32, scale: u32)
    requires
        histo.len() <= 256,
        total == sum_of(histo, histo.len()),
        scale <= 2 * total,
        2 * total <= u32::MAX,
    ensures
        forall|c: int|
            0 <= c < histo.len() ==> (#[trigger] tree_lengths(histo, total, scale)[c] > 0) == (histo[c]
                != 0),
{
    let n = histo.len();
    let none = Seq::new(n, |i: int| 0u8);
    let list = leaves(histo, total, scale, n);
    lemma_leaves(histo, total, scale, n);
    lemma_combined(list, n);
    let one = combined(list);
    assert forall|c: int| 0 <= c < n implies (#[trigger] tree_lengths(histo, total, scale)[c] > 0) == (
    histo[c] != 0) by {
        let s = c as u32;
        lemma_leaves_has(histo, total, scale, n, s);
        lemma_combined_has(list, s);
        if one.len() > 0 {
            let t = one[0];
            assert(one =~= seq![t]);
            assert(one.drop_last() =~= Seq::empty());
            assert(list_sum(one.drop_last(), size_fn()) == 0);
            assert(list_sum(one, size_fn()) == size_fn()(t));
            lemma_height(t);
            assert forall|x: u32| #[trigger] t.has(x) implies x < none.len() by {
                assert(one[0].has(x));
            }
            lemma_with_lengths(t, 0, none, 255);
            assert(list_has(one, s) == t.has(s)) by {
                if t.has(s) {
                    assert(one[0].has(s));
                }
            }
        }
    }
}

pub proof fn lemma_count_mono(lengths: Seq<u8>, l: u8, n: nat, m: nat)
    requires
        n <= m,
    ensures
        count_of(lengths, l, n) <= count_of(lengths, l, m),
        n < m && lengths[n as int] == l ==> count_of(lengths, l, n) < count_of(lengths, l, m),
    decreases m,
{
    if n < m {
        lemma_count_mono(lengths, l, n, (m - 1) as nat);
    }
}

/// A longer code lies, cut to a shorter length, below every code of that length.
pub proof fn lemma_longer_below(lengths: Seq<u8>, l: nat, k: nat, v: nat)
    requires
        1 <= k < l <= 32,
        full_levels(lengths),
        v < first_code(lengths, l) + count_of(lengths, l as u8, lengths.len()),
    ensures
        v / pow2((l - k) as nat) < first_code(lengths, k),
    decreases l - k,
{
    let up = (l - 1) as nat;
    assert((first_code(lengths, l) + count_of(lengths, l as u8, lengths.len())) % 2 == 0);
    assert(first_code(lengths, up) == (first_code(lengths, l) + count_of(
        lengths,
        l as u8,
        lengths.len(),
    )) / 2);
    assert(v / 2 < first_code(lengths, up));
    lemma_pow2_unfold((l - k) as nat);
    if up == k {
        lemma2_to64();
    } else {
        lemma_longer_below(lengths, up, k, v / 2);
        lemma_pow2_pos((up - k) as nat);
        vstd::arithmetic::div_mod::lemma_div_denominator(v as int, 2, pow2((up - k) as nat) as int);
    }
}

/// No code is the beginning of another.
pub proof fn codes_are_prefix_free(lengths: Seq<u8>, c: int, d: int)
    requires
        full_levels(lengths),
        0 <= c < lengths.len(),
        0 <= d < lengths.len(),
        c != d,
        1 <= lengths[c] <= lengths[d] <= 32,
    ensures
        canonical_code(lengths, d) / pow2((lengths[d] - lengths[c]) as nat) != canonical_code(
            lengths,
            c,
        ),
{
    let l = lengths[c];
    let m = lengths[d];
    if l == m {
        lemma2_to64();
        if c < d {
            lemma_count_mono(lengths, l, c as nat, d as nat);
        } else {
            lemma_count_mono(lengths, l, d as nat, c as nat);
        }
    } else {
        lemma_count_mono(lengths, m, d as nat, lengths.len());
        lemma_longer_below(lengths, m as nat, l as nat, canonical_code(lengths, d));
    }
}

/// Whether every code fits its length.
pub open spec fn codes_fit(lengths: Seq<u8>) -> bool {
    forall|c: int|
        0 <= c < lengths.len() && lengths[c] > 0 ==> #[trigger] canonical_code(lengths, c) < pow2(
            lengths[c] as nat,
        )
}

/// Where no level holds more than there is room for, every code fits its length.
pub proof fn lemma_codes_fit(lengths: Seq<u8>)
    requires
        within_levels(lengths),
        forall|c: int| 0 <= c < lengths.len() ==> #[trigger] lengths[c] <= 32,
    ensures
        codes_fit(lengths),
{
    assert forall|c: int| 0 <= c < lengths.len() && lengths[c] > 0 implies #[trigger] canonical_code(
        lengths,
        c,
    ) < pow2(lengths[c] as nat) by {
        let l = lengths[c];
        lemma_count_mono(lengths, l, c as nat, lengths.len());
        assert(first_code(lengths, l as nat) + count_of(lengths, l as nat as u8, lengths.len()) <= pow2(
            l as nat,
        ));
    }
}

} // verus!
