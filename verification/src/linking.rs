//! What the algorithms on linked nodes leave behind, stated step by step:
//! how a subtree stands after an insertion, a removal or a rebuild below
//! it, and why the same then holds one node further up.
use crate::arena::{Node, Slot};
use crate::balance::{larger, lemma_pow2_monotone, lemma_size_below_pow2, log_alpha, pow2, pow3};
use crate::listing::{ascending, gap_at};
use crate::order::{key_lt, lemma_lt_transitive, total_order};
use crate::seqs::{
    lemma_insert_fresh, lemma_insert_left, lemma_insert_right, lemma_remove_distinct, lemma_remove_left,
    lemma_remove_right, lemma_update_left, lemma_update_right,
};
use crate::shape::{
    all_used, entries, entry_at, lemma_bin_ascending, lemma_bin_distinct, lemma_bin_entries, lemma_frame,
    lemma_idxs_len, lemma_linked_used, linked, Shape,
};
use vstd::prelude::*;

verus! {

/// The left subtree of a shape.
pub open spec fn left_of(sh: Shape) -> Shape {
    match sh {
        Shape::Leaf => Shape::Leaf,
        Shape::Bin { left, idx, right } => *left,
    }
}

/// The right subtree of a shape.
pub open spec fn right_of(sh: Shape) -> Shape {
    match sh {
        Shape::Leaf => Shape::Leaf,
        Shape::Bin { left, idx, right } => *right,
    }
}

/// The shape with root `idx` over two subtrees.
pub open spec fn bin(left: Shape, idx: usize, right: Shape) -> Shape {
    Shape::Bin { left: Box::new(left), idx, right: Box::new(right) }
}

/// A gap in the left subtree, for a key below the root's, is a gap in the
/// tree.
pub proof fn lemma_gap_left<K: Ord, V>(slots: Seq<Slot<K, V>>, left: Shape, idx: usize, right: Shape, p: int, k: K)
    requires
        total_order::<K>(),
        ascending(entries(slots, bin(left, idx, right).idxs())),
        gap_at(entries(slots, left.idxs()), p, k),
        key_lt(k, entry_at(slots, idx).0),
    ensures
        gap_at(entries(slots, bin(left, idx, right).idxs()), p, k),
{
    lemma_bin_entries(slots, left, idx, right);
    lemma_bin_ascending(slots, left, idx, right);
    let e = entries(slots, bin(left, idx, right).idxs());
    let l = entries(slots, left.idxs());
    let r = entries(slots, right.idxs());
    let n = l.len() as int;
    assert forall|j: int| 0 <= j < p implies key_lt((#[trigger] e[j]).0, k) by {
        assert(e[j] == l[j]);
    }
    assert forall|j: int| p <= j < e.len() implies key_lt(k, (#[trigger] e[j]).0) by {
        if j < n {
            assert(e[j] == l[j]);
        } else if j == n {
            assert(e[j] == entry_at(slots, idx));
        } else {
            assert(e[j] == r[j - n - 1]);
            lemma_lt_transitive(k, entry_at(slots, idx).0, r[j - n - 1].0);
        }
    }
}

/// A gap in the right subtree, for a key above the root's, is a gap in the
/// tree.
pub proof fn lemma_gap_right<K: Ord, V>(slots: Seq<Slot<K, V>>, left: Shape, idx: usize, right: Shape, p: int, k: K)
    requires
        total_order::<K>(),
        ascending(entries(slots, bin(left, idx, right).idxs())),
        gap_at(entries(slots, right.idxs()), p, k),
        key_lt(entry_at(slots, idx).0, k),
    ensures
        gap_at(entries(slots, bin(left, idx, right).idxs()), left.idxs().len() + 1 + p, k),
{
    lemma_bin_entries(slots, left, idx, right);
    lemma_bin_ascending(slots, left, idx, right);
    let e = entries(slots, bin(left, idx, right).idxs());
    let l = entries(slots, left.idxs());
    let r = entries(slots, right.idxs());
    let n = l.len() as int;
    assert forall|j: int| 0 <= j < n + 1 + p implies key_lt((#[trigger] e[j]).0, k) by {
        if j < n {
            assert(e[j] == l[j]);
            lemma_lt_transitive(l[j].0, entry_at(slots, idx).0, k);
        } else if j == n {
            assert(e[j] == entry_at(slots, idx));
        } else {
            assert(e[j] == r[j - n - 1]);
        }
    }
    assert forall|j: int| n + 1 + p <= j < e.len() implies key_lt(k, (#[trigger] e[j]).0) by {
        assert(e[j] == r[j - n - 1]);
    }
}

/// What one step of an insertion hands to the step above it.
pub(crate) struct Step<V> {
    /// The root of the subtree after the step.
    pub root: usize,
    /// The slot that holds the key.
    pub node: usize,
    /// The value that the key had, where it was present.
    pub old: Option<V>,
    /// The new node lies too deep and no ancestor has been rebuilt yet.
    pub pending: bool,
}

/// How the subtree `sh`, in the slots `s0` with free list `chain0`, stands
/// after `key` was given the value `val`: its root, the slot `node` of the
/// key, the value `old` that the key had, the new shape `sh1` and the place
/// `pos` of the key in the order.
#[verifier::opaque]
pub(crate) open spec fn placed<K: Ord, V>(
    s0: Seq<Slot<K, V>>,
    chain0: Seq<usize>,
    sh: Shape,
    key: K,
    val: V,
    s1: Seq<Slot<K, V>>,
    chain1: Seq<usize>,
    root: usize,
    node: usize,
    old: Option<V>,
    sh1: Shape,
    pos: int,
) -> bool {
    let before = entries(s0, sh.idxs());
    let after = entries(s1, sh1.idxs());
    &&& s1.len() == s0.len()
    &&& linked(s1, sh1)
    &&& sh1.root() == Some(root)
    &&& match old {
        Some(v0) => {
            &&& sh1 == sh
            &&& 0 <= pos < before.len()
            &&& before[pos] == (key, v0)
            &&& after == before.update(pos, (key, val))
            &&& chain1 == chain0
            &&& node == sh.idxs()[pos]
            &&& forall|x: int| 0 <= x < s0.len() && !sh.idxs().contains(x as usize) ==> s1[x] == s0[x]
        },
        None => {
            &&& gap_at(before, pos, key)
            &&& after == before.insert(pos, (key, val))
            &&& sh1.idxs() == sh.idxs().insert(pos, node)
            &&& chain0.len() > 0
            &&& node == chain0[0]
            &&& chain1 == chain0.skip(1)
            &&& node < s0.len()
            &&& s0[node as int] is Free
            &&& forall|x: int| 0 <= x < s0.len() && x != node && !sh.idxs().contains(x as usize) ==> s1[x] == s0[x]
        },
    }
}

/// How deep the subtree `sh` at depth `depth` has become as `sh1`, with a new
/// node at depth `at`, in a tree of `total` nodes before: while `pending`, the
/// way down to the new node is too long for the tree and every node on it
/// weighs at least 3/2 of the next; else the subtree is no deeper than before
/// or than the tree's size allows.
pub open spec fn paced(sh: Shape, depth: nat, total: nat, sh1: Shape, at: nat, pending: bool) -> bool {
    &&& at >= depth
    &&& pending ==> at > log_alpha(total + 1) + 1 && pow3((at - depth) as nat) <= sh1.size() * pow2(
        (at - depth) as nat,
    )
    &&& !pending ==> depth + sh1.levels() <= larger(depth + sh.levels(), log_alpha(total + 1) + 2)
}

/// What `insert_rec` promises of a step that succeeded.
pub(crate) open spec fn grown<K: Ord, V>(
    s0: Seq<Slot<K, V>>,
    chain0: Seq<usize>,
    sh: Shape,
    key: K,
    val: V,
    depth: nat,
    total: nat,
    s1: Seq<Slot<K, V>>,
    chain1: Seq<usize>,
    step: Step<V>,
    g: (Shape, int, nat),
) -> bool {
    &&& placed(s0, chain0, sh, key, val, s1, chain1, step.root, step.node, step.old, g.0, g.1)
    &&& step.old is Some ==> !step.pending
    &&& step.old is None ==> paced(sh, depth, total, g.0, g.2, step.pending)
}

/// The node that stands in slot `i` after its child on one side was
/// replaced by the subtree at `root` and its size grew by `more`.
pub open spec fn relinked<K, V>(n: Node<K, V>, left_side: bool, root: usize, more: nat) -> Node<K, V> {
    Node {
        key: n.key,
        val: n.val,
        left: if left_side {
            Some(root)
        } else {
            n.left
        },
        right: if left_side {
            n.right
        } else {
            Some(root)
        },
        size: (n.size + more) as usize,
    }
}

/// The shape of a node over its two subtrees after one of them changed.
pub open spec fn reshaped(sh: Shape, left_side: bool, child: Shape) -> Shape {
    match sh {
        Shape::Leaf => Shape::Leaf,
        Shape::Bin { left, idx, right } => if left_side {
            bin(child, idx, *right)
        } else {
            bin(*left, idx, child)
        },
    }
}

/// The place in a tree's order of the place `pos` in one of its subtrees.
pub open spec fn lifted(sh: Shape, left_side: bool, pos: int) -> int {
    if left_side {
        pos
    } else {
        left_of(sh).idxs().len() + 1 + pos
    }
}

/// An insertion that is settled in a child's subtree is settled in the
/// parent's once the parent points to the child's new root and counts the
/// new node.
#[verifier::rlimit(50)]
pub(crate) proof fn lemma_adopt<K: Ord, V>(
    s0: Seq<Slot<K, V>>,
    chain0: Seq<usize>,
    sh: Shape,
    key: K,
    val: V,
    s1: Seq<Slot<K, V>>,
    chain1: Seq<usize>,
    root: usize,
    node: usize,
    old: Option<V>,
    sh1: Shape,
    pos: int,
    i: usize,
    left_side: bool,
    s2: Seq<Slot<K, V>>,
)
    requires
        total_order::<K>(),
        linked(s0, sh),
        sh.root() == Some(i),
        sh.idxs().no_duplicates(),
        ascending(entries(s0, sh.idxs())),
        left_side ==> key_lt(key, entry_at(s0, i).0),
        !left_side ==> key_lt(entry_at(s0, i).0, key),
        placed(
            s0,
            chain0,
            if left_side {
                left_of(sh)
            } else {
                right_of(sh)
            },
            key,
            val,
            s1,
            chain1,
            root,
            node,
            old,
            sh1,
            pos,
        ),
        s2.len() == s1.len(),
        forall|x: int| 0 <= x < s1.len() && x != i ==> s2[x] == s1[x],
        s2[i as int] == Slot::Used(
            relinked(
                s0[i as int]->Used_0,
                left_side,
                root,
                if old is Some {
                    0
                } else {
                    1
                },
            ),
        ),
        old is None ==> sh.size() < usize::MAX,
    ensures
        placed(s0, chain0, sh, key, val, s2, chain1, i, node, old, reshaped(sh, left_side, sh1), lifted(sh, left_side, pos)),
        linked(s2, reshaped(sh, left_side, sh1)),
        linked(s2, sh1),
        sh1.root() == Some(root),
        old is None ==> !sh.idxs().contains(node) && 0 <= lifted(sh, left_side, pos) <= sh.idxs().len()
            && reshaped(sh, left_side, sh1).idxs() == sh.idxs().insert(lifted(sh, left_side, pos), node),
        sh1.size() == (if left_side {
            left_of(sh)
        } else {
            right_of(sh)
        }).size() + (if old is Some {
            0nat
        } else {
            1nat
        }),
        reshaped(sh, left_side, sh1).size() == sh.size() + (if old is Some {
            0nat
        } else {
            1nat
        }),
        old is None ==> reshaped(sh, left_side, sh1).idxs().no_duplicates(),
{
    reveal(placed);
    let l = left_of(sh);
    let r = right_of(sh);
    let c = if left_side { l } else { r };
    let sib = if left_side { r } else { l };
    let l1 = if left_side { sh1 } else { l };
    let r1 = if left_side { r } else { sh1 };
    let sh2 = reshaped(sh, left_side, sh1);
    assert(sh == bin(l, i, r));
    assert(sh2 == bin(l1, i, r1));
    lemma_bin_distinct(l, i, r);
    lemma_bin_entries(s0, l, i, r);
    lemma_bin_entries(s2, l1, i, r1);
    lemma_bin_ascending(s0, l, i, r);
    lemma_linked_used(s0, l);
    lemma_linked_used(s0, r);
    lemma_idxs_len(l);
    lemma_idxs_len(r);
    lemma_idxs_len(sh1);
    lemma_idxs_len(sh);
    let n = l.idxs().len() as int;
    assert(sh.idxs()[n] == i);
    assert(sh.idxs().contains(i));
    assert forall|y: usize| c.idxs().contains(y) implies sh.idxs().contains(y) by {
        let j = choose|j: int| 0 <= j < c.idxs().len() && c.idxs()[j] == y;
        if left_side {
            assert(sh.idxs()[j] == y);
        } else {
            assert(sh.idxs()[j + n + 1] == y);
        }
    }
    assert forall|y: usize| sib.idxs().contains(y) implies sh.idxs().contains(y) by {
        let j = choose|j: int| 0 <= j < sib.idxs().len() && sib.idxs()[j] == y;
        if left_side {
            assert(sh.idxs()[j + n + 1] == y);
        } else {
            assert(sh.idxs()[j] == y);
        }
    }
    // the node itself and the other subtree were not touched below
    assert(s1[i as int] == s0[i as int]);
    assert forall|j: int| 0 <= j < sib.idxs().len() implies s2[(#[trigger] sib.idxs()[j]) as int] == s0[sib.idxs()[j] as int] by {
        let y = sib.idxs()[j];
        assert(sib.idxs().contains(y));
        assert(s1[y as int] == s0[y as int]);
    }
    lemma_frame(s0, s2, sib);
    // the changed subtree does not hold the node itself
    if old is None {
        assert(!c.idxs().contains(node)) by {
            if c.idxs().contains(node) {
                let j = choose|j: int| 0 <= j < c.idxs().len() && c.idxs()[j] == node;
                assert(s0[c.idxs()[j] as int] is Used);
            }
        }
        lemma_insert_fresh(c.idxs(), pos, node);
        assert(!sh.idxs().contains(node)) by {
            if sh.idxs().contains(node) {
                let j = choose|j: int| 0 <= j < sh.idxs().len() && sh.idxs()[j] == node;
                if j < n {
                    assert(l.idxs()[j] == node);
                    assert(s0[l.idxs()[j] as int] is Used);
                } else if j > n {
                    assert(r.idxs()[j - n - 1] == node);
                    assert(s0[r.idxs()[j - n - 1] as int] is Used);
                }
            }
        }
    }
    assert forall|j: int| 0 <= j < sh1.idxs().len() implies s2[(#[trigger] sh1.idxs()[j]) as int] == s1[sh1.idxs()[j] as int] by {
        let y = sh1.idxs()[j];
        assert(sh1.idxs().contains(y));
        assert(y != i);
    }
    lemma_frame(s1, s2, sh1);
    assert(entry_at(s2, i) == entry_at(s0, i));
    let el = entries(s0, l.idxs());
    let er = entries(s0, r.idxs());
    let m = entry_at(s0, i);
    match old {
        Some(v0) => {
            if left_side {
                lemma_update_left(el, m, er, pos, (key, val));
            } else {
                lemma_update_right(el, m, er, pos, (key, val));
            }
            assert forall|x: int| 0 <= x < s0.len() && !sh.idxs().contains(x as usize) implies s2[x] == s0[x] by {
                assert(!c.idxs().contains(x as usize));
            }
        },
        None => {
            if left_side {
                lemma_insert_left(el, m, er, pos, (key, val));
                lemma_insert_left(l.idxs(), i, r.idxs(), pos, node);
                lemma_gap_left(s0, l, i, r, pos, key);
            } else {
                lemma_insert_right(el, m, er, pos, (key, val));
                lemma_insert_right(l.idxs(), i, r.idxs(), pos, node);
                lemma_gap_right(s0, l, i, r, pos, key);
            }
            lemma_insert_fresh(sh.idxs(), lifted(sh, left_side, pos), node);
            assert forall|x: int|
                0 <= x < s0.len() && x != node && !sh.idxs().contains(x as usize) implies s2[x] == s0[x] by {
                assert(!c.idxs().contains(x as usize));
            }
        },
    }
}

/// The step below did not touch the node above it.
pub(crate) proof fn lemma_parent_kept<K: Ord, V>(
    s0: Seq<Slot<K, V>>,
    chain0: Seq<usize>,
    sh: Shape,
    key: K,
    val: V,
    s1: Seq<Slot<K, V>>,
    chain1: Seq<usize>,
    root: usize,
    node: usize,
    old: Option<V>,
    sh1: Shape,
    pos: int,
    i: usize,
    left_side: bool,
)
    requires
        linked(s0, sh),
        sh.root() == Some(i),
        sh.idxs().no_duplicates(),
        placed(
            s0,
            chain0,
            if left_side {
                left_of(sh)
            } else {
                right_of(sh)
            },
            key,
            val,
            s1,
            chain1,
            root,
            node,
            old,
            sh1,
            pos,
        ),
    ensures
        s1.len() == s0.len(),
        s1[i as int] == s0[i as int],
        old is None ==> chain0.len() > 0,
{
    reveal(placed);
    lemma_bin_distinct(left_of(sh), i, right_of(sh));
}

/// Rebuilding the subtree in which an insertion was settled leaves it
/// settled, with the new root and shape.
pub(crate) proof fn lemma_adopt_rebuilt<K: Ord, V>(
    s0: Seq<Slot<K, V>>,
    chain0: Seq<usize>,
    sh: Shape,
    key: K,
    val: V,
    s2: Seq<Slot<K, V>>,
    chain1: Seq<usize>,
    i: usize,
    node: usize,
    sh2: Shape,
    pos: int,
    s3: Seq<Slot<K, V>>,
    root3: usize,
    sh3: Shape,
)
    requires
        placed(s0, chain0, sh, key, val, s2, chain1, i, node, None, sh2, pos),
        s3.len() == s2.len(),
        linked(s3, sh3),
        sh3.root() == Some(root3),
        sh3.idxs() == sh2.idxs(),
        entries(s3, sh2.idxs()) == entries(s2, sh2.idxs()),
        forall|x: int| 0 <= x < s2.len() && !sh2.idxs().contains(x as usize) ==> s3[x] == s2[x],
        sh.idxs().no_duplicates(),
        !sh.idxs().contains(node),
        s0.len() <= usize::MAX,
    ensures
        placed(s0, chain0, sh, key, val, s3, chain1, root3, node, None, sh3, pos),
{
    reveal(placed);
    lemma_insert_fresh(sh.idxs(), pos, node);
    assert forall|x: int| 0 <= x < s0.len() && x != node && !sh.idxs().contains(x as usize) implies s3[x]
        == s0[x] by {
        assert(!sh2.idxs().contains(x as usize));
    }
    assert(entries(s3, sh3.idxs()) == entries(s2, sh2.idxs()));
}

/// A tree has no more levels than nodes.
pub proof fn lemma_levels_within(sh: Shape)
    ensures
        sh.levels() <= sh.size(),
    decreases sh,
{
    match sh {
        Shape::Leaf => {},
        Shape::Bin { left, idx, right } => {
            lemma_levels_within(*left);
            lemma_levels_within(*right);
        },
    }
}

/// A way down on which every node weighs at least 3/2 of the next stays so
/// one node further up.
pub proof fn lemma_pace_up(e: nat, cs: nat, m: nat)
    requires
        pow3(e) <= cs * pow2(e),
        3 * cs <= 2 * m,
    ensures
        pow3(e + 1) <= m * pow2(e + 1),
{
    let a = pow3(e);
    let b = pow2(e);
    assert(pow3(e + 1) == 3 * a);
    assert(pow2(e + 1) == 2 * b);
    assert(3 * a <= m * (2 * b)) by (nonlinear_arith)
        requires
            a <= cs * b,
            3 * cs <= 2 * m,
            b >= 0,
    ;
}

/// A subtree whose child, with a node added, has come to weigh more than 2/3
/// of it has fewer nodes than fit on as many levels as it had.
pub proof fn lemma_scapegoat_room(sh: Shape, c: Shape, cs: nat, m: nat)
    requires
        sh is Bin,
        c == left_of(sh) || c == right_of(sh),
        cs == c.size() + 1,
        3 * cs > 2 * m,
    ensures
        m < pow2(sh.levels()),
{
    lemma_size_below_pow2(c);
    let h = (sh.levels() - 1) as nat;
    lemma_pow2_monotone(c.levels(), h);
    assert(pow2(sh.levels()) == 2 * pow2(h));
}

/// The node that stands in slot `i` after its child on one side was
/// replaced by the subtree at `root` and its size shrank by one.
pub open spec fn unlinked<K, V>(n: Node<K, V>, left_side: bool, root: Option<usize>) -> Node<K, V> {
    Node {
        key: n.key,
        val: n.val,
        left: if left_side {
            root
        } else {
            n.left
        },
        right: if left_side {
            n.right
        } else {
            root
        },
        size: (n.size - 1) as usize,
    }
}

/// How the subtree `sh` stands after its least node was detached: `min` is
/// the slot of that node, which still holds its entry, and `sh1` the shape of
/// what is left, with root `root1`.
#[verifier::opaque]
pub(crate) open spec fn detached<K: Ord, V>(
    s0: Seq<Slot<K, V>>,
    sh: Shape,
    s1: Seq<Slot<K, V>>,
    min: usize,
    root1: Option<usize>,
    sh1: Shape,
) -> bool {
    &&& s1.len() == s0.len()
    &&& linked(s1, sh1)
    &&& sh1.root() == root1
    &&& sh.idxs().len() > 0
    &&& sh.idxs()[0] == min
    &&& sh1.idxs() == sh.idxs().remove(0)
    &&& entries(s1, sh1.idxs()) == entries(s0, sh.idxs()).remove(0)
    &&& min < s0.len()
    &&& s1[min as int] == s0[min as int]
    &&& s0[min as int] is Used
    &&& forall|x: int| 0 <= x < s0.len() && !sh.idxs().contains(x as usize) ==> s1[x] == s0[x]
    &&& sh1.levels() <= sh.levels()
    &&& sh1.size() + 1 == sh.size()
}

/// How the subtree `sh` stands after the entry `taken` at place `pos` of its
/// order was removed and the slot at place `q` of its slots freed: `sh1` is
/// the shape of what is left, with root `root1`.
#[verifier::opaque]
pub(crate) open spec fn removed<K: Ord, V>(
    s0: Seq<Slot<K, V>>,
    chain0: Seq<usize>,
    sh: Shape,
    s1: Seq<Slot<K, V>>,
    chain1: Seq<usize>,
    root1: Option<usize>,
    taken: (K, V),
    sh1: Shape,
    pos: int,
    q: int,
) -> bool {
    let before = entries(s0, sh.idxs());
    let after = entries(s1, sh1.idxs());
    &&& s1.len() == s0.len()
    &&& linked(s1, sh1)
    &&& sh1.root() == root1
    &&& 0 <= pos < before.len()
    &&& before[pos] == taken
    &&& after == before.remove(pos)
    &&& 0 <= q < sh.idxs().len()
    &&& pos <= q <= pos + 1
    &&& sh1.idxs() == sh.idxs().remove(q)
    &&& chain1 == seq![sh.idxs()[q]] + chain0
    &&& s1[sh.idxs()[q] as int] is Free
    &&& forall|x: int| 0 <= x < s0.len() && !sh.idxs().contains(x as usize) ==> s1[x] == s0[x]
    &&& sh1.levels() <= sh.levels()
    &&& sh1.size() + 1 == sh.size()
}

/// What holds of a node once one of its subtrees was changed below it and
/// the node was then pointed at that subtree's new root: the node's other
/// subtree is as it was, and the node's subtree is linked in its new shape.
pub(crate) proof fn lemma_relink<K: Ord, V>(
    s0: Seq<Slot<K, V>>,
    sh: Shape,
    s1: Seq<Slot<K, V>>,
    c1: Shape,
    i: usize,
    left_side: bool,
    s2: Seq<Slot<K, V>>,
)
    requires
        linked(s0, sh),
        sh.root() == Some(i),
        sh.idxs().no_duplicates(),
        s1.len() == s0.len(),
        s2.len() == s0.len(),
        linked(s1, c1),
        forall|x: int|
            0 <= x < s0.len() && !(if left_side {
                left_of(sh)
            } else {
                right_of(sh)
            }).idxs().contains(x as usize) ==> s1[x] == s0[x],
        forall|j: int|
            0 <= j < c1.idxs().len() ==> (if left_side {
                left_of(sh)
            } else {
                right_of(sh)
            }).idxs().contains(#[trigger] c1.idxs()[j]),
        forall|x: int| 0 <= x < s1.len() && x != i ==> s2[x] == s1[x],
        s2[i as int] is Used,
        s2[i as int]->Used_0.key == s0[i as int]->Used_0.key,
        s2[i as int]->Used_0.val == s0[i as int]->Used_0.val,
        s2[i as int]->Used_0.size == reshaped(sh, left_side, c1).size(),
        left_side ==> s2[i as int]->Used_0.left == c1.root() && s2[i as int]->Used_0.right
            == s0[i as int]->Used_0.right,
        !left_side ==> s2[i as int]->Used_0.right == c1.root() && s2[i as int]->Used_0.left
            == s0[i as int]->Used_0.left,
    ensures
        linked(s2, reshaped(sh, left_side, c1)),
        left_side ==> entries(s2, reshaped(sh, left_side, c1).idxs()) == entries(s1, c1.idxs()).push(
            entry_at(s0, i),
        ) + entries(s0, right_of(sh).idxs()),
        !left_side ==> entries(s2, reshaped(sh, left_side, c1).idxs()) == entries(
            s0,
            left_of(sh).idxs(),
        ).push(entry_at(s0, i)) + entries(s1, c1.idxs()),
        entries(s0, sh.idxs()) == entries(s0, left_of(sh).idxs()).push(entry_at(s0, i)) + entries(
            s0,
            right_of(sh).idxs(),
        ),
        forall|x: int| 0 <= x < s0.len() && !sh.idxs().contains(x as usize) ==> s2[x] == s0[x],
        sh.idxs()[left_of(sh).idxs().len() as int] == i,
{
    let l = left_of(sh);
    let r = right_of(sh);
    let c = if left_side { l } else { r };
    let sib = if left_side { r } else { l };
    let l1 = if left_side { c1 } else { l };
    let r1 = if left_side { r } else { c1 };
    let sh2 = reshaped(sh, left_side, c1);
    assert(sh == bin(l, i, r));
    assert(sh2 == bin(l1, i, r1));
    lemma_bin_distinct(l, i, r);
    lemma_bin_entries(s0, l, i, r);
    lemma_bin_entries(s2, l1, i, r1);
    let n = l.idxs().len() as int;
    assert(sh.idxs()[n] == i);
    assert(sh.idxs().contains(i));
    assert forall|y: usize| c.idxs().contains(y) implies sh.idxs().contains(y) by {
        let j = choose|j: int| 0 <= j < c.idxs().len() && c.idxs()[j] == y;
        if left_side {
            assert(sh.idxs()[j] == y);
        } else {
            assert(sh.idxs()[j + n + 1] == y);
        }
    }
    assert forall|j: int| 0 <= j < sib.idxs().len() implies s2[(#[trigger] sib.idxs()[j]) as int] == s0[sib.idxs()[j] as int] by {
        let y = sib.idxs()[j];
        assert(sib.idxs().contains(y));
        lemma_linked_used(s0, sib);
    }
    lemma_frame(s0, s2, sib);
    assert forall|j: int| 0 <= j < c1.idxs().len() implies s2[(#[trigger] c1.idxs()[j]) as int] == s1[c1.idxs()[j] as int] by {
        let y = c1.idxs()[j];
        assert(c.idxs().contains(y));
        lemma_linked_used(s1, c1);
    }
    lemma_frame(s1, s2, c1);
    assert(entry_at(s2, i) == entry_at(s0, i));
    assert forall|x: int| 0 <= x < s0.len() && !sh.idxs().contains(x as usize) implies s2[x] == s0[x] by {
        assert(!c.idxs().contains(x as usize));
    }
}

/// Detaching the least node of the left subtree detaches the least node of
/// the tree.
pub(crate) proof fn lemma_detached_adopt<K: Ord, V>(
    s0: Seq<Slot<K, V>>,
    sh: Shape,
    s1: Seq<Slot<K, V>>,
    min: usize,
    root1: Option<usize>,
    c1: Shape,
    i: usize,
    s2: Seq<Slot<K, V>>,
)
    requires
        linked(s0, sh),
        sh.root() == Some(i),
        sh.idxs().no_duplicates(),
        detached(s0, left_of(sh), s1, min, root1, c1),
        s2.len() == s1.len(),
        forall|x: int| 0 <= x < s1.len() && x != i ==> s2[x] == s1[x],
        s2[i as int] == Slot::Used(unlinked(s0[i as int]->Used_0, true, root1)),
    ensures
        detached(s0, sh, s2, min, Some(i), reshaped(sh, true, c1)),
{
    reveal(detached);
    let l = left_of(sh);
    let r = right_of(sh);
    lemma_idxs_len(l);
    lemma_idxs_len(c1);
    lemma_idxs_len(sh);
    lemma_idxs_len(r);
    lemma_bin_distinct(l, i, r);
    assert forall|j: int| 0 <= j < c1.idxs().len() implies l.idxs().contains(#[trigger] c1.idxs()[j]) by {
        assert(c1.idxs()[j] == l.idxs()[j + 1]);
    }
    assert(l.idxs().contains(min));
    lemma_relink(s0, sh, s1, c1, i, true, s2);
    lemma_remove_left(l.idxs(), i, r.idxs(), 0);
    lemma_remove_left(entries(s0, l.idxs()), entry_at(s0, i), entries(s0, r.idxs()), 0);
    lemma_bin_entries(s0, l, i, r);
    assert(sh.idxs()[0] == l.idxs()[0]);
}

/// A removal that is settled in a child's subtree is settled in the parent's
/// once the parent points to the child's new root and counts one node less.
pub(crate) proof fn lemma_removed_adopt<K: Ord, V>(
    s0: Seq<Slot<K, V>>,
    chain0: Seq<usize>,
    sh: Shape,
    s1: Seq<Slot<K, V>>,
    chain1: Seq<usize>,
    root1: Option<usize>,
    taken: (K, V),
    c1: Shape,
    pos: int,
    q: int,
    i: usize,
    left_side: bool,
    s2: Seq<Slot<K, V>>,
)
    requires
        linked(s0, sh),
        sh.root() == Some(i),
        sh.idxs().no_duplicates(),
        removed(
            s0,
            chain0,
            if left_side {
                left_of(sh)
            } else {
                right_of(sh)
            },
            s1,
            chain1,
            root1,
            taken,
            c1,
            pos,
            q,
        ),
        s2.len() == s1.len(),
        forall|x: int| 0 <= x < s1.len() && x != i ==> s2[x] == s1[x],
        s2[i as int] == Slot::Used(unlinked(s0[i as int]->Used_0, left_side, root1)),
    ensures
        removed(
            s0,
            chain0,
            sh,
            s2,
            chain1,
            Some(i),
            taken,
            reshaped(sh, left_side, c1),
            lifted(sh, left_side, pos),
            lifted(sh, left_side, q),
        ),
{
    reveal(removed);
    let l = left_of(sh);
    let r = right_of(sh);
    let c = if left_side { l } else { r };
    lemma_idxs_len(l);
    lemma_idxs_len(c1);
    lemma_idxs_len(sh);
    lemma_idxs_len(r);
    lemma_bin_distinct(l, i, r);
    lemma_remove_distinct(c.idxs(), q);
    assert forall|j: int| 0 <= j < c1.idxs().len() implies c.idxs().contains(#[trigger] c1.idxs()[j]) by {
        assert(c1.idxs().contains(c1.idxs()[j]));
    }
    assert(c.idxs().contains(c.idxs()[q]));
    lemma_relink(s0, sh, s1, c1, i, left_side, s2);
    lemma_bin_entries(s0, l, i, r);
    let n = l.idxs().len() as int;
    if left_side {
        lemma_remove_left(l.idxs(), i, r.idxs(), q);
        lemma_remove_left(entries(s0, l.idxs()), entry_at(s0, i), entries(s0, r.idxs()), pos);
        assert(sh.idxs()[q] == l.idxs()[q]);
    } else {
        lemma_remove_right(l.idxs(), i, r.idxs(), q);
        lemma_remove_right(entries(s0, l.idxs()), entry_at(s0, i), entries(s0, r.idxs()), pos);
        assert(sh.idxs()[n + 1 + q] == r.idxs()[q]);
    }
    lemma_linked_used(s0, c);
    assert(c.idxs()[q] != i);
    assert(s2[c.idxs()[q] as int] == s1[c.idxs()[q] as int]);
}

/// What a removal looks for: a key, or the node in a slot.
pub(crate) enum Probe<'a, K> {
    Key(&'a K),
    Slot(usize),
}

/// The slot that a probe names holds a node.
pub(crate) open spec fn probe_ok<K, V>(s: Seq<Slot<K, V>>, pr: Probe<K>) -> bool {
    match pr {
        Probe::Key(k) => true,
        Probe::Slot(t) => t < s.len() && s[t as int] is Used,
    }
}

/// The key that a probe looks for.
pub(crate) open spec fn probe_key<K, V>(s: Seq<Slot<K, V>>, pr: Probe<K>) -> K {
    match pr {
        Probe::Key(k) => *k,
        Probe::Slot(t) => entry_at(s, t).0,
    }
}

/// What a step of a removal hands to the step above it.
pub(crate) struct Cut<K, V> {
    /// The root of the subtree after the step.
    pub root: Option<usize>,
    /// The entry that was removed, if the key was present.
    pub taken: Option<(K, V)>,
}

/// What the step below a node left of the node itself, after a removal.
pub(crate) proof fn lemma_removed_parent_kept<K: Ord, V>(
    s0: Seq<Slot<K, V>>,
    chain0: Seq<usize>,
    sh: Shape,
    s1: Seq<Slot<K, V>>,
    chain1: Seq<usize>,
    root1: Option<usize>,
    taken: (K, V),
    c1: Shape,
    pos: int,
    q: int,
    i: usize,
    left_side: bool,
)
    requires
        linked(s0, sh),
        sh.root() == Some(i),
        sh.idxs().no_duplicates(),
        removed(
            s0,
            chain0,
            if left_side {
                left_of(sh)
            } else {
                right_of(sh)
            },
            s1,
            chain1,
            root1,
            taken,
            c1,
            pos,
            q,
        ),
    ensures
        s1.len() == s0.len(),
        s1[i as int] == s0[i as int],
        sh.size() >= 1,
{
    reveal(removed);
    lemma_bin_distinct(left_of(sh), i, right_of(sh));
}

/// What detaching the least node of the left subtree left of the node above.
pub(crate) proof fn lemma_detached_parent_kept<K: Ord, V>(
    s0: Seq<Slot<K, V>>,
    sh: Shape,
    s1: Seq<Slot<K, V>>,
    min: usize,
    root1: Option<usize>,
    c1: Shape,
    i: usize,
    left_side: bool,
)
    requires
        linked(s0, sh),
        sh.root() == Some(i),
        sh.idxs().no_duplicates(),
        detached(
            s0,
            if left_side {
                left_of(sh)
            } else {
                right_of(sh)
            },
            s1,
            min,
            root1,
            c1,
        ),
    ensures
        s1.len() == s0.len(),
        s1[i as int] == s0[i as int],
        s1[min as int] == s0[min as int],
        min < s0.len(),
        s0[min as int] is Used,
        min != i,
        sh.size() >= 2,
{
    reveal(detached);
    let c = if left_side { left_of(sh) } else { right_of(sh) };
    lemma_bin_distinct(left_of(sh), i, right_of(sh));
    lemma_idxs_len(c);
    assert(c.idxs().contains(min));
}

/// Removing a node without a left child: its right subtree takes its place.
pub(crate) proof fn lemma_removed_no_left<K: Ord, V>(
    s0: Seq<Slot<K, V>>,
    chain0: Seq<usize>,
    sh: Shape,
    i: usize,
    s1: Seq<Slot<K, V>>,
    next: Option<usize>,
)
    requires
        linked(s0, sh),
        sh.root() == Some(i),
        sh.idxs().no_duplicates(),
        left_of(sh) is Leaf,
        s1 == s0.update(i as int, Slot::Free { next }),
    ensures
        removed(
            s0,
            chain0,
            sh,
            s1,
            seq![i] + chain0,
            right_of(sh).root(),
            entry_at(s0, i),
            right_of(sh),
            0,
            0,
        ),
{
    reveal(removed);
    let l = left_of(sh);
    let r = right_of(sh);
    lemma_bin_distinct(l, i, r);
    lemma_bin_entries(s0, l, i, r);
    lemma_linked_used(s0, r);
    assert(l.idxs() =~= Seq::empty());
    assert forall|j: int| 0 <= j < r.idxs().len() implies s1[(#[trigger] r.idxs()[j]) as int] == s0[r.idxs()[j] as int] by {
        assert(r.idxs().contains(r.idxs()[j]));
    }
    lemma_frame(s0, s1, r);
    assert(sh.idxs().remove(0) =~= r.idxs());
    assert(entries(s0, sh.idxs()).remove(0) =~= entries(s0, r.idxs()));
    assert(sh.idxs()[0] == i);
    assert(sh.idxs().contains(i));
    lemma_idxs_len(r);
    lemma_idxs_len(sh);
}

/// Removing a node without a right child: its left subtree takes its place.
pub(crate) proof fn lemma_removed_no_right<K: Ord, V>(
    s0: Seq<Slot<K, V>>,
    chain0: Seq<usize>,
    sh: Shape,
    i: usize,
    s1: Seq<Slot<K, V>>,
    next: Option<usize>,
)
    requires
        linked(s0, sh),
        sh.root() == Some(i),
        sh.idxs().no_duplicates(),
        right_of(sh) is Leaf,
        s1 == s0.update(i as int, Slot::Free { next }),
    ensures
        removed(
            s0,
            chain0,
            sh,
            s1,
            seq![i] + chain0,
            left_of(sh).root(),
            entry_at(s0, i),
            left_of(sh),
            left_of(sh).idxs().len() as int,
            left_of(sh).idxs().len() as int,
        ),
{
    reveal(removed);
    let l = left_of(sh);
    let r = right_of(sh);
    let n = l.idxs().len() as int;
    lemma_bin_distinct(l, i, r);
    lemma_bin_entries(s0, l, i, r);
    lemma_linked_used(s0, l);
    assert(r.idxs() =~= Seq::empty());
    assert forall|j: int| 0 <= j < l.idxs().len() implies s1[(#[trigger] l.idxs()[j]) as int] == s0[l.idxs()[j] as int] by {
        assert(l.idxs().contains(l.idxs()[j]));
    }
    lemma_frame(s0, s1, l);
    assert(sh.idxs().remove(n) =~= l.idxs());
    assert(entries(s0, sh.idxs()).remove(n) =~= entries(s0, l.idxs()));
    assert(sh.idxs()[n] == i);
    assert(sh.idxs().contains(i));
    lemma_idxs_len(l);
    lemma_idxs_len(sh);
}

/// Removing a node with two children: the least entry of its right subtree
/// moves into the node, and the slot that held that entry is freed.
pub(crate) proof fn lemma_removed_two<K: Ord, V>(
    s0: Seq<Slot<K, V>>,
    chain0: Seq<usize>,
    sh: Shape,
    i: usize,
    s1: Seq<Slot<K, V>>,
    ms: usize,
    rroot: Option<usize>,
    r1: Shape,
    s2: Seq<Slot<K, V>>,
)
    requires
        linked(s0, sh),
        sh.root() == Some(i),
        sh.idxs().no_duplicates(),
        detached(s0, right_of(sh), s1, ms, rroot, r1),
        s2.len() == s0.len(),
        forall|x: int| 0 <= x < s0.len() && x != i && x != ms ==> s2[x] == s1[x],
        s2[ms as int] is Free,
        s2[i as int] == Slot::Used(
            Node {
                key: entry_at(s0, ms).0,
                val: entry_at(s0, ms).1,
                left: s0[i as int]->Used_0.left,
                right: rroot,
                size: (s0[i as int]->Used_0.size - 1) as usize,
            },
        ),
    ensures
        removed(
            s0,
            chain0,
            sh,
            s2,
            seq![ms] + chain0,
            Some(i),
            entry_at(s0, i),
            reshaped(sh, false, r1),
            left_of(sh).idxs().len() as int,
            (left_of(sh).idxs().len() + 1) as int,
        ),
{
    reveal(removed);
    reveal(detached);
    let l = left_of(sh);
    let r = right_of(sh);
    let sh1 = reshaped(sh, false, r1);
    let n = l.idxs().len() as int;
    assert(sh == bin(l, i, r));
    assert(sh1 == bin(l, i, r1));
    lemma_bin_distinct(l, i, r);
    lemma_bin_entries(s0, l, i, r);
    lemma_bin_entries(s2, l, i, r1);
    lemma_linked_used(s0, l);
    lemma_linked_used(s0, r);
    lemma_linked_used(s1, r1);
    lemma_idxs_len(l);
    lemma_idxs_len(r);
    lemma_idxs_len(r1);
    lemma_idxs_len(sh);
    lemma_remove_distinct(r.idxs(), 0);
    assert(r.idxs().contains(ms));
    assert(sh.idxs()[n] == i);
    assert(sh.idxs()[n + 1] == ms);
    assert forall|y: usize| r.idxs().contains(y) implies sh.idxs().contains(y) by {
        let j = choose|j: int| 0 <= j < r.idxs().len() && r.idxs()[j] == y;
        assert(sh.idxs()[j + n + 1] == y);
    }
    assert forall|y: usize| l.idxs().contains(y) implies sh.idxs().contains(y) by {
        let j = choose|j: int| 0 <= j < l.idxs().len() && l.idxs()[j] == y;
        assert(sh.idxs()[j] == y);
    }
    assert forall|j: int| 0 <= j < l.idxs().len() implies s2[(#[trigger] l.idxs()[j]) as int] == s0[l.idxs()[j] as int] by {
        let y = l.idxs()[j];
        assert(l.idxs().contains(y));
        assert(!r.idxs().contains(y));
    }
    lemma_frame(s0, s2, l);
    assert forall|j: int| 0 <= j < r1.idxs().len() implies s2[(#[trigger] r1.idxs()[j]) as int] == s1[r1.idxs()[j] as int] by {
        let y = r1.idxs()[j];
        assert(r1.idxs().contains(y));
        assert(r.idxs().contains(y));
    }
    lemma_frame(s1, s2, r1);
    lemma_remove_right(l.idxs(), i, r.idxs(), 0);
    let el = entries(s0, l.idxs());
    let er = entries(s0, r.idxs());
    assert(er[0] == entry_at(s0, ms));
    assert(el.push(er[0]) + er.remove(0) =~= (el.push(entry_at(s0, i)) + er).remove(n));
    assert(entries(s0, sh.idxs())[n] == entry_at(s0, i));
    assert forall|x: int| 0 <= x < s0.len() && !sh.idxs().contains(x as usize) implies s2[x] == s0[x] by {
        assert(!r.idxs().contains(x as usize));
    }
}

/// How the slots `all[lo..hi]` stand after they were linked into a tree of
/// the shape `sh`: each still holds its entry, and no other slot changed.
#[verifier::opaque]
pub(crate) open spec fn built<K: Ord, V>(
    s0: Seq<Slot<K, V>>,
    all: Seq<usize>,
    lo: int,
    hi: int,
    s1: Seq<Slot<K, V>>,
    sh: Shape,
) -> bool {
    &&& s1.len() == s0.len()
    &&& sh.idxs() == all.subrange(lo, hi)
    &&& linked(s1, sh)
    &&& forall|x: int| 0 <= x < s0.len() && !sh.idxs().contains(x as usize) ==> s1[x] == s0[x]
    &&& forall|j: int|
        lo <= j < hi ==> s1[(#[trigger] all[j]) as int] is Used && entry_at(s1, all[j]) == entry_at(s0, all[j])
}

/// A stretch of slots that all hold nodes holds nodes in each of its parts.
pub(crate) proof fn lemma_all_used_part<K, V>(s: Seq<Slot<K, V>>, all: Seq<usize>, lo: int, hi: int, a: int, b: int)
    requires
        0 <= lo <= a <= b <= hi <= all.len(),
        all_used(s, all.subrange(lo, hi)),
    ensures
        all_used(s, all.subrange(a, b)),
{
    let part = all.subrange(lo, hi);
    let sub = all.subrange(a, b);
    assert forall|j: int| 0 <= j < sub.len() implies (#[trigger] sub[j]) < s.len() && s[sub[j] as int] is Used by {
        assert(sub[j] == part[j + a - lo]);
    }
}

/// Linking one stretch of slots leaves another stretch, apart from it, as
/// it was.
pub(crate) proof fn lemma_built_apart<K: Ord, V>(
    s0: Seq<Slot<K, V>>,
    all: Seq<usize>,
    lo: int,
    hi: int,
    s1: Seq<Slot<K, V>>,
    sh: Shape,
    a: int,
    b: int,
)
    requires
        built(s0, all, lo, hi, s1, sh),
        all.no_duplicates(),
        0 <= lo <= hi <= all.len(),
        0 <= a <= b <= all.len(),
        b <= lo || hi <= a,
        all_used(s0, all.subrange(a, b)),
    ensures
        all_used(s1, all.subrange(a, b)),
        forall|j: int| a <= j < b ==> s1[(#[trigger] all[j]) as int] == s0[all[j] as int],
{
    reveal(built);
    let part = all.subrange(lo, hi);
    let sub = all.subrange(a, b);
    assert forall|j: int| a <= j < b implies s1[(#[trigger] all[j]) as int] == s0[all[j] as int] by {
        assert(sub[j - a] == all[j]);
        if part.contains(all[j]) {
            let q = choose|q: int| 0 <= q < part.len() && part[q] == all[j];
            assert(all[q + lo] == all[j]);
        }
    }
    assert forall|j: int| 0 <= j < sub.len() implies (#[trigger] sub[j]) < s1.len() && s1[sub[j] as int] is Used by {
        assert(sub[j] == all[j + a]);
    }
}

/// Two stretches of slots, each linked into a tree, and the slot between
/// them, pointed at the two roots, make one tree over the whole stretch.
#[verifier::rlimit(50)]
pub(crate) proof fn lemma_built_join<K: Ord, V>(
    s0: Seq<Slot<K, V>>,
    all: Seq<usize>,
    lo: int,
    mid: int,
    hi: int,
    s1: Seq<Slot<K, V>>,
    lsh: Shape,
    s2: Seq<Slot<K, V>>,
    rsh: Shape,
    s3: Seq<Slot<K, V>>,
)
    requires
        all.no_duplicates(),
        0 <= lo <= mid < hi <= all.len(),
        all[mid] < s0.len(),
        s0[all[mid] as int] is Used,
        built(s0, all, lo, mid, s1, lsh),
        built(s1, all, mid + 1, hi, s2, rsh),
        s2[all[mid] as int] == s0[all[mid] as int],
        s3.len() == s2.len(),
        forall|x: int| 0 <= x < s2.len() && x != all[mid] ==> s3[x] == s2[x],
        s3[all[mid] as int] == Slot::Used(
            Node {
                key: s0[all[mid] as int]->Used_0.key,
                val: s0[all[mid] as int]->Used_0.val,
                left: lsh.root(),
                right: rsh.root(),
                size: (hi - lo) as usize,
            },
        ),
        hi - lo <= usize::MAX,
    ensures
        built(s0, all, lo, hi, s3, bin(lsh, all[mid], rsh)),
{
    reveal(built);
    let i = all[mid];
    let sh = bin(lsh, i, rsh);
    let part = all.subrange(lo, hi);
    let lpart = all.subrange(lo, mid);
    let rpart = all.subrange(mid + 1, hi);
    assert(sh.idxs() =~= part);
    lemma_idxs_len(lsh);
    lemma_idxs_len(rsh);
    assert(!lpart.contains(i)) by {
        if lpart.contains(i) {
            let q = choose|q: int| 0 <= q < lpart.len() && lpart[q] == i;
            assert(all[q + lo] == all[mid]);
        }
    }
    assert(!rpart.contains(i)) by {
        if rpart.contains(i) {
            let q = choose|q: int| 0 <= q < rpart.len() && rpart[q] == i;
            assert(all[q + mid + 1] == all[mid]);
        }
    }
    assert forall|x: usize| !(lpart.contains(x) && rpart.contains(x)) by {
        if lpart.contains(x) && rpart.contains(x) {
            let q = choose|q: int| 0 <= q < lpart.len() && lpart[q] == x;
            let r = choose|r: int| 0 <= r < rpart.len() && rpart[r] == x;
            assert(all[q + lo] == all[r + mid + 1]);
        }
    }
    // the left half was not touched by linking the right half
    assert forall|j: int| 0 <= j < lsh.idxs().len() implies s3[(#[trigger] lsh.idxs()[j]) as int] == s1[lsh.idxs()[j] as int] by {
        let x = lsh.idxs()[j];
        assert(lpart.contains(x));
        lemma_linked_used(s1, lsh);
    }
    lemma_frame(s1, s3, lsh);
    assert forall|j: int| 0 <= j < rsh.idxs().len() implies s3[(#[trigger] rsh.idxs()[j]) as int] == s2[rsh.idxs()[j] as int] by {
        let x = rsh.idxs()[j];
        assert(rpart.contains(x));
        lemma_linked_used(s2, rsh);
    }
    lemma_frame(s2, s3, rsh);
    assert forall|x: int| 0 <= x < s0.len() && !part.contains(x as usize) implies s3[x] == s0[x] by {
        if lpart.contains(x as usize) {
            let q = choose|q: int| 0 <= q < lpart.len() && lpart[q] == x as usize;
            assert(part[q] == x as usize);
        }
        if rpart.contains(x as usize) {
            let q = choose|q: int| 0 <= q < rpart.len() && rpart[q] == x as usize;
            assert(part[q + mid + 1 - lo] == x as usize);
        }
        if x == i {
            assert(part[mid - lo] == i);
        }
    }
    assert forall|j: int| lo <= j < hi implies s3[(#[trigger] all[j]) as int] is Used && entry_at(s3, all[j])
        == entry_at(s0, all[j]) by {
        let x = all[j];
        if j < mid {
            assert(lpart[j - lo] == x);
            assert(lpart.contains(x));
        } else if j > mid {
            assert(rpart[j - mid - 1] == x);
            assert(rpart.contains(x));
            assert(!lpart.contains(x));
            lemma_linked_used(s2, rsh);
            assert(rsh.idxs()[j - mid - 1] == x);
            assert(s1[x as int] == s0[x as int]);
        }
    }
}

/// Writing a node into a slot that held a node leaves the free list sound.
pub proof fn lemma_used_update_keeps_free_list<K, V>(
    slots: Seq<Slot<K, V>>,
    i: usize,
    after: Seq<Slot<K, V>>,
    head: Option<usize>,
    chain: Seq<usize>,
)
    requires
        crate::arena::free_list_ok(slots, head, chain),
        i < slots.len(),
        slots[i as int] is Used,
        after.len() == slots.len(),
        after[i as int] is Used,
        forall|x: int| 0 <= x < slots.len() && x != i ==> after[x] == slots[x],
    ensures
        crate::arena::free_list_ok(after, head, chain),
{
    assert forall|j: int| 0 <= j < chain.len() implies (#[trigger] chain[j]) < after.len() && after[chain[j] as int]
        == (Slot::<K, V>::Free { next: crate::arena::next_free(chain, j) }) by {
        assert(slots[chain[j] as int] is Free);
    }
    assert forall|x: int| 0 <= x < after.len() && (#[trigger] after[x]) is Free implies chain.contains(
        x as usize,
    ) by {
        assert(slots[x] is Free);
    }
}

} // verus!
