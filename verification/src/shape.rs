//! The shape of a tree, as the verifier sees it: which slot is the root of
//! which subtree. It exists in proofs only.
use crate::arena::Slot;
use crate::listing::ascending;
use crate::order::key_lt;
use vstd::prelude::*;

verus! {

/// A binary tree of slot indices.
pub enum Shape {
    Leaf,
    Bin { left: Box<Shape>, idx: usize, right: Box<Shape> },
}

impl Shape {
    /// The number of nodes.
    pub open spec fn size(self) -> nat
        decreases self,
    {
        match self {
            Shape::Leaf => 0,
            Shape::Bin { left, idx, right } => left.size() + 1 + right.size(),
        }
    }

    /// The number of nodes on the longest way from the root down.
    pub open spec fn levels(self) -> nat
        decreases self,
    {
        match self {
            Shape::Leaf => 0,
            Shape::Bin { left, idx, right } => if left.levels() >= right.levels() {
                1 + left.levels()
            } else {
                1 + right.levels()
            },
        }
    }

    /// The slots in order: left subtree, root, right subtree.
    pub open spec fn idxs(self) -> Seq<usize>
        decreases self,
    {
        match self {
            Shape::Leaf => Seq::empty(),
            Shape::Bin { left, idx, right } => left.idxs().push(idx) + right.idxs(),
        }
    }

    /// The slot of the root.
    pub open spec fn root(self) -> Option<usize> {
        match self {
            Shape::Leaf => None,
            Shape::Bin { left, idx, right } => Some(idx),
        }
    }
}

/// The tree of one node in slot `i`.
pub open spec fn single(i: usize) -> Shape {
    Shape::Bin { left: Box::new(Shape::Leaf), idx: i, right: Box::new(Shape::Leaf) }
}

/// The entry held in slot `i`.
pub open spec fn entry_at<K, V>(slots: Seq<Slot<K, V>>, i: usize) -> (K, V) {
    (slots[i as int]->Used_0.key, slots[i as int]->Used_0.val)
}

/// The entries held in the slots `ix`, in that order.
pub open spec fn entries<K, V>(slots: Seq<Slot<K, V>>, ix: Seq<usize>) -> Seq<(K, V)> {
    Seq::new(ix.len(), |j: int| entry_at(slots, ix[j]))
}

/// Each of the slots `ix` holds a node.
pub open spec fn all_used<K, V>(slots: Seq<Slot<K, V>>, ix: Seq<usize>) -> bool {
    forall|j: int| 0 <= j < ix.len() ==> (#[trigger] ix[j]) < slots.len() && slots[ix[j] as int] is Used
}

/// The nodes in `slots` are linked as `sh` says, and each records the size
/// of its subtree.
pub open spec fn linked<K, V>(slots: Seq<Slot<K, V>>, sh: Shape) -> bool
    decreases sh,
{
    match sh {
        Shape::Leaf => true,
        Shape::Bin { left, idx, right } => {
            &&& idx < slots.len()
            &&& slots[idx as int] is Used
            &&& slots[idx as int]->Used_0.left == left.root()
            &&& slots[idx as int]->Used_0.right == right.root()
            &&& slots[idx as int]->Used_0.size == sh.size()
            &&& linked(slots, *left)
            &&& linked(slots, *right)
        },
    }
}

/// A shape has as many slots as nodes.
pub proof fn lemma_idxs_len(sh: Shape)
    ensures
        sh.idxs().len() == sh.size(),
    decreases sh,
{
    match sh {
        Shape::Leaf => {},
        Shape::Bin { left, idx, right } => {
            lemma_idxs_len(*left);
            lemma_idxs_len(*right);
        },
    }
}

/// Every slot of a linked shape holds a node.
pub proof fn lemma_linked_used<K, V>(slots: Seq<Slot<K, V>>, sh: Shape)
    requires
        linked(slots, sh),
    ensures
        all_used(slots, sh.idxs()),
    decreases sh,
{
    match sh {
        Shape::Leaf => {},
        Shape::Bin { left, idx, right } => {
            lemma_linked_used(slots, *left);
            lemma_linked_used(slots, *right);
            let l = left.idxs();
            let r = right.idxs();
            assert forall|j: int| 0 <= j < sh.idxs().len() implies (#[trigger] sh.idxs()[j]) < slots.len()
                && slots[sh.idxs()[j] as int] is Used by {
                if j < l.len() {
                    assert(sh.idxs()[j] == l[j]);
                } else if j > l.len() {
                    assert(sh.idxs()[j] == r[j - l.len() - 1]);
                }
            }
        },
    }
}

/// What a shape says of its parts: how its slots and entries are made of
/// those of the two subtrees and the root.
pub proof fn lemma_bin_entries<K, V>(slots: Seq<Slot<K, V>>, left: Shape, idx: usize, right: Shape)
    ensures
        ({
            let sh = Shape::Bin { left: Box::new(left), idx, right: Box::new(right) };
            &&& sh.idxs() == left.idxs().push(idx) + right.idxs()
            &&& entries(slots, sh.idxs()) == entries(slots, left.idxs()).push(entry_at(slots, idx))
                + entries(slots, right.idxs())
            &&& sh.idxs().len() == left.idxs().len() + 1 + right.idxs().len()
            &&& sh.idxs()[left.idxs().len() as int] == idx
        }),
{
    let sh = Shape::Bin { left: Box::new(left), idx, right: Box::new(right) };
    assert(entries(slots, sh.idxs()) =~= entries(slots, left.idxs()).push(entry_at(slots, idx))
        + entries(slots, right.idxs()));
}

/// In a shape without a repeated slot the two subtrees and the root share
/// no slot.
pub proof fn lemma_bin_distinct(left: Shape, idx: usize, right: Shape)
    requires
        (Shape::Bin { left: Box::new(left), idx, right: Box::new(right) }).idxs().no_duplicates(),
    ensures
        left.idxs().no_duplicates(),
        right.idxs().no_duplicates(),
        !left.idxs().contains(idx),
        !right.idxs().contains(idx),
        forall|x: usize| !(left.idxs().contains(x) && right.idxs().contains(x)),
{
    let sh = Shape::Bin { left: Box::new(left), idx, right: Box::new(right) };
    let l = left.idxs();
    let r = right.idxs();
    let s = sh.idxs();
    let n = l.len() as int;
    assert(s[n] == idx);
    assert forall|i: int, j: int| 0 <= i < l.len() && 0 <= j < l.len() && i != j implies l[i] != l[j] by {
        assert(s[i] == l[i] && s[j] == l[j]);
    }
    assert forall|i: int, j: int| 0 <= i < r.len() && 0 <= j < r.len() && i != j implies r[i] != r[j] by {
        assert(s[i + n + 1] == r[i] && s[j + n + 1] == r[j]);
    }
    if l.contains(idx) {
        let i = choose|i: int| 0 <= i < l.len() && l[i] == idx;
        assert(s[i] == l[i]);
    }
    if r.contains(idx) {
        let i = choose|i: int| 0 <= i < r.len() && r[i] == idx;
        assert(s[i + n + 1] == r[i]);
    }
    assert forall|x: usize| !(l.contains(x) && r.contains(x)) by {
        if l.contains(x) && r.contains(x) {
            let i = choose|i: int| 0 <= i < l.len() && l[i] == x;
            let j = choose|j: int| 0 <= j < r.len() && r[j] == x;
            assert(s[i] == l[i]);
            assert(s[j + n + 1] == r[j]);
        }
    }
}

/// In an ascending tree the left entries are below the root's key and the
/// right entries above it, and both subtrees ascend.
pub proof fn lemma_bin_ascending<K: Ord, V>(
    slots: Seq<Slot<K, V>>,
    left: Shape,
    idx: usize,
    right: Shape,
)
    requires
        ascending(entries(slots, (Shape::Bin { left: Box::new(left), idx, right: Box::new(right) }).idxs())),
    ensures
        ascending(entries(slots, left.idxs())),
        ascending(entries(slots, right.idxs())),
        forall|j: int|
            0 <= j < left.idxs().len() ==> key_lt(
                (#[trigger] entries(slots, left.idxs())[j]).0,
                entry_at(slots, idx).0,
            ),
        forall|j: int|
            0 <= j < right.idxs().len() ==> key_lt(
                entry_at(slots, idx).0,
                (#[trigger] entries(slots, right.idxs())[j]).0,
            ),
{
    let sh = Shape::Bin { left: Box::new(left), idx, right: Box::new(right) };
    lemma_bin_entries(slots, left, idx, right);
    let e = entries(slots, sh.idxs());
    let l = entries(slots, left.idxs());
    let r = entries(slots, right.idxs());
    let n = l.len() as int;
    assert(e[n] == entry_at(slots, idx));
    assert forall|a: int, b: int| 0 <= a < b < l.len() implies key_lt(#[trigger] l[a].0, #[trigger] l[b].0) by {
        assert(e[a] == l[a] && e[b] == l[b]);
    }
    assert forall|a: int, b: int| 0 <= a < b < r.len() implies key_lt(#[trigger] r[a].0, #[trigger] r[b].0) by {
        assert(e[a + n + 1] == r[a] && e[b + n + 1] == r[b]);
    }
    assert forall|j: int| 0 <= j < left.idxs().len() implies key_lt((#[trigger] l[j]).0, entry_at(slots, idx).0) by {
        assert(e[j] == l[j]);
    }
    assert forall|j: int| 0 <= j < right.idxs().len() implies key_lt(
        entry_at(slots, idx).0,
        (#[trigger] r[j]).0,
    ) by {
        assert(e[j + n + 1] == r[j]);
    }
}

/// Slots that a shape does not name can change without the shape noticing.
pub proof fn lemma_frame<K, V>(slots: Seq<Slot<K, V>>, after: Seq<Slot<K, V>>, sh: Shape)
    requires
        linked(slots, sh),
        after.len() == slots.len(),
        forall|j: int| 0 <= j < sh.idxs().len() ==> after[(#[trigger] sh.idxs()[j]) as int] == slots[sh.idxs()[j] as int],
    ensures
        linked(after, sh),
        entries(after, sh.idxs()) == entries(slots, sh.idxs()),
    decreases sh,
{
    match sh {
        Shape::Leaf => {
            assert(entries(after, sh.idxs()) =~= entries(slots, sh.idxs()));
        },
        Shape::Bin { left, idx, right } => {
            let l = left.idxs();
            let r = right.idxs();
            let s = sh.idxs();
            let n = l.len() as int;
            assert(s[n] == idx);
            assert forall|j: int| 0 <= j < l.len() implies after[(#[trigger] l[j]) as int] == slots[l[j] as int] by {
                assert(s[j] == l[j]);
            }
            assert forall|j: int| 0 <= j < r.len() implies after[(#[trigger] r[j]) as int] == slots[r[j] as int] by {
                assert(s[j + n + 1] == r[j]);
            }
            lemma_frame(slots, after, *left);
            lemma_frame(slots, after, *right);
            assert(entries(after, sh.idxs()) =~= entries(slots, sh.idxs()));
        },
    }
}

/// The nodes of `sh` form a search tree: at each node the keys of the left
/// subtree are below the node's key, and the keys of the right subtree above
/// it.
pub open spec fn search_tree<K: Ord, V>(slots: Seq<Slot<K, V>>, sh: Shape) -> bool
    decreases sh,
{
    match sh {
        Shape::Leaf => true,
        Shape::Bin { left, idx, right } => {
            &&& forall|j: int|
                0 <= j < left.idxs().len() ==> key_lt(
                    entry_at(slots, #[trigger] left.idxs()[j]).0,
                    entry_at(slots, idx).0,
                )
            &&& forall|j: int|
                0 <= j < right.idxs().len() ==> key_lt(
                    entry_at(slots, idx).0,
                    entry_at(slots, #[trigger] right.idxs()[j]).0,
                )
            &&& search_tree(slots, *left)
            &&& search_tree(slots, *right)
        },
    }
}

/// Each node of `sh` records the number of nodes of its subtree: one more
/// than its two subtrees hold together.
pub open spec fn sizes_add_up<K, V>(slots: Seq<Slot<K, V>>, sh: Shape) -> bool
    decreases sh,
{
    match sh {
        Shape::Leaf => true,
        Shape::Bin { left, idx, right } => {
            &&& slots[idx as int]->Used_0.size == 1 + left.size() + right.size()
            &&& sizes_add_up(slots, *left)
            &&& sizes_add_up(slots, *right)
        },
    }
}

/// A tree whose entries ascend in order is a search tree, and a linked tree
/// records the sizes of its subtrees.
pub proof fn lemma_search_tree<K: Ord, V>(slots: Seq<Slot<K, V>>, sh: Shape)
    requires
        linked(slots, sh),
        ascending(entries(slots, sh.idxs())),
    ensures
        search_tree(slots, sh),
        sizes_add_up(slots, sh),
    decreases sh,
{
    match sh {
        Shape::Leaf => {},
        Shape::Bin { left, idx, right } => {
            lemma_bin_ascending(slots, *left, idx, *right);
            lemma_search_tree(slots, *left);
            lemma_search_tree(slots, *right);
            assert forall|j: int| 0 <= j < left.idxs().len() implies key_lt(
                entry_at(slots, #[trigger] left.idxs()[j]).0,
                entry_at(slots, idx).0,
            ) by {
                assert(entries(slots, left.idxs())[j] == entry_at(slots, left.idxs()[j]));
            }
            assert forall|j: int| 0 <= j < right.idxs().len() implies key_lt(
                entry_at(slots, idx).0,
                entry_at(slots, #[trigger] right.idxs()[j]).0,
            ) by {
                assert(entries(slots, right.idxs())[j] == entry_at(slots, right.idxs()[j]));
            }
        },
    }
}

} // verus!
