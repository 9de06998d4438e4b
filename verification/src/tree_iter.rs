//! Iterators over the tree engine: by reference, owning, and with exclusive
//! access to the values. Each walks the slots in key order from both ends.
use crate::arena::Arena;
use crate::idxbuf::IdxBuf;
use crate::shape::entry_at;
use crate::tree::SgTree;
use vstd::prelude::*;

verus! {

/// An iterator over the entries of a tree, in ascending key order from the
/// front and in descending order from the back.
pub struct TreeIter<'a, K: Ord, V, const N: usize> {
    tree: &'a SgTree<K, V, N>,
    idxs: IdxBuf<N>,
    front: usize,
    back: usize,
}

impl<'a, K: Ord, V, const N: usize> TreeIter<'a, K, V, N> {
    /// The next entry from the front, which stays to come.
    pub fn peek(&self) -> (r: Option<(&'a K, &'a V)>)
        requires
            self.wf(),
        ensures
            match r {
                Some(e) => self.remaining().len() > 0 && (*e.0, *e.1) == self.remaining()[0],
                None => self.remaining().len() == 0,
            },
    {
        proof {
            self.tree.lemma_order();
        }
        if self.front < self.back {
            let i = self.idxs.get(self.front);
            proof {
                assert(self.tree.order()[self.front as int] == i);
                assert(self.remaining()[0] == self.tree.listing()[self.front as int]);
            }
            let tree: &'a SgTree<K, V, N> = self.tree;
            Some(tree.entry_at(i))
        } else {
            None
        }
    }

    /// The iterator walks a well-formed tree and its ends have not crossed.
    pub closed spec fn wf(&self) -> bool {
        &&& self.tree.wf()
        &&& self.idxs.items() == self.tree.order()
        &&& self.front <= self.back <= self.idxs.items().len()
    }

    /// The entries still to come, in ascending key order.
    pub closed spec fn remaining(&self) -> Seq<(K, V)> {
        self.tree.listing().subrange(self.front as int, self.back as int)
    }

    /// An iterator over all entries of `tree`.
    pub fn new(tree: &'a SgTree<K, V, N>) -> (it: Self)
        requires
            tree.wf(),
        ensures
            it.wf(),
            it.remaining() == tree.listing(),
    {
        let idxs = tree.sorted_idxs();
        let back = idxs.len();
        proof {
            tree.lemma_order();
            assert(tree.listing().subrange(0, back as int) =~= tree.listing());
        }
        TreeIter { tree, idxs, front: 0, back }
    }

    /// An iterator over the entries of `tree` at the places `front..back` of
    /// its listing.
    pub fn window(tree: &'a SgTree<K, V, N>, front: usize, back: usize) -> (it: Self)
        requires
            tree.wf(),
            front <= back <= tree.listing().len(),
        ensures
            it.wf(),
            it.remaining() == tree.listing().subrange(front as int, back as int),
    {
        let idxs = tree.sorted_idxs();
        proof {
            tree.lemma_order();
        }
        TreeIter { tree, idxs, front, back }
    }

    /// The next entry from the front.
    pub fn next(&mut self) -> (r: Option<(&'a K, &'a V)>)
        requires
            old(self).wf(),
        ensures
            final(self).wf(),
            match r {
                Some(e) => old(self).remaining().len() > 0 && (*e.0, *e.1) == old(self).remaining()[0]
                    && final(self).remaining() == old(self).remaining().skip(1),
                None => old(self).remaining().len() == 0 && final(self).remaining() == old(self).remaining(),
            },
    {
        if self.front < self.back {
            let i = self.idxs.get(self.front);
            proof {
                self.tree.lemma_order();
                assert(self.tree.order()[self.front as int] == i);
                assert(self.remaining()[0] == self.tree.listing()[self.front as int]);
                assert(self.tree.node_entry(i) == self.tree.listing()[self.front as int]);
                assert(self.remaining().skip(1) =~= self.tree.listing().subrange(self.front + 1, self.back as int));
            }
            self.front = self.front + 1;
            let tree: &'a SgTree<K, V, N> = self.tree;
            Some(tree.entry_at(i))
        } else {
            proof {
                self.tree.lemma_order();
            }
            None
        }
    }

    /// The next entry from the back.
    pub fn next_back(&mut self) -> (r: Option<(&'a K, &'a V)>)
        requires
            old(self).wf(),
        ensures
            final(self).wf(),
            match r {
                Some(e) => old(self).remaining().len() > 0 && (*e.0, *e.1) == old(self).remaining().last()
                    && final(self).remaining() == old(self).remaining().drop_last(),
                None => old(self).remaining().len() == 0 && final(self).remaining() == old(self).remaining(),
            },
    {
        if self.front < self.back {
            let i = self.idxs.get(self.back - 1);
            proof {
                self.tree.lemma_order();
                assert(self.tree.order()[self.back - 1] == i);
                assert(self.remaining().last() == self.tree.listing()[self.back - 1]);
                assert(self.tree.node_entry(i) == self.tree.listing()[self.back - 1]);
                assert(self.remaining().drop_last() =~= self.tree.listing().subrange(
                    self.front as int,
                    self.back - 1,
                ));
            }
            self.back = self.back - 1;
            let tree: &'a SgTree<K, V, N> = self.tree;
            Some(tree.entry_at(i))
        } else {
            proof {
                self.tree.lemma_order();
            }
            None
        }
    }

    /// The number of entries still to come.
    pub fn len(&self) -> (n: usize)
        requires
            self.wf(),
        ensures
            n == self.remaining().len(),
    {
        proof {
            self.tree.lemma_order();
        }
        self.back - self.front
    }
}

/// An iterator that owns the entries of a tree and hands them out, freeing
/// each slot as it goes.
pub struct TreeIntoIter<K: Ord, V, const N: usize> {
    arena: Arena<K, V, N>,
    idxs: IdxBuf<N>,
    front: usize,
    back: usize,
    all: Ghost<Seq<(K, V)>>,
}

impl<K: Ord, V, const N: usize> TreeIntoIter<K, V, N> {
    /// The slots still to come hold the entries still to come.
    pub closed spec fn wf(&self) -> bool {
        &&& self.arena.wf()
        &&& self.idxs.items().no_duplicates()
        &&& self.idxs.items().len() == self.all@.len()
        &&& self.front <= self.back <= self.idxs.items().len()
        &&& forall|j: int|
            self.front <= j < self.back ==> self.arena.used(#[trigger] self.idxs.items()[j]) && entry_at(
                self.arena@,
                self.idxs.items()[j],
            ) == self.all@[j]
    }

    /// The entries still to come, in ascending key order.
    pub closed spec fn remaining(&self) -> Seq<(K, V)> {
        self.all@.subrange(self.front as int, self.back as int)
    }

    /// An iterator that takes all entries of `tree`.
    pub fn new(tree: SgTree<K, V, N>) -> (it: Self)
        requires
            tree.wf(),
        ensures
            it.wf(),
            it.remaining() == tree.listing(),
    {
        let idxs = tree.sorted_idxs();
        let back = idxs.len();
        proof {
            tree.lemma_order();
            tree.lemma_arena();
            assert(tree.listing().subrange(0, back as int) =~= tree.listing());
        }
        let ghost all = tree.listing();
        let SgTree { arena, root: _, size: _, max_size: _, shape: _ } = tree;
        TreeIntoIter { arena, idxs, front: 0, back, all: Ghost(all) }
    }

    /// The next entry from the front.
    pub fn next(&mut self) -> (r: Option<(K, V)>)
        requires
            old(self).wf(),
        ensures
            final(self).wf(),
            match r {
                Some(e) => old(self).remaining().len() > 0 && e == old(self).remaining()[0]
                    && final(self).remaining() == old(self).remaining().skip(1),
                None => old(self).remaining().len() == 0 && final(self).remaining() == old(self).remaining(),
            },
    {
        if self.front < self.back {
            let i = self.idxs.get(self.front);
            let node = self.arena.free(i);
            proof {
                assert(self.remaining().skip(1) =~= self.all@.subrange(self.front + 1, self.back as int));
            }
            self.front = self.front + 1;
            Some((node.key, node.val))
        } else {
            None
        }
    }

    /// The next entry from the back.
    pub fn next_back(&mut self) -> (r: Option<(K, V)>)
        requires
            old(self).wf(),
        ensures
            final(self).wf(),
            match r {
                Some(e) => old(self).remaining().len() > 0 && e == old(self).remaining().last()
                    && final(self).remaining() == old(self).remaining().drop_last(),
                None => old(self).remaining().len() == 0 && final(self).remaining() == old(self).remaining(),
            },
    {
        if self.front < self.back {
            let i = self.idxs.get(self.back - 1);
            let node = self.arena.free(i);
            proof {
                assert(self.remaining().drop_last() =~= self.all@.subrange(self.front as int, self.back - 1));
            }
            self.back = self.back - 1;
            Some((node.key, node.val))
        } else {
            None
        }
    }

    /// The number of entries still to come.
    pub fn len(&self) -> (n: usize)
        requires
            self.wf(),
        ensures
            n == self.remaining().len(),
    {
        self.back - self.front
    }
}

/// An iterator over the entries of a tree that lends exclusive access to
/// each value in turn, in ascending key order from the front and in
/// descending order from the back.
pub struct TreeIterMut<'a, K: Ord, V, const N: usize> {
    pub tree: &'a mut SgTree<K, V, N>,
    pub idxs: IdxBuf<N>,
    pub front: usize,
    pub back: usize,
}

impl<'a, K: Ord, V, const N: usize> TreeIterMut<'a, K, V, N> {
    /// The iterator walks a well-formed tree and its ends have not crossed.
    pub open spec fn wf(&self) -> bool {
        &&& self.tree.wf()
        &&& self.idxs.items() == self.tree.order()
        &&& self.front <= self.back <= self.idxs.items().len()
    }

    /// The entries still to come, in ascending key order.
    pub open spec fn remaining(&self) -> Seq<(K, V)> {
        self.tree.listing().subrange(self.front as int, self.back as int)
    }

    /// An iterator over all entries of `tree`.
    pub fn new(tree: &'a mut SgTree<K, V, N>) -> (it: Self)
        requires
            old(tree).wf(),
        ensures
            it.wf(),
            *it.tree == *old(tree),
            *final(it.tree) == *final(tree),
            it.remaining() == old(tree).listing(),
    {
        let idxs = tree.sorted_idxs();
        let back = idxs.len();
        proof {
            tree.lemma_order();
            assert(tree.listing().subrange(0, back as int) =~= tree.listing());
        }
        TreeIterMut { tree, idxs, front: 0, back }
    }

    /// An iterator over the entries of `tree` at the places `front..back` of
    /// its listing.
    pub fn window(tree: &'a mut SgTree<K, V, N>, front: usize, back: usize) -> (it: Self)
        requires
            old(tree).wf(),
            front <= back <= old(tree).listing().len(),
        ensures
            it.wf(),
            *it.tree == *old(tree),
            *final(it.tree) == *final(tree),
            it.remaining() == old(tree).listing().subrange(front as int, back as int),
    {
        let idxs = tree.sorted_idxs();
        proof {
            tree.lemma_order();
        }
        TreeIterMut { tree, idxs, front, back }
    }

    /// The rest of the listing is what it was when one value changed.
    proof fn lemma_window_kept(before: SgTree<K, V, N>, after: SgTree<K, V, N>, i: usize, p: int, lo: int, hi: int)
        requires
            before.wf(),
            after.wf(),
            after.order() == before.order(),
            0 <= p < before.order().len(),
            before.order()[p] == i,
            forall|j: usize| j != i && before.has_node(j) ==> after.node_entry(j) == before.node_entry(j),
            0 <= lo <= hi <= before.order().len(),
            p < lo || hi <= p,
        ensures
            after.listing().subrange(lo, hi) == before.listing().subrange(lo, hi),
    {
        before.lemma_order();
        after.lemma_order();
        assert forall|j: int| lo <= j < hi implies after.listing()[j] == before.listing()[j] by {
            assert(before.has_node(before.order()[j]));
        }
        assert(after.listing().subrange(lo, hi) =~= before.listing().subrange(lo, hi));
    }

    /// The next entry from the front, with exclusive access to its value.
    pub fn next(&mut self) -> (r: Option<(&K, &mut V)>)
        requires
            old(self).wf(),
        ensures
            match r {
                Some(e) => {
                    &&& old(self).remaining().len() > 0
                    &&& (*e.0, *e.1) == old(self).remaining()[0]
                    &&& final(self).wf()
                    &&& final(self).remaining() == old(self).remaining().skip(1)
                    &&& final(self).tree@ == old(self).tree@.insert(*e.0, *final(e.1))
                    &&& *final(final(self).tree) == *final(old(self).tree)
                },
                None => old(self).remaining().len() == 0 && *final(self) == *old(self),
            },
    {
        if self.front < self.back {
            let i = self.idxs.get(self.front);
            proof {
                let before = *self.tree;
                let f = self.front as int;
                let b = self.back as int;
                before.lemma_order();
                assert(self.remaining()[0] == before.listing()[f]);
                assert(self.remaining().skip(1) =~= before.listing().subrange(f + 1, b));
                assert forall|after: SgTree<K, V, N>|
                    after.wf() && after.order() == before.order() && (forall|j: usize|
                        j != i && before.has_node(j) ==> after.node_entry(j) == before.node_entry(j)) implies (
                #[trigger] after.listing()).subrange(f + 1, b) == before.listing().subrange(f + 1, b) by {
                    Self::lemma_window_kept(before, after, i, f, f + 1, b);
                }
            }
            self.front = self.front + 1;
            Some(self.tree.entry_at_mut(i))
        } else {
            proof {
                self.tree.lemma_order();
            }
            None
        }
    }

    /// The next entry from the back, with exclusive access to its value.
    pub fn next_back(&mut self) -> (r: Option<(&K, &mut V)>)
        requires
            old(self).wf(),
        ensures
            match r {
                Some(e) => {
                    &&& old(self).remaining().len() > 0
                    &&& (*e.0, *e.1) == old(self).remaining().last()
                    &&& final(self).wf()
                    &&& final(self).remaining() == old(self).remaining().drop_last()
                    &&& final(self).tree@ == old(self).tree@.insert(*e.0, *final(e.1))
                    &&& *final(final(self).tree) == *final(old(self).tree)
                },
                None => old(self).remaining().len() == 0 && *final(self) == *old(self),
            },
    {
        if self.front < self.back {
            let i = self.idxs.get(self.back - 1);
            proof {
                let before = *self.tree;
                let f = self.front as int;
                let b = self.back as int;
                before.lemma_order();
                assert(self.remaining().last() == before.listing()[b - 1]);
                assert(self.remaining().drop_last() =~= before.listing().subrange(f, b - 1));
                assert forall|after: SgTree<K, V, N>|
                    after.wf() && after.order() == before.order() && (forall|j: usize|
                        j != i && before.has_node(j) ==> after.node_entry(j) == before.node_entry(j)) implies (
                #[trigger] after.listing()).subrange(f, b - 1) == before.listing().subrange(f, b - 1) by {
                    Self::lemma_window_kept(before, after, i, b - 1, f, b - 1);
                }
            }
            self.back = self.back - 1;
            Some(self.tree.entry_at_mut(i))
        } else {
            proof {
                self.tree.lemma_order();
            }
            None
        }
    }

    /// The number of entries still to come.
    pub fn len(&self) -> (n: usize)
        requires
            self.wf(),
        ensures
            n == self.remaining().len(),
    {
        proof {
            self.tree.lemma_order();
        }
        self.back - self.front
    }
}

} // verus!
