//! The tree engine: an arena of nodes, the root, and the counters that decide
//! when to rebuild.
use crate::arena::{Arena, Node, SgError, Slot};
use crate::balance::{
    larger, lemma_digits, lemma_log_alpha, lemma_log_alpha_monotone, level_limit, log_alpha,
    record_after_removal,
};
use crate::linking::{paced, placed, removed, Probe};
use crate::listing::{
    ascending, lemma_gap_absent, lemma_insert_at_gap, lemma_map_of_at, lemma_map_of_empty,
    lemma_map_of_len, lemma_remove_at, lemma_update_at, map_of,
};
use crate::idxbuf::IdxBuf;
use crate::order::total_order;
use crate::seqs::{lemma_insert_fresh, lemma_remove_distinct};
use crate::shape::{all_used, entries, entry_at, lemma_idxs_len, lemma_linked_used, linked, Shape};
use vstd::prelude::*;

verus! {

/// An ordered map of at most `N` entries, stored in an arena and balanced as
/// a scapegoat tree with the rebalance factor 2/3.
#[derive(Clone)]
pub struct SgTree<K: Ord, V, const N: usize> {
    pub(crate) arena: Arena<K, V, N>,
    pub(crate) root: Option<usize>,
    pub(crate) size: usize,
    pub(crate) max_size: usize,
    pub(crate) shape: Ghost<Shape>,
}

impl<K: Ord, V, const N: usize> View for SgTree<K, V, N> {
    type V = Map<K, V>;

    open(crate) spec fn view(&self) -> Map<K, V> {
        map_of(self.listing())
    }
}

impl<K: Ord, V, const N: usize> SgTree<K, V, N> {
    /// The entries in ascending key order.
    pub open(crate) spec fn listing(&self) -> Seq<(K, V)> {
        entries(self.arena@, self.shape@.idxs())
    }

    /// The number of nodes on the longest way from the root down; 0 for the
    /// empty tree. The height of a tree that is not empty is one less.
    pub open(crate) spec fn levels(&self) -> nat {
        self.shape@.levels()
    }

    /// The largest number of entries that the tree has held since it was last
    /// rebuilt as a whole.
    pub open(crate) spec fn max_size_since_rebuild(&self) -> nat {
        self.max_size as nat
    }

    /// Slot `i` holds a node of the tree.
    pub open(crate) spec fn has_node(&self, i: usize) -> bool {
        self.shape@.idxs().contains(i)
    }

    /// The entry of the node in slot `i`.
    pub open(crate) spec fn node_entry(&self, i: usize) -> (K, V) {
        entry_at(self.arena@, i)
    }

    /// The invariant: the keys are totally ordered, the nodes form a binary
    /// search tree without a repeated key in which each node records the
    /// size of its subtree, the slots that hold no node of it are the free
    /// list, and the tree is no higher than its largest size since the last
    /// whole rebuild allows.
    pub closed spec fn wf(&self) -> bool {
        &&& total_order::<K>()
        &&& N <= u32::MAX
        &&& self.arena.wf()
        &&& linked(self.arena@, self.shape@)
        &&& self.shape@.root() == self.root
        &&& self.shape@.idxs().no_duplicates()
        &&& forall|i: int|
            0 <= i < N && (#[trigger] self.arena@[i]) is Used ==> self.shape@.idxs().contains(i as usize)
        &&& ascending(self.listing())
        &&& self.arena.chain@.len() + self.shape@.size() == N
        &&& self.size == self.shape@.size()
        &&& self.size <= self.max_size <= N
        &&& self.shape@.levels() <= level_limit(self.max_size as nat)
    }

    /// The slots of the arena.
    pub open(crate) spec fn slots(&self) -> Seq<Slot<K, V>> {
        self.arena@
    }

    /// The shape of the tree: which slot is the root of which subtree.
    pub open(crate) spec fn shape(&self) -> Shape {
        self.shape@
    }

    /// A well-formed tree is a binary search tree in which no key occurs
    /// twice and each node records the size of its subtree; its nodes are
    /// the slots in use, each once.
    pub proof fn lemma_invariants(&self)
        requires
            self.wf(),
        ensures
            crate::shape::search_tree(self.slots(), self.shape()),
            crate::shape::sizes_add_up(self.slots(), self.shape()),
            self.shape().idxs().no_duplicates(),
            self.listing() == entries(self.slots(), self.shape().idxs()),
            ascending(self.listing()),
            forall|a: int, b: int|
                0 <= a < self.listing().len() && 0 <= b < self.listing().len() && a != b ==> (
                #[trigger] self.listing()[a]).0 != (#[trigger] self.listing()[b]).0,
            forall|i: int|
                0 <= i < N ==> ((#[trigger] self.slots()[i]) is Used <==> self.shape().idxs().contains(i as usize)),
            self.slots().len() == N,
    {
        crate::shape::lemma_search_tree(self.arena@, self.shape@);
        lemma_linked_used(self.arena@, self.shape@);
        assert forall|a: int, b: int|
            0 <= a < self.listing().len() && 0 <= b < self.listing().len() && a != b implies (
        #[trigger] self.listing()[a]).0 != (#[trigger] self.listing()[b]).0 by {
            if self.listing()[a].0 == self.listing()[b].0 {
                crate::listing::lemma_position_unique(self.listing(), a, b);
            }
        }
        assert forall|i: int| 0 <= i < N && self.shape().idxs().contains(i as usize) implies (
        #[trigger] self.slots()[i]) is Used by {
            let j = choose|j: int| 0 <= j < self.shape@.idxs().len() && self.shape@.idxs()[j] == i as usize;
            assert(self.arena@[self.shape@.idxs()[j] as int] is Used);
        }
    }

    /// The listing ascends, lists the map, and is as long as the map is
    /// large; the keys are totally ordered.
    pub proof fn lemma_listing(&self)
        requires
            self.wf(),
        ensures
            total_order::<K>(),
            ascending(self.listing()),
            map_of(self.listing()) == self@,
            self@.dom().finite(),
            self@.len() == self.listing().len(),
            self.listing().len() <= N,
            N <= u32::MAX,
    {
        lemma_map_of_len(self.listing());
        lemma_idxs_len(self.shape@);
    }

    /// The tree is no higher than the logarithm to the base 3/2 of its
    /// largest size since the last whole rebuild, rounded down, plus one.
    pub proof fn lemma_height(&self)
        requires
            self.wf(),
        ensures
            self.levels() <= log_alpha(self.max_size_since_rebuild()) + 2,
            self@.len() <= self.max_size_since_rebuild(),
    {
        self.lemma_listing();
        lemma_idxs_len(self.shape@);
    }

    /// A node of the tree holds an entry of the map.
    pub proof fn lemma_node(&self, i: usize)
        requires
            self.wf(),
            self.has_node(i),
        ensures
            self@.contains_key(self.node_entry(i).0),
            self@[self.node_entry(i).0] == self.node_entry(i).1,
    {
        let j = choose|j: int| 0 <= j < self.shape@.idxs().len() && self.shape@.idxs()[j] == i;
        lemma_map_of_at(self.listing(), j);
    }

    /// The empty tree.
    pub fn new() -> (t: Self)
        requires
            total_order::<K>(),
            N <= u32::MAX,
        ensures
            t.wf(),
            t@ == Map::<K, V>::empty(),
            t.listing() == Seq::<(K, V)>::empty(),
            t.max_size_since_rebuild() == 0,
    {
        let arena = Arena::new();
        let t = SgTree { arena, root: None, size: 0, max_size: 0, shape: Ghost(Shape::Leaf) };
        proof {
            lemma_map_of_empty::<K, V>();
            assert(t.listing() =~= Seq::<(K, V)>::empty());
            assert forall|i: int| 0 <= i < N implies !(#[trigger] t.arena@[i] is Used) by {
                assert(!t.arena.used(i as usize));
            }
        }
        t
    }

    /// The number of entries.
    pub fn len(&self) -> (n: usize)
        requires
            self.wf(),
        ensures
            n == self@.len(),
            n == self.listing().len(),
            n <= N,
    {
        proof {
            self.lemma_listing();
            lemma_idxs_len(self.shape@);
        }
        self.size
    }

    /// Whether the tree holds no entry.
    pub fn is_empty(&self) -> (b: bool)
        requires
            self.wf(),
        ensures
            b == (self@.len() == 0),
            b == (self@ == Map::<K, V>::empty()),
    {
        proof {
            self.lemma_listing();
            lemma_idxs_len(self.shape@);
            if self.listing().len() == 0 {
                assert(self.listing() =~= Seq::empty());
                lemma_map_of_empty::<K, V>();
            }
        }
        self.size == 0
    }

    /// The number of nodes on the longest way from the root down; 0 for the
    /// empty tree.
    pub fn height(&self) -> (h: usize)
        requires
            self.wf(),
        ensures
            h == self.levels(),
            h <= log_alpha(self.max_size_since_rebuild()) + 2,
    {
        proof {
            lemma_idxs_len(self.shape@);
        }
        self.arena.measure(self.root, Ghost(self.shape@))
    }

    /// The largest number of entries that the tree has held since it was last
    /// rebuilt as a whole.
    pub fn max_size(&self) -> (m: usize)
        requires
            self.wf(),
        ensures
            m == self.max_size_since_rebuild(),
            self@.len() <= m <= N,
    {
        proof {
            self.lemma_listing();
            lemma_idxs_len(self.shape@);
        }
        self.max_size
    }

    /// The number of slots, `N`.
    pub fn capacity(&self) -> (n: usize)
        ensures
            n == N,
    {
        N
    }

    /// The slot of the node that holds `key`, if one does.
    pub fn find(&self, key: &K) -> (r: Option<usize>)
        requires
            self.wf(),
        ensures
            match r {
                Some(i) => self.has_node(i) && self.node_entry(i).0 == *key && self@.contains_key(*key)
                    && self@[*key] == self.node_entry(i).1,
                None => !self@.contains_key(*key),
            },
    {
        let (r, Ghost(p)) = self.arena.find(self.root, key, Ghost(self.shape@));
        proof {
            match r {
                Some(i) => {
                    lemma_map_of_at(self.listing(), p);
                },
                None => {
                    lemma_gap_absent(self.listing(), p, *key);
                },
            }
        }
        r
    }

    /// The key in slot `i`.
    pub fn key_at(&self, i: usize) -> (k: &K)
        requires
            self.wf(),
            self.has_node(i),
        ensures
            *k == self.node_entry(i).0,
    {
        proof {
            lemma_linked_used(self.arena@, self.shape@);
        }
        &self.arena.get(i).key
    }

    /// The value in slot `i`.
    pub fn val_at(&self, i: usize) -> (v: &V)
        requires
            self.wf(),
            self.has_node(i),
        ensures
            *v == self.node_entry(i).1,
    {
        proof {
            lemma_linked_used(self.arena@, self.shape@);
        }
        &self.arena.get(i).val
    }

    /// The entry in slot `i`.
    pub fn entry_at(&self, i: usize) -> (e: (&K, &V))
        requires
            self.wf(),
            self.has_node(i),
        ensures
            (*e.0, *e.1) == self.node_entry(i),
    {
        proof {
            lemma_linked_used(self.arena@, self.shape@);
        }
        let n = self.arena.get(i);
        (&n.key, &n.val)
    }

    /// The value of `key`, if the tree holds the key.
    pub fn get(&self, key: &K) -> (r: Option<&V>)
        requires
            self.wf(),
        ensures
            r == (if self@.contains_key(*key) {
                Some(&self@[*key])
            } else {
                None
            }),
    {
        match self.find(key) {
            Some(i) => Some(self.val_at(i)),
            None => None,
        }
    }

    /// The entry of `key`, if the tree holds the key.
    pub fn get_key_value(&self, key: &K) -> (r: Option<(&K, &V)>)
        requires
            self.wf(),
        ensures
            r == (if self@.contains_key(*key) {
                Some((key, &self@[*key]))
            } else {
                None
            }),
    {
        match self.find(key) {
            Some(i) => Some(self.entry_at(i)),
            None => None,
        }
    }

    /// Whether the tree holds `key`.
    pub fn contains_key(&self, key: &K) -> (b: bool)
        requires
            self.wf(),
        ensures
            b == self@.contains_key(*key),
    {
        self.find(key).is_some()
    }

    /// Gives `key` the value `val` and returns the value that the key had,
    /// with the slot of the key's node. Fails, changing nothing, where the
    /// key is absent and every slot is taken. A node that comes to lie deeper
    /// than the size of the tree allows has its lowest ancestor rebuilt whose
    /// child on the way down weighs more than 2/3 of it.
    pub fn internal_balancing_insert(&mut self, key: K, val: V) -> (r: Result<(Option<V>, usize), SgError>)
        requires
            old(self).wf(),
        ensures
            final(self).wf(),
            r is Err <==> !old(self)@.contains_key(key) && old(self)@.len() == N,
            match r {
                Ok((before, idx)) => {
                    &&& final(self)@ == old(self)@.insert(key, val)
                    &&& before == (if old(self)@.contains_key(key) {
                        Some(old(self)@[key])
                    } else {
                        None
                    })
                    &&& final(self).has_node(idx)
                    &&& final(self).node_entry(idx) == (key, val)
                    &&& final(self).max_size_since_rebuild() == larger(
                        old(self).max_size_since_rebuild(),
                        final(self)@.len(),
                    )
                },
                Err(e) => *final(self) == *old(self),
            },
    {
        let ghost sh = self.shape@;
        let ghost before = self.listing();
        let total = self.size;
        proof {
            old(self).lemma_listing();
            lemma_idxs_len(sh);
        }
        let (res, Ghost(g)) = self.arena.insert_rec(self.root, key, val, 0, total, Ghost(sh));
        match res {
            Err(e) => {
                proof {
                    lemma_gap_absent(before, g.1, key);
                }
                Err(e)
            },
            Ok(step) => {
                proof {
                    reveal(placed);
                }
                self.root = Some(step.root);
                self.shape = Ghost(g.0);
                if step.old.is_none() {
                    self.size = self.size + 1;
                    if self.size > self.max_size {
                        self.max_size = self.size;
                    }
                }
                proof {
                    reveal(placed);
                    let s0 = old(self).arena@;
                    let s1 = self.arena@;
                    lemma_linked_used(s0, sh);
                    lemma_idxs_len(g.0);
                    if step.old is Some {
                        {
                            lemma_update_at(before, g.1, val);
                            lemma_map_of_at(before, g.1);
                            assert(self.shape@.idxs().contains(step.node));
                            assert(self.listing()[g.1] == (key, val));
                            assert forall|i: int| 0 <= i < N && (#[trigger] s1[i]) is Used implies sh.idxs().contains(
                                i as usize,
                            ) by {
                                if !sh.idxs().contains(i as usize) {
                                    assert(s1[i] == s0[i]);
                                }
                            }
                            assert(old(self)@.insert(key, val).dom() =~= old(self)@.dom());
                            lemma_map_of_len(self.listing());
                        }
                    } else {
                        {
                            lemma_insert_at_gap(before, g.1, key, val);
                            lemma_gap_absent(before, g.1, key);
                            assert(!sh.idxs().contains(step.node)) by {
                                if sh.idxs().contains(step.node) {
                                    let j = choose|j: int| 0 <= j < sh.idxs().len() && sh.idxs()[j] == step.node;
                                    assert(s0[sh.idxs()[j] as int] is Used);
                                }
                            }
                            lemma_insert_fresh(sh.idxs(), g.1, step.node);
                            assert(self.shape@.idxs()[g.1] == step.node);
                            assert(self.listing()[g.1] == (key, val));
                            assert forall|i: int| 0 <= i < N && (#[trigger] s1[i]) is Used implies g.0.idxs().contains(
                                i as usize,
                            ) by {
                                if i != step.node && !sh.idxs().contains(i as usize) {
                                    assert(s1[i] == s0[i]);
                                }
                            }
                            lemma_map_of_len(self.listing());
                            // a new node cannot stay too deep: some ancestor is a scapegoat
                            assert(g.0.size() == total + 1);
                            assert(paced(sh, 0, total as nat, g.0, g.2, step.pending));
                            if step.pending {
                                lemma_log_alpha((total + 1) as nat);
                                assert(crate::balance::fits(g.2, (total + 1) as nat));
                                assert(false);
                            }
                            assert(g.0.levels() <= larger(sh.levels(), log_alpha((total + 1) as nat) + 2));
                            assert(self.size == total + 1);
                            lemma_log_alpha_monotone((total + 1) as nat, self.max_size as nat);
                            lemma_log_alpha_monotone(old(self).max_size as nat, self.max_size as nat);
                        }
                    }
                }
                Ok((step.old, step.node))
            },
        }
    }

    /// Gives `key` the value `val` and returns the value that the key had.
    /// Fails with `StackCapacityExceeded`, changing nothing, where the key is
    /// absent and the tree holds `N` entries.
    pub fn try_insert(&mut self, key: K, val: V) -> (r: Result<Option<V>, SgError>)
        requires
            old(self).wf(),
        ensures
            final(self).wf(),
            r is Err <==> !old(self)@.contains_key(key) && old(self)@.len() == N,
            match r {
                Ok(before) => {
                    &&& final(self)@ == old(self)@.insert(key, val)
                    &&& before == (if old(self)@.contains_key(key) {
                        Some(old(self)@[key])
                    } else {
                        None
                    })
                    &&& final(self).levels() <= log_alpha(final(self).max_size_since_rebuild()) + 2
                    &&& final(self).max_size_since_rebuild() == larger(
                        old(self).max_size_since_rebuild(),
                        final(self)@.len(),
                    )
                },
                Err(e) => *final(self) == *old(self),
            },
    {
        match self.internal_balancing_insert(key, val) {
            Ok((before, _)) => {
                proof {
                    self.lemma_height();
                }
                Ok(before)
            },
            Err(e) => Err(e),
        }
    }

    /// Gives `key` the value `val` and returns the value that the key had.
    /// The tree must hold the key or have a free slot.
    pub fn insert(&mut self, key: K, val: V) -> (before: Option<V>)
        requires
            old(self).wf(),
            old(self)@.contains_key(key) || old(self)@.len() < N,
        ensures
            final(self).wf(),
            final(self)@ == old(self)@.insert(key, val),
            before == (if old(self)@.contains_key(key) {
                Some(old(self)@[key])
            } else {
                None
            }),
            final(self).levels() <= log_alpha(final(self).max_size_since_rebuild()) + 2,
            final(self).max_size_since_rebuild() == larger(old(self).max_size_since_rebuild(), final(self)@.len()),
    {
        match self.try_insert(key, val) {
            Ok(before) => before,
            Err(_) => vstd::pervasive::unreached(),
        }
    }

    /// Rebuilds the whole tree where it holds at most 2/3 of the entries that
    /// it held at most since the last whole rebuild, and then counts anew.
    fn rebuild_if_sparse(&mut self)
        requires
            old(self).wf(),
        ensures
            final(self).wf(),
            final(self)@ == old(self)@,
            final(self).listing() == old(self).listing(),
            final(self).max_size_since_rebuild() == record_after_removal(
                old(self).max_size_since_rebuild(),
                old(self).size as nat,
            ),
    {
        if 3 * (self.size as u64) <= 2 * (self.max_size as u64) {
            let ghost sh = self.shape@;
            let ghost s0 = self.arena@;
            proof {
                lemma_digits(self.size as nat);
                lemma_idxs_len(sh);
            }
            let (root, Ghost(sh1)) = self.arena.rebuild(self.root, Ghost(sh));
            self.root = root;
            self.shape = Ghost(sh1);
            self.max_size = self.size;
            proof {
                let s1 = self.arena@;
                lemma_idxs_len(sh1);
                assert forall|i: int| 0 <= i < N && (#[trigger] s1[i]) is Used implies sh1.idxs().contains(
                    i as usize,
                ) by {
                    if !sh.idxs().contains(i as usize) {
                        assert(s1[i] == s0[i]);
                    }
                }
            }
        }
    }

    /// Settles the counters after the entry at place `g.1` was removed.
    fn settle_removal(&mut self, cut_root: Option<usize>, Ghost(taken): Ghost<(K, V)>, Ghost(s0): Ghost<Seq<Slot<K, V>>>, Ghost(g): Ghost<(Shape, int, int)>)
        requires
            old(self).wf_before_settling(cut_root, taken, s0, g),
        ensures
            final(self).wf(),
            final(self)@ == map_of(entries(s0, old(self).shape@.idxs())).remove(taken.0),
            final(self).listing() == entries(s0, old(self).shape@.idxs()).remove(g.1),
            final(self).max_size_since_rebuild() == record_after_removal(
                old(self).max_size_since_rebuild(),
                (old(self).size - 1) as nat,
            ),
    {
        let ghost sh = self.shape@;
        let ghost before = entries(s0, sh.idxs());
        proof {
            reveal(removed);
            lemma_idxs_len(sh);
            lemma_idxs_len(g.0);
        }
        self.root = cut_root;
        self.shape = Ghost(g.0);
        self.size = self.size - 1;
        proof {
            let s1 = self.arena@;
            lemma_remove_at(before, g.1);
            lemma_remove_distinct(sh.idxs(), g.2);
            lemma_linked_used(s0, sh);
            assert forall|i: int| 0 <= i < N && (#[trigger] s1[i]) is Used implies g.0.idxs().contains(
                i as usize,
            ) by {
                if !sh.idxs().contains(i as usize) {
                    assert(s1[i] == s0[i]);
                }
            }
        }
        self.rebuild_if_sparse();
    }

    /// What holds between the removal of an entry below the root and the
    /// settling of the counters.
    pub(crate) open spec fn wf_before_settling(
        &self,
        cut_root: Option<usize>,
        taken: (K, V),
        s0: Seq<Slot<K, V>>,
        g: (Shape, int, int),
    ) -> bool {
        &&& total_order::<K>()
        &&& N <= u32::MAX
        &&& self.arena.wf()
        &&& s0.len() == N
        &&& self.shape@.root() == self.root
        &&& linked(s0, self.shape@)
        &&& self.shape@.idxs().no_duplicates()
        &&& forall|i: int| 0 <= i < N && (#[trigger] s0[i]) is Used ==> self.shape@.idxs().contains(i as usize)
        &&& ascending(entries(s0, self.shape@.idxs()))
        &&& self.arena.chain@.len() + self.shape@.size() == N + 1
        &&& self.size == self.shape@.size()
        &&& self.size <= self.max_size <= N
        &&& self.shape@.levels() <= level_limit(self.max_size as nat)
        &&& exists|chain0: Seq<usize>|
            removed(
                s0,
                chain0,
                self.shape@,
                self.arena@,
                self.arena.chain@,
                cut_root,
                taken,
                g.0,
                g.1,
                g.2,
            )
    }

    /// Removes `key` and returns its entry, if the tree holds the key. Where
    /// the tree then holds at most 2/3 of its largest size since the last
    /// whole rebuild, the whole tree is rebuilt.
    pub fn remove_entry(&mut self, key: &K) -> (r: Option<(K, V)>)
        requires
            old(self).wf(),
        ensures
            final(self).wf(),
            final(self)@ == old(self)@.remove(*key),
            r == (if old(self)@.contains_key(*key) {
                Some((*key, old(self)@[*key]))
            } else {
                None
            }),
            final(self).max_size_since_rebuild() == (if old(self)@.contains_key(*key) {
                record_after_removal(old(self).max_size_since_rebuild(), final(self)@.len())
            } else {
                old(self).max_size_since_rebuild()
            }),
    {
        proof {
            old(self).lemma_listing();
            lemma_idxs_len(self.shape@);
        }
        let ghost sh = self.shape@;
        let ghost s0 = self.arena@;
        let ghost chain0 = self.arena.chain@;
        let ghost before = self.listing();
        let pr = Probe::Key(key);
        let (cut, Ghost(g)) = self.arena.remove_rec(self.root, &pr, Ghost(sh));
        match cut.taken {
            None => {
                proof {
                    lemma_gap_absent(before, g.1, *key);
                    assert(old(self)@.remove(*key) =~= old(self)@);
                }
                None
            },
            Some(e) => {
                proof {
                    reveal(removed);
                    lemma_map_of_at(before, g.1);
                    assert(removed(s0, chain0, sh, self.arena@, self.arena.chain@, cut.root, e, g.0, g.1, g.2));
                }
                self.settle_removal(cut.root, Ghost(e), Ghost(s0), Ghost(g));
                proof {
                    self.lemma_listing();
                    lemma_idxs_len(self.shape@);
                }
                Some(e)
            },
        }
    }

    /// Removes `key` and returns its value, if the tree holds the key.
    pub fn remove(&mut self, key: &K) -> (r: Option<V>)
        requires
            old(self).wf(),
        ensures
            final(self).wf(),
            final(self)@ == old(self)@.remove(*key),
            r == (if old(self)@.contains_key(*key) {
                Some(old(self)@[*key])
            } else {
                None
            }),
            final(self).max_size_since_rebuild() == (if old(self)@.contains_key(*key) {
                record_after_removal(old(self).max_size_since_rebuild(), final(self)@.len())
            } else {
                old(self).max_size_since_rebuild()
            }),
    {
        match self.remove_entry(key) {
            Some(e) => Some(e.1),
            None => None,
        }
    }

    /// Removes the entry of the node in slot `idx` and returns it.
    pub fn priv_remove_by_idx(&mut self, idx: usize) -> (r: (K, V))
        requires
            old(self).wf(),
            old(self).has_node(idx),
        ensures
            final(self).wf(),
            r == old(self).node_entry(idx),
            old(self)@.contains_key(r.0),
            old(self)@[r.0] == r.1,
            final(self)@ == old(self)@.remove(r.0),
            final(self).max_size_since_rebuild() == record_after_removal(
                old(self).max_size_since_rebuild(),
                final(self)@.len(),
            ),
            exists|p: int|
                0 <= p < old(self).listing().len() && old(self).listing()[p] == r && final(self).listing() == old(
                    self,
                ).listing().remove(p),
    {
        let ghost sh = self.shape@;
        let ghost s0 = self.arena@;
        let ghost chain0 = self.arena.chain@;
        let ghost before = self.listing();
        proof {
            lemma_linked_used(s0, sh);
            old(self).lemma_node(idx);
        }
        let pr = Probe::Slot(idx);
        let (cut, Ghost(g)) = self.arena.remove_rec(self.root, &pr, Ghost(sh));
        match cut.taken {
            None => {
                proof {
                    lemma_gap_absent(before, g.1, entry_at(s0, idx).0);
                    assert(false);
                }
                vstd::pervasive::unreached()
            },
            Some(e) => {
                proof {
                    reveal(removed);
                    lemma_map_of_at(before, g.1);
                    assert(removed(s0, chain0, sh, self.arena@, self.arena.chain@, cut.root, e, g.0, g.1, g.2));
                }
                self.settle_removal(cut.root, Ghost(e), Ghost(s0), Ghost(g));
                proof {
                    self.lemma_listing();
                    lemma_idxs_len(self.shape@);
                    lemma_idxs_len(sh);
                }
                e
            },
        }
    }

    /// The slot of the least key's node.
    pub fn first_idx(&self) -> (r: Option<usize>)
        requires
            self.wf(),
        ensures
            match r {
                Some(i) => self.listing().len() > 0 && self.has_node(i) && self.node_entry(i) == self.listing()[0],
                None => self.listing().len() == 0,
            },
    {
        match self.root {
            None => {
                proof {
                    assert(self.shape@.idxs() =~= Seq::empty());
                }
                None
            },
            Some(root) => {
                let i = self.arena.leftmost(root, Ghost(self.shape@));
                proof {
                    assert(self.shape@.idxs()[0] == i);
                }
                Some(i)
            },
        }
    }

    /// The slot of the greatest key's node.
    pub fn last_idx(&self) -> (r: Option<usize>)
        requires
            self.wf(),
        ensures
            match r {
                Some(i) => self.listing().len() > 0 && self.has_node(i) && self.node_entry(i)
                    == self.listing().last(),
                None => self.listing().len() == 0,
            },
    {
        match self.root {
            None => {
                proof {
                    assert(self.shape@.idxs() =~= Seq::empty());
                }
                None
            },
            Some(root) => {
                let i = self.arena.rightmost(root, Ghost(self.shape@));
                proof {
                    assert(self.shape@.idxs()[self.shape@.idxs().len() - 1] == i);
                }
                Some(i)
            },
        }
    }

    /// The entry with the least key.
    pub fn first_key_value(&self) -> (r: Option<(&K, &V)>)
        requires
            self.wf(),
        ensures
            match r {
                Some(e) => self.listing().len() > 0 && (*e.0, *e.1) == self.listing()[0],
                None => self.listing().len() == 0,
            },
    {
        match self.first_idx() {
            Some(i) => Some(self.entry_at(i)),
            None => None,
        }
    }

    /// The entry with the greatest key.
    pub fn last_key_value(&self) -> (r: Option<(&K, &V)>)
        requires
            self.wf(),
        ensures
            match r {
                Some(e) => self.listing().len() > 0 && (*e.0, *e.1) == self.listing().last(),
                None => self.listing().len() == 0,
            },
    {
        match self.last_idx() {
            Some(i) => Some(self.entry_at(i)),
            None => None,
        }
    }

    /// The least key.
    pub fn first_key(&self) -> (r: Option<&K>)
        requires
            self.wf(),
        ensures
            match r {
                Some(k) => self.listing().len() > 0 && *k == self.listing()[0].0,
                None => self.listing().len() == 0,
            },
    {
        match self.first_idx() {
            Some(i) => Some(self.key_at(i)),
            None => None,
        }
    }

    /// The greatest key.
    pub fn last_key(&self) -> (r: Option<&K>)
        requires
            self.wf(),
        ensures
            match r {
                Some(k) => self.listing().len() > 0 && *k == self.listing().last().0,
                None => self.listing().len() == 0,
            },
    {
        match self.last_idx() {
            Some(i) => Some(self.key_at(i)),
            None => None,
        }
    }

    /// Removes and returns the entry with the least key.
    pub fn pop_first(&mut self) -> (r: Option<(K, V)>)
        requires
            old(self).wf(),
        ensures
            final(self).wf(),
            match r {
                Some(e) => {
                    &&& old(self).listing().len() > 0
                    &&& e == old(self).listing()[0]
                    &&& final(self).listing() == old(self).listing().remove(0)
                    &&& final(self)@ == old(self)@.remove(e.0)
                    &&& final(self).max_size_since_rebuild() == record_after_removal(
                        old(self).max_size_since_rebuild(),
                        final(self)@.len(),
                    )
                },
                None => old(self).listing().len() == 0 && *final(self) == *old(self),
            },
    {
        match self.first_idx() {
            None => None,
            Some(i) => {
                let e = self.priv_remove_by_idx(i);
                proof {
                    let p = choose|p: int|
                        0 <= p < old(self).listing().len() && old(self).listing()[p] == e && self.listing() == old(
                            self,
                        ).listing().remove(p);
                    old(self).lemma_listing();
                    crate::listing::lemma_position_unique(old(self).listing(), p, 0);
                }
                Some(e)
            },
        }
    }

    /// Removes and returns the entry with the greatest key.
    pub fn pop_last(&mut self) -> (r: Option<(K, V)>)
        requires
            old(self).wf(),
        ensures
            final(self).wf(),
            match r {
                Some(e) => {
                    &&& old(self).listing().len() > 0
                    &&& e == old(self).listing().last()
                    &&& final(self).listing() == old(self).listing().drop_last()
                    &&& final(self)@ == old(self)@.remove(e.0)
                    &&& final(self).max_size_since_rebuild() == record_after_removal(
                        old(self).max_size_since_rebuild(),
                        final(self)@.len(),
                    )
                },
                None => old(self).listing().len() == 0 && *final(self) == *old(self),
            },
    {
        match self.last_idx() {
            None => None,
            Some(i) => {
                let e = self.priv_remove_by_idx(i);
                proof {
                    let p = choose|p: int|
                        0 <= p < old(self).listing().len() && old(self).listing()[p] == e && self.listing() == old(
                            self,
                        ).listing().remove(p);
                    old(self).lemma_listing();
                    crate::listing::lemma_position_unique(old(self).listing(), p, old(self).listing().len() - 1);
                    assert(old(self).listing().remove(p) =~= old(self).listing().drop_last());
                }
                Some(e)
            },
        }
    }

    /// Removes every entry: marks all slots free and resets the root and the
    /// counters.
    pub fn clear(&mut self)
        requires
            old(self).wf(),
        ensures
            final(self).wf(),
            final(self)@ == Map::<K, V>::empty(),
            final(self).listing() == Seq::<(K, V)>::empty(),
            final(self).max_size_since_rebuild() == 0,
    {
        self.arena.reset();
        self.root = None;
        self.size = 0;
        self.max_size = 0;
        self.shape = Ghost(Shape::Leaf);
        proof {
            lemma_map_of_empty::<K, V>();
            assert(self.listing() =~= Seq::<(K, V)>::empty());
            assert forall|i: int| 0 <= i < N implies !(#[trigger] self.arena@[i] is Used) by {
                assert(!self.arena.used(i as usize));
            }
        }
    }

    /// `after` is `before` with another value in slot `i`.
    pub(crate) open spec fn only_value_changed(before: Self, after: Self, i: usize) -> bool {
        &&& after.root == before.root
        &&& after.size == before.size
        &&& after.max_size == before.max_size
        &&& after.shape == before.shape
        &&& after.arena.head == before.arena.head
        &&& after.arena.chain == before.arena.chain
        &&& after.arena@ == before.arena@.update(
            i as int,
            Slot::Used(
                Node {
                    key: before.arena.node(i).key,
                    val: after.arena.node(i).val,
                    left: before.arena.node(i).left,
                    right: before.arena.node(i).right,
                    size: before.arena.node(i).size,
                },
            ),
        )
    }

    /// What is seen of a tree whose value in slot `i` changed.
    pub(crate) open spec fn value_change_seen(before: Self, after: Self, i: usize) -> bool {
        let v = after.arena.node(i).val;
        &&& after@ == before@.insert(before.node_entry(i).0, v)
        &&& after.node_entry(i) == (before.node_entry(i).0, v)
        &&& forall|j: usize| after.has_node(j) == before.has_node(j)
        &&& forall|j: usize| j != i && before.has_node(j) ==> after.node_entry(j) == before.node_entry(j)
        &&& after.max_size_since_rebuild() == before.max_size_since_rebuild()
        &&& after.order() == before.order()
    }

    /// What a tree is after the value in slot `i` became `v`.
    proof fn lemma_value_changed(before: Self, after: Self, i: usize, v: V)
        requires
            before.wf(),
            before.has_node(i),
            after.root == before.root,
            after.size == before.size,
            after.max_size == before.max_size,
            after.shape == before.shape,
            after.arena.head == before.arena.head,
            after.arena.chain == before.arena.chain,
            after.arena@ == before.arena@.update(
                i as int,
                Slot::Used(
                    Node {
                        key: before.arena.node(i).key,
                        val: v,
                        left: before.arena.node(i).left,
                        right: before.arena.node(i).right,
                        size: before.arena.node(i).size,
                    },
                ),
            ),
        ensures
            after.wf(),
            after@ == before@.insert(before.node_entry(i).0, v),
            after.node_entry(i) == (before.node_entry(i).0, v),
            forall|j: usize| after.has_node(j) == before.has_node(j),
            forall|j: usize| j != i && before.has_node(j) ==> after.node_entry(j) == before.node_entry(j),
            after.max_size_since_rebuild() == before.max_size_since_rebuild(),
            after.order() == before.order(),
            exists|p: int|
                0 <= p < before.listing().len() && before.listing()[p] == before.node_entry(i)
                    && after.listing() == before.listing().update(p, (before.node_entry(i).0, v)),
    {
        let s0 = before.arena@;
        let s1 = after.arena@;
        let sh = before.shape@;
        let p = choose|p: int| 0 <= p < sh.idxs().len() && sh.idxs()[p] == i;
        lemma_linked_used(s0, sh);
        crate::linking::lemma_used_update_keeps_free_list(s0, i, s1, before.arena.head, before.arena.chain@);
        Self::lemma_value_linked(s0, s1, sh, i);
        Self::lemma_value_listed(s0, s1, sh.idxs(), i, p, v);
        lemma_update_at(before.listing(), p, v);
        assert(after.listing() == before.listing().update(p, (before.node_entry(i).0, v)));
        assert(after@ == before@.insert(before.node_entry(i).0, v));
        assert forall|x: int| 0 <= x < N && (#[trigger] s1[x]) is Used implies sh.idxs().contains(x as usize) by {
            if x != i {
                assert(s1[x] == s0[x]);
            }
        }
    }

    /// Changing the value in one slot changes one place of the listing.
    proof fn lemma_value_listed(s0: Seq<Slot<K, V>>, s1: Seq<Slot<K, V>>, ix: Seq<usize>, i: usize, p: int, v: V)
        requires
            ix.no_duplicates(),
            0 <= p < ix.len(),
            ix[p] == i,
            s1.len() == s0.len(),
            i < s0.len(),
            s1[i as int] is Used,
            s1[i as int]->Used_0.key == s0[i as int]->Used_0.key,
            s1[i as int]->Used_0.val == v,
            forall|x: int| 0 <= x < s0.len() && x != i ==> s1[x] == s0[x],
            forall|j: int| 0 <= j < ix.len() ==> (#[trigger] ix[j]) < s0.len(),
        ensures
            entries(s1, ix) == entries(s0, ix).update(p, (entry_at(s0, i).0, v)),
    {
        assert(entries(s1, ix) =~= entries(s0, ix).update(p, (entry_at(s0, i).0, v))) by {
            assert forall|j: int| 0 <= j < ix.len() implies #[trigger] entries(s1, ix)[j] == entries(s0, ix).update(
                p,
                (entry_at(s0, i).0, v),
            )[j] by {
                if j != p {
                    assert(ix[j] != i);
                }
            }
        }
    }

    /// Changing a value leaves the links as they are.
    proof fn lemma_value_linked(s0: Seq<Slot<K, V>>, s1: Seq<Slot<K, V>>, sh: Shape, i: usize)
        requires
            linked(s0, sh),
            s1.len() == s0.len(),
            i < s0.len(),
            s0[i as int] is Used,
            s1[i as int] is Used,
            s1[i as int]->Used_0.left == s0[i as int]->Used_0.left,
            s1[i as int]->Used_0.right == s0[i as int]->Used_0.right,
            s1[i as int]->Used_0.size == s0[i as int]->Used_0.size,
            forall|x: int| 0 <= x < s0.len() && x != i ==> s1[x] == s0[x],
        ensures
            linked(s1, sh),
        decreases sh,
    {
        match sh {
            Shape::Leaf => {},
            Shape::Bin { left, idx, right } => {
                Self::lemma_value_linked(s0, s1, *left, i);
                Self::lemma_value_linked(s0, s1, *right, i);
            },
        }
    }

    /// Exclusive access to the value in slot `i`.
    pub fn val_at_mut(&mut self, i: usize) -> (v: &mut V)
        requires
            old(self).wf(),
            old(self).has_node(i),
        ensures
            *v == old(self).node_entry(i).1,
            final(self).wf(),
            final(self)@ == old(self)@.insert(old(self).node_entry(i).0, *final(v)),
            final(self).node_entry(i) == (old(self).node_entry(i).0, *final(v)),
            forall|j: usize| final(self).has_node(j) == old(self).has_node(j),
            forall|j: usize| j != i && old(self).has_node(j) ==> final(self).node_entry(j) == old(self).node_entry(j),
            final(self).order() == old(self).order(),
            final(self).max_size_since_rebuild() == old(self).max_size_since_rebuild(),
    {
        proof {
            lemma_linked_used(self.arena@, self.shape@);
        }
        proof {
            let before = *self;
            assert forall|after: Self| Self::only_value_changed(before, after, i) implies #[trigger] after.wf()
                && Self::value_change_seen(before, after, i) by {
                Self::lemma_value_changed(before, after, i, after.arena.node(i).val);
            }
            assert forall|after: Self| Self::only_value_changed(before, after, i) implies #[trigger] after@
                == before@.insert(before.node_entry(i).0, after.arena.node(i).val) by {
                Self::lemma_value_changed(before, after, i, after.arena.node(i).val);
            }
        }
        let n = self.arena.get_mut(i);
        &mut n.val
    }

    /// Exclusive access to the value of `key`, if the tree holds the key.
    pub fn get_mut(&mut self, key: &K) -> (r: Option<&mut V>)
        requires
            old(self).wf(),
        ensures
            match r {
                Some(v) => {
                    &&& old(self)@.contains_key(*key)
                    &&& *v == old(self)@[*key]
                    &&& final(self).wf()
                    &&& final(self)@ == old(self)@.insert(*key, *final(v))
                },
                None => !old(self)@.contains_key(*key) && *final(self) == *old(self),
            },
    {
        match self.find(key) {
            Some(i) => Some(self.val_at_mut(i)),
            None => None,
        }
    }

    /// The slots of the nodes in ascending key order.
    pub open(crate) spec fn order(&self) -> Seq<usize> {
        self.shape@.idxs()
    }

    /// The slots in order hold the entries of the listing, each slot once.
    pub proof fn lemma_order(&self)
        requires
            self.wf(),
        ensures
            self.order().len() == self.listing().len(),
            self.order().no_duplicates(),
            forall|j: int|
                0 <= j < self.order().len() ==> self.has_node(#[trigger] self.order()[j]) && self.node_entry(
                    self.order()[j],
                ) == self.listing()[j],
            forall|i: usize| self.has_node(i) <==> self.order().contains(i),
    {
    }

    /// The arena is sound and each node of the tree has its slot in it.
    pub(crate) proof fn lemma_arena(&self)
        requires
            self.wf(),
        ensures
            self.arena.wf(),
            forall|j: int|
                0 <= j < self.order().len() ==> self.arena.used(#[trigger] self.order()[j]) && entry_at(
                    self.arena@,
                    self.order()[j],
                ) == self.listing()[j],
    {
        lemma_linked_used(self.arena@, self.shape@);
    }

    /// The arena holds the nodes of the tree and nothing else.
    pub(crate) proof fn lemma_loose(&self)
        requires
            self.wf(),
        ensures
            loose(self.arena, self.order()),
            self.arena.chain@.len() + self.order().len() == N,
            forall|i: int| 0 <= i < N && (#[trigger] self.arena@[i]) is Used ==> self.order().contains(i as usize),
    {
        lemma_linked_used(self.arena@, self.shape@);
        lemma_idxs_len(self.shape@);
    }

    /// The slots of the nodes in ascending key order, from an in-order walk.
    pub(crate) fn sorted_idxs(&self) -> (buf: IdxBuf<N>)
        requires
            self.wf(),
        ensures
            buf.items() == self.order(),
    {
        let mut buf = IdxBuf::<N>::new();
        proof {
            lemma_idxs_len(self.shape@);
        }
        self.arena.flatten(self.root, &mut buf, Ghost(self.shape@));
        proof {
            assert(buf.items() =~= self.shape@.idxs());
        }
        buf
    }

    /// The key in slot `i`, with exclusive access to the value.
    pub fn entry_at_mut(&mut self, i: usize) -> (e: (&K, &mut V))
        requires
            old(self).wf(),
            old(self).has_node(i),
        ensures
            (*e.0, *e.1) == old(self).node_entry(i),
            final(self).wf(),
            final(self)@ == old(self)@.insert(old(self).node_entry(i).0, *final(e.1)),
            final(self).node_entry(i) == (old(self).node_entry(i).0, *final(e.1)),
            forall|j: usize| final(self).has_node(j) == old(self).has_node(j),
            forall|j: usize|
                j != i && old(self).has_node(j) ==> final(self).node_entry(j) == old(self).node_entry(j),
            final(self).order() == old(self).order(),
            final(self).max_size_since_rebuild() == old(self).max_size_since_rebuild(),
    {
        proof {
            lemma_linked_used(self.arena@, self.shape@);
            let before = *self;
            assert forall|after: Self| Self::only_value_changed(before, after, i) implies #[trigger] after.wf()
                && Self::value_change_seen(before, after, i) by {
                Self::lemma_value_changed(before, after, i, after.arena.node(i).val);
            }
            assert forall|after: Self| Self::only_value_changed(before, after, i) implies #[trigger] after@
                == before@.insert(before.node_entry(i).0, after.arena.node(i).val) by {
                Self::lemma_value_changed(before, after, i, after.arena.node(i).val);
            }
        }
        let n = self.arena.get_mut(i);
        (&n.key, &mut n.val)
    }

    /// Links the nodes in the slots `keep`, which are all the nodes of the
    /// arena and ascend, into a balanced tree, and counts from there.
    pub(crate) fn assemble(&mut self, keep: &IdxBuf<N>)
        requires
            total_order::<K>(),
            N <= u32::MAX,
            loose(old(self).arena, keep.items()),
        ensures
            final(self).wf(),
            final(self).listing() == entries(old(self).arena@, keep.items()),
            final(self).order() == keep.items(),
            final(self).max_size_since_rebuild() == keep.items().len(),
    {
        let n = keep.len();
        let ghost s0 = self.arena@;
        proof {
            lemma_digits(n as nat);
            assert(keep.items().subrange(0, n as int) =~= keep.items());
        }
        let (root, Ghost(sh)) = self.arena.build(keep, 0, n);
        self.root = root;
        self.size = n;
        self.max_size = n;
        self.shape = Ghost(sh);
        proof {
            reveal(crate::linking::built);
            let s1 = self.arena@;
            lemma_idxs_len(sh);
            assert(entries(s1, keep.items()) =~= entries(s0, keep.items()));
            assert forall|i: int| 0 <= i < N && (#[trigger] s1[i]) is Used implies sh.idxs().contains(i as usize) by {
                if !keep.items().contains(i as usize) {
                    assert(s1[i] == s0[i]);
                }
            }
        }
    }

    /// Marks every slot free and resets the root and the counters, whatever
    /// the arena held.
    pub(crate) fn clear_arena(&mut self)
        requires
            total_order::<K>(),
            N <= u32::MAX,
            old(self).arena.wf(),
        ensures
            final(self).wf(),
            final(self)@ == Map::<K, V>::empty(),
            final(self).listing() == Seq::<(K, V)>::empty(),
            final(self).max_size_since_rebuild() == 0,
    {
        self.arena.reset();
        self.root = None;
        self.size = 0;
        self.max_size = 0;
        self.shape = Ghost(Shape::Leaf);
        proof {
            lemma_map_of_empty::<K, V>();
            assert(self.listing() =~= Seq::<(K, V)>::empty());
            assert forall|i: int| 0 <= i < N implies !(#[trigger] self.arena@[i] is Used) by {
                assert(!self.arena.used(i as usize));
            }
        }
    }
}

/// The arena holds nodes in exactly the slots `keep`, and their entries
/// ascend in that order.
pub(crate) open spec fn loose<K: Ord, V, const N: usize>(arena: Arena<K, V, N>, keep: Seq<usize>) -> bool {
    &&& arena.wf()
    &&& keep.no_duplicates()
    &&& all_used(arena@, keep)
    &&& forall|i: int| 0 <= i < N && (#[trigger] arena@[i]) is Used ==> keep.contains(i as usize)
    &&& ascending(entries(arena@, keep))
    &&& arena.chain@.len() + keep.len() == N
}

} // verus!
