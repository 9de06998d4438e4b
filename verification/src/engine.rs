//! The algorithms on linked nodes: search, in-order flattening, balanced
//! rebuilding, insertion with scapegoat rebalancing, and removal.
use crate::arena::{Arena, Node, SgError, Slot};
use crate::balance::{digits, lemma_digits_below, lemma_digits_monotone, pow2, pow3, too_deep};
use crate::idxbuf::IdxBuf;
use crate::linking::{
    bin, built, detached, grown, left_of, lemma_adopt, lemma_adopt_rebuilt, lemma_all_used_part,
    lemma_built_apart, lemma_built_join, lemma_detached_adopt, lemma_detached_parent_kept, lemma_gap_left,
    lemma_gap_right, lemma_levels_within, lemma_pace_up, lemma_parent_kept, lemma_removed_adopt,
    lemma_removed_no_left, lemma_removed_no_right, lemma_removed_parent_kept, lemma_removed_two,
    lemma_scapegoat_room, lemma_used_update_keeps_free_list, lifted, placed, probe_key, probe_ok, removed,
    reshaped, right_of, Cut, Probe, Step,
};
use crate::listing::{ascending, gap_at};
use crate::order::{compare, key_lt, total_order, Rel};
use crate::seqs::lemma_insert_fresh;
use crate::shape::{
    all_used, entries, entry_at, lemma_bin_ascending, lemma_bin_distinct, lemma_bin_entries, lemma_frame,
    lemma_idxs_len, lemma_linked_used, linked, single, Shape,
};
use vstd::prelude::*;

verus! {

impl<K: Ord, V, const N: usize> Arena<K, V, N> {
    /// Descends from `cur` by comparing keys; gives the slot that holds
    /// `key`, if one does, and the place of `key` in the order.
    pub(crate) fn find(&self, cur: Option<usize>, key: &K, Ghost(sh): Ghost<Shape>) -> (r: (Option<usize>, Ghost<int>))
        requires
            total_order::<K>(),
            linked(self@, sh),
            sh.root() == cur,
            ascending(entries(self@, sh.idxs())),
        ensures
            match r.0 {
                Some(i) => {
                    &&& 0 <= r.1@ < sh.idxs().len()
                    &&& sh.idxs()[r.1@] == i
                    &&& entries(self@, sh.idxs())[r.1@].0 == *key
                    &&& self.used(i)
                },
                None => gap_at(entries(self@, sh.idxs()), r.1@, *key),
            },
        decreases sh,
    {
        match cur {
            None => (None, Ghost(0)),
            Some(i) => {
                let ghost l = left_of(sh);
                let ghost r = right_of(sh);
                proof {
                    lemma_bin_entries(self@, l, i, r);
                    lemma_bin_ascending(self@, l, i, r);
                }
                let node = self.get(i);
                match compare(key, &node.key) {
                    Rel::Equal => (Some(i), Ghost(l.idxs().len() as int)),
                    Rel::Less => {
                        let (found, Ghost(p)) = self.find(node.left, key, Ghost(l));
                        proof {
                            if found.is_none() {
                                lemma_gap_left(self@, l, i, r, p, *key);
                            }
                        }
                        (found, Ghost(p))
                    },
                    Rel::Greater => {
                        let (found, Ghost(p)) = self.find(node.right, key, Ghost(r));
                        proof {
                            if found.is_none() {
                                lemma_gap_right(self@, l, i, r, p, *key);
                            }
                        }
                        (found, Ghost(l.idxs().len() + 1 + p))
                    },
                }
            },
        }
    }

    /// Appends to `buf` the slots of the subtree at `cur`, in key order.
    pub(crate) fn flatten(&self, cur: Option<usize>, buf: &mut IdxBuf<N>, Ghost(sh): Ghost<Shape>)
        requires
            linked(self@, sh),
            sh.root() == cur,
            old(buf).items().len() + sh.size() <= N,
        ensures
            final(buf).items() == old(buf).items() + sh.idxs(),
        decreases sh,
    {
        match cur {
            None => {
                assert(buf.items() + sh.idxs() =~= buf.items());
            },
            Some(i) => {
                let ghost l = left_of(sh);
                let ghost r = right_of(sh);
                proof {
                    lemma_idxs_len(l);
                    lemma_idxs_len(r);
                }
                let node = self.get(i);
                self.flatten(node.left, buf, Ghost(l));
                buf.push(i);
                self.flatten(node.right, buf, Ghost(r));
                assert(buf.items() =~= old(buf).items() + sh.idxs());
            },
        }
    }

    /// Links the nodes in the slots `buf[lo..hi]` into a balanced tree with
    /// the middle slot as its root, and returns that root.
    #[verifier::rlimit(50)]
    pub(crate) fn build(&mut self, buf: &IdxBuf<N>, lo: usize, hi: usize) -> (r: (Option<usize>, Ghost<Shape>))
        requires
            old(self).wf(),
            lo <= hi <= buf.items().len(),
            buf.items().no_duplicates(),
            all_used(old(self)@, buf.items().subrange(lo as int, hi as int)),
        ensures
            final(self).wf(),
            final(self).head == old(self).head,
            final(self).chain == old(self).chain,
            built(old(self)@, buf.items(), lo as int, hi as int, final(self)@, r.1@),
            r.1@.root() == r.0,
            r.1@.levels() <= digits((hi - lo) as nat),
        decreases hi - lo,
    {
        let ghost all = buf.items();
        let ghost s0 = self@;
        if lo == hi {
            proof {
                reveal(built);
                assert(Shape::Leaf.idxs() =~= all.subrange(lo as int, hi as int));
            }
            return (None, Ghost(Shape::Leaf));
        }
        let mid = lo + (hi - lo) / 2;
        let i = buf.get(mid);
        proof {
            lemma_digits_monotone((hi - mid - 1) as nat, ((hi - lo) / 2) as nat);
            lemma_all_used_part(s0, all, lo as int, hi as int, lo as int, mid as int);
            lemma_all_used_part(s0, all, lo as int, hi as int, mid + 1, hi as int);
            assert(all.subrange(lo as int, hi as int)[mid - lo] == i);
        }
        let (left, Ghost(lsh)) = self.build(buf, lo, mid);
        let ghost s1 = self@;
        proof {
            lemma_built_apart(s0, all, lo as int, mid as int, s1, lsh, mid + 1, hi as int);
        }
        let (right, Ghost(rsh)) = self.build(buf, mid + 1, hi);
        let ghost s2 = self@;
        proof {
            lemma_built_apart(s0, all, lo as int, mid as int, s1, lsh, mid as int, mid + 1);
            lemma_built_apart(s1, all, mid + 1, hi as int, s2, rsh, mid as int, mid + 1);
            assert(all.subrange(mid as int, mid + 1)[0] == i);
        }
        let node = self.get_mut(i);
        node.left = left;
        node.right = right;
        node.size = hi - lo;
        proof {
            lemma_built_join(s0, all, lo as int, mid as int, hi as int, s1, lsh, s2, rsh, self@);
            lemma_used_update_keeps_free_list(s2, i, self@, self.head, self.chain@);
        }
        (Some(i), Ghost(bin(lsh, i, rsh)))
    }

    /// Rebuilds the subtree at `root` as a balanced tree over the same
    /// slots: flattens it in order, then links it anew from the middle out.
    pub(crate) fn rebuild(&mut self, root: Option<usize>, Ghost(sh): Ghost<Shape>) -> (r: (
        Option<usize>,
        Ghost<Shape>,
    ))
        requires
            N <= u32::MAX,
            old(self).wf(),
            linked(old(self)@, sh),
            sh.root() == root,
            sh.idxs().no_duplicates(),
            sh.size() <= N,
        ensures
            final(self).wf(),
            final(self).head == old(self).head,
            final(self).chain == old(self).chain,
            linked(final(self)@, r.1@),
            r.1@.root() == r.0,
            r.1@.idxs() == sh.idxs(),
            r.1@.levels() <= digits(sh.size()),
            entries(final(self)@, sh.idxs()) == entries(old(self)@, sh.idxs()),
            forall|x: int| 0 <= x < N && !sh.idxs().contains(x as usize) ==> final(self)@[x] == old(self)@[x],
    {
        let mut buf = IdxBuf::<N>::new();
        self.flatten(root, &mut buf, Ghost(sh));
        let n = buf.len();
        proof {
            lemma_idxs_len(sh);
            lemma_linked_used(self@, sh);
            assert(buf.items() =~= sh.idxs());
            assert(buf.items().subrange(0, n as int) =~= sh.idxs());
        }
        let r = self.build(&buf, 0, n);
        proof {
            reveal(built);
            assert(entries(self@, sh.idxs()) =~= entries(old(self)@, sh.idxs()));
        }
        r
    }

    /// Hooks the subtree that the step below returned under node `i`, counts
    /// the new node and, where the new node lies too deep and the child has
    /// come to weigh more than 2/3 of node `i`, rebuilds the subtree at `i`.
    fn adopt(
        &mut self,
        i: usize,
        step: Step<V>,
        left_side: bool,
        Ghost(key): Ghost<K>,
        Ghost(val): Ghost<V>,
        Ghost(depth): Ghost<nat>,
        Ghost(total): Ghost<nat>,
        Ghost(s0): Ghost<Seq<Slot<K, V>>>,
        Ghost(chain0): Ghost<Seq<usize>>,
        Ghost(sh): Ghost<Shape>,
        Ghost(g): Ghost<(Shape, int, nat)>,
    ) -> (r: (Step<V>, Ghost<(Shape, int, nat)>))
        requires
            total_order::<K>(),
            N <= u32::MAX,
            old(self).wf(),
            s0.len() == N,
            linked(s0, sh),
            sh.root() == Some(i),
            sh.idxs().no_duplicates(),
            ascending(entries(s0, sh.idxs())),
            sh.size() + chain0.len() <= N,
            left_side ==> key_lt(key, entry_at(s0, i).0),
            !left_side ==> key_lt(entry_at(s0, i).0, key),
            grown(
                s0,
                chain0,
                if left_side {
                    left_of(sh)
                } else {
                    right_of(sh)
                },
                key,
                val,
                depth + 1,
                total,
                old(self)@,
                old(self).chain@,
                step,
                g,
            ),
        ensures
            final(self).wf(),
            grown(s0, chain0, sh, key, val, depth, total, final(self)@, final(self).chain@, r.0, r.1@),
    {
        let ghost s1 = self@;
        let ghost chain1 = self.chain@;
        let ghost c = if left_side { left_of(sh) } else { right_of(sh) };
        let ghost sh2 = reshaped(sh, left_side, g.0);
        let ghost pos = lifted(sh, left_side, g.1);
        proof {
            lemma_parent_kept(s0, chain0, sh, key, val, s1, chain1, step.root, step.node, step.old, g.0, g.1, i, left_side);
            lemma_idxs_len(sh);
        }
        let inserted = step.old.is_none();
        let n = self.get_mut(i);
        if left_side {
            n.left = Some(step.root);
        } else {
            n.right = Some(step.root);
        }
        if inserted {
            n.size = n.size + 1;
        }
        let ghost s2 = self@;
        proof {
            lemma_adopt(s0, chain0, sh, key, val, s1, chain1, step.root, step.node, step.old, g.0, g.1, i, left_side, s2);
            lemma_used_update_keeps_free_list(s1, i, s2, self.head, self.chain@);
        }
        if !inserted {
            return (Step { root: i, node: step.node, old: step.old, pending: false }, Ghost((sh2, pos, 0)));
        }
        let ghost at = g.2;
        if step.pending {
            let child_size = self.get(step.root).size;
            let size = self.get(i).size;
            if 3 * (child_size as u64) > 2 * (size as u64) {
                proof {
                    lemma_scapegoat_room(sh, c, g.0.size(), sh2.size());
                    lemma_digits_below(sh2.size(), sh.levels());
                    lemma_insert_fresh(sh.idxs(), pos, step.node);
                }
                let (root, Ghost(sh3)) = self.rebuild(Some(i), Ghost(sh2));
                let root = match root {
                    Some(x) => x,
                    None => vstd::pervasive::unreached(),
                };
                proof {
                    lemma_adopt_rebuilt(s0, chain0, sh, key, val, s2, chain1, i, step.node, sh2, pos, self@, root, sh3);
                }
                return (
                    Step { root, node: step.node, old: None, pending: false },
                    Ghost((sh3, pos, at)),
                );
            }
            proof {
                lemma_pace_up((at - depth - 1) as nat, g.0.size(), sh2.size());
            }
        }
        (Step { root: i, node: step.node, old: None, pending: step.pending }, Ghost((sh2, pos, at)))
    }

    /// Gives `key` the value `val` in the subtree at `cur`, which lies at
    /// depth `depth` in a tree of `total` nodes: replaces the value where the
    /// key is present, else puts a new node where the descent ends. Fails,
    /// changing nothing, where a new node is needed and no slot is free.
    pub(crate) fn insert_rec(
        &mut self,
        cur: Option<usize>,
        key: K,
        val: V,
        depth: usize,
        total: usize,
        Ghost(sh): Ghost<Shape>,
    ) -> (r: (Result<Step<V>, SgError>, Ghost<(Shape, int, nat)>))
        requires
            total_order::<K>(),
            N <= u32::MAX,
            old(self).wf(),
            linked(old(self)@, sh),
            sh.root() == cur,
            sh.idxs().no_duplicates(),
            ascending(entries(old(self)@, sh.idxs())),
            sh.size() + old(self).chain@.len() <= N,
            depth + sh.size() <= N,
            total + old(self).chain@.len() <= N,
        ensures
            final(self).wf(),
            match r.0 {
                Err(e) => {
                    &&& *final(self) == *old(self)
                    &&& old(self).chain@.len() == 0
                    &&& gap_at(entries(old(self)@, sh.idxs()), r.1@.1, key)
                },
                Ok(step) => grown(
                    old(self)@,
                    old(self).chain@,
                    sh,
                    key,
                    val,
                    depth as nat,
                    total as nat,
                    final(self)@,
                    final(self).chain@,
                    step,
                    r.1@,
                ),
            },
        decreases sh,
    {
        let ghost s0 = self@;
        let ghost chain0 = self.chain@;
        match cur {
            None => {
                let node = Node { key, val, left: None, right: None, size: 1 };
                match self.allocate(node) {
                    Err(e) => {
                        proof {
                            assert(sh.idxs() =~= Seq::empty());
                        }
                        (Err(e), Ghost((sh, 0, 0)))
                    },
                    Ok(ni) => {
                        let deep = too_deep(depth, total + 1);
                        proof {
                            reveal(placed);
                            reveal_with_fuel(Shape::levels, 2);
                            reveal_with_fuel(Shape::size, 2);
                            let sh1 = single(ni);
                            assert(sh1.idxs() =~= sh.idxs().insert(0, ni));
                            assert(entries(self@, sh1.idxs()) =~= entries(s0, sh.idxs()).insert(0, (key, val)));
                            assert(pow3(0) == 1 && pow2(0) == 1);
                            assert(sh1.size() == 1 && sh1.levels() == 1);
                            assert(linked(self@, Shape::Leaf));
                            assert(linked(self@, sh1));
                            assert(s0[ni as int] is Free);
                        }
                        (
                            Ok(Step { root: ni, node: ni, old: None, pending: deep }),
                            Ghost((single(ni), 0, depth as nat)),
                        )
                    },
                }
            },
            Some(i) => {
                let ghost l = left_of(sh);
                let ghost r = right_of(sh);
                proof {
                    lemma_bin_entries(s0, l, i, r);
                    lemma_bin_ascending(s0, l, i, r);
                    lemma_bin_distinct(l, i, r);
                    lemma_idxs_len(l);
                    lemma_idxs_len(r);
                    lemma_idxs_len(sh);
                }
                let node = self.get(i);
                match compare(&key, &node.key) {
                    Rel::Equal => {
                        let mut v = val;
                        let n = self.get_mut(i);
                        core::mem::swap(&mut n.val, &mut v);
                        proof {
                            reveal(placed);
                            let s1 = self@;
                            let p = l.idxs().len() as int;
                            assert(sh.idxs()[p] == i);
                            lemma_linked_used(s0, l);
                            lemma_linked_used(s0, r);
                            assert forall|j: int| 0 <= j < l.idxs().len() implies s1[(#[trigger] l.idxs()[j]) as int]
                                == s0[l.idxs()[j] as int] by {
                                assert(l.idxs().contains(l.idxs()[j]));
                            }
                            assert forall|j: int| 0 <= j < r.idxs().len() implies s1[(#[trigger] r.idxs()[j]) as int]
                                == s0[r.idxs()[j] as int] by {
                                assert(r.idxs().contains(r.idxs()[j]));
                            }
                            lemma_frame(s0, s1, l);
                            lemma_frame(s0, s1, r);
                            lemma_bin_entries(s1, l, i, r);
                            assert(entries(s1, sh.idxs()) =~= entries(s0, sh.idxs()).update(p, (key, val)));
                            lemma_used_update_keeps_free_list(s0, i, s1, self.head, self.chain@);
                            assert(sh.idxs().contains(i));
                            assert(entries(s0, sh.idxs())[p] == (key, v));
                        }
                        (
                            Ok(Step { root: i, node: i, old: Some(v), pending: false }),
                            Ghost((sh, l.idxs().len() as int, 0)),
                        )
                    },
                    Rel::Less => {
                        let child = node.left;
                        let ghost gk = key;
                        let ghost gv = val;
                        let (res, Ghost(g)) = self.insert_rec(child, key, val, depth + 1, total, Ghost(l));
                        match res {
                            Err(e) => {
                                proof {
                                    lemma_gap_left(s0, l, i, r, g.1, gk);
                                }
                                (Err(e), Ghost((sh, g.1, 0)))
                            },
                            Ok(step) => {
                                let (step, g) = self.adopt(
                                    i,
                                    step,
                                    true,
                                    Ghost(gk),
                                    Ghost(gv),
                                    Ghost(depth as nat),
                                    Ghost(total as nat),
                                    Ghost(s0),
                                    Ghost(chain0),
                                    Ghost(sh),
                                    Ghost(g),
                                );
                                (Ok(step), g)
                            },
                        }
                    },
                    Rel::Greater => {
                        let child = node.right;
                        let ghost gk = key;
                        let ghost gv = val;
                        let (res, Ghost(g)) = self.insert_rec(child, key, val, depth + 1, total, Ghost(r));
                        match res {
                            Err(e) => {
                                proof {
                                    lemma_gap_right(s0, l, i, r, g.1, gk);
                                }
                                (Err(e), Ghost((sh, l.idxs().len() + 1 + g.1, 0)))
                            },
                            Ok(step) => {
                                let (step, g) = self.adopt(
                                    i,
                                    step,
                                    false,
                                    Ghost(gk),
                                    Ghost(gv),
                                    Ghost(depth as nat),
                                    Ghost(total as nat),
                                    Ghost(s0),
                                    Ghost(chain0),
                                    Ghost(sh),
                                    Ghost(g),
                                );
                                (Ok(step), g)
                            },
                        }
                    },
                }
            },
        }
    }

    /// How the key that `pr` looks for stands to the key in slot `i`.
    fn side(&self, pr: &Probe<K>, i: usize) -> (r: Rel)
        requires
            total_order::<K>(),
            probe_ok(self@, *pr),
            self.used(i),
        ensures
            r == crate::order::rel_of(probe_key(self@, *pr), self.node(i).key),
            r is Greater ==> key_lt(self.node(i).key, probe_key(self@, *pr)),
    {
        match pr {
            Probe::Key(k) => compare(*k, &self.get(i).key),
            Probe::Slot(t) => compare(&self.get(*t).key, &self.get(i).key),
        }
    }

    /// Detaches the least node of the subtree at `cur`: descends all-left,
    /// lets that node's right child take its place and returns its slot,
    /// which keeps its entry, with the new root of the subtree.
    pub(crate) fn take_min(&mut self, cur: usize, Ghost(sh): Ghost<Shape>) -> (r: (usize, Option<usize>, Ghost<Shape>))
        requires
            old(self).wf(),
            linked(old(self)@, sh),
            sh.root() == Some(cur),
            sh.idxs().no_duplicates(),
        ensures
            final(self).wf(),
            final(self).head == old(self).head,
            final(self).chain == old(self).chain,
            detached(old(self)@, sh, final(self)@, r.0, r.1, r.2@),
        decreases sh,
    {
        let ghost s0 = self@;
        let ghost l = left_of(sh);
        let ghost r = right_of(sh);
        let node = self.get(cur);
        match node.left {
            None => {
                let right = node.right;
                proof {
                    reveal(detached);
                    lemma_bin_entries(s0, l, cur, r);
                    assert(l.idxs() =~= Seq::empty());
                    assert(sh.idxs().remove(0) =~= r.idxs());
                    assert(entries(s0, sh.idxs()).remove(0) =~= entries(s0, r.idxs()));
                    lemma_idxs_len(sh);
                    assert(sh == bin(l, cur, r));
                    assert(l is Leaf);
                    assert(sh.idxs()[0] == cur);
                    assert(linked(s0, r));
                    assert(r.levels() <= sh.levels());
                    assert(l.size() == 0);
                    assert(sh.size() == l.size() + 1 + r.size());
                }
                (cur, right, Ghost(r))
            },
            Some(lc) => {
                proof {
                    lemma_bin_distinct(l, cur, r);
                }
                let (min, lroot, Ghost(l1)) = self.take_min(lc, Ghost(l));
                let ghost s1 = self@;
                proof {
                    lemma_detached_parent_kept(s0, sh, s1, min, lroot, l1, cur, true);
                }
                let n = self.get_mut(cur);
                n.left = lroot;
                n.size = n.size - 1;
                proof {
                    lemma_detached_adopt(s0, sh, s1, min, lroot, l1, cur, self@);
                    lemma_used_update_keeps_free_list(s1, cur, self@, self.head, self.chain@);
                }
                (min, Some(cur), Ghost(reshaped(sh, true, l1)))
            },
        }
    }

    /// Takes the node in slot `i`, the root of the subtree `sh`, out of that
    /// subtree: with at most one child the child takes its place; with two,
    /// the node takes over the entry of its successor, whose slot is freed.
    fn remove_here(&mut self, i: usize, Ghost(sh): Ghost<Shape>) -> (r: (Cut<K, V>, Ghost<(Shape, int, int)>))
        requires
            old(self).wf(),
            linked(old(self)@, sh),
            sh.root() == Some(i),
            sh.idxs().no_duplicates(),
        ensures
            final(self).wf(),
            r.0.taken == Some(entry_at(old(self)@, i)),
            removed(
                old(self)@,
                old(self).chain@,
                sh,
                final(self)@,
                final(self).chain@,
                r.0.root,
                entry_at(old(self)@, i),
                r.1@.0,
                r.1@.1,
                r.1@.2,
            ),
    {
        let ghost s0 = self@;
        let ghost chain0 = self.chain@;
        let ghost l = left_of(sh);
        let ghost r = right_of(sh);
        let node = self.get(i);
        let left = node.left;
        let right = node.right;
        if left.is_none() {
            let ghost next = self.head;
            let n = self.free(i);
            proof {
                lemma_removed_no_left(s0, chain0, sh, i, self@, next);
            }
            (Cut { root: n.right, taken: Some((n.key, n.val)) }, Ghost((r, 0, 0)))
        } else if right.is_none() {
            let ghost next = self.head;
            let n = self.free(i);
            proof {
                lemma_removed_no_right(s0, chain0, sh, i, self@, next);
            }
            (
                Cut { root: n.left, taken: Some((n.key, n.val)) },
                Ghost((l, l.idxs().len() as int, l.idxs().len() as int)),
            )
        } else {
            let rc = match right {
                Some(x) => x,
                None => vstd::pervasive::unreached(),
            };
            proof {
                lemma_bin_distinct(l, i, r);
            }
            let (ms, rroot, Ghost(r1)) = self.take_min(rc, Ghost(r));
            let ghost s1 = self@;
            proof {
                lemma_detached_parent_kept(s0, sh, s1, ms, rroot, r1, i, false);
            }
            let mut succ = self.free(ms);
            let ghost freed = self@;
            let n = self.get_mut(i);
            core::mem::swap(&mut n.key, &mut succ.key);
            core::mem::swap(&mut n.val, &mut succ.val);
            n.right = rroot;
            n.size = n.size - 1;
            proof {
                lemma_used_update_keeps_free_list(freed, i, self@, self.head, self.chain@);
                lemma_removed_two(s0, chain0, sh, i, s1, ms, rroot, r1, self@);
            }
            (
                Cut { root: Some(i), taken: Some((succ.key, succ.val)) },
                Ghost((reshaped(sh, false, r1), l.idxs().len() as int, (l.idxs().len() + 1) as int)),
            )
        }
    }

    /// Removes from the subtree at `cur` the entry that `pr` looks for;
    /// changes nothing where the key is absent.
    pub(crate) fn remove_rec(&mut self, cur: Option<usize>, pr: &Probe<K>, Ghost(sh): Ghost<Shape>) -> (r: (
        Cut<K, V>,
        Ghost<(Shape, int, int)>,
    ))
        requires
            total_order::<K>(),
            old(self).wf(),
            linked(old(self)@, sh),
            sh.root() == cur,
            sh.idxs().no_duplicates(),
            ascending(entries(old(self)@, sh.idxs())),
            probe_ok(old(self)@, *pr),
        ensures
            final(self).wf(),
            match r.0.taken {
                Some(e) => {
                    &&& e.0 == probe_key(old(self)@, *pr)
                    &&& removed(
                        old(self)@,
                        old(self).chain@,
                        sh,
                        final(self)@,
                        final(self).chain@,
                        r.0.root,
                        e,
                        r.1@.0,
                        r.1@.1,
                        r.1@.2,
                    )
                },
                None => {
                    &&& *final(self) == *old(self)
                    &&& r.0.root == cur
                    &&& gap_at(entries(old(self)@, sh.idxs()), r.1@.1, probe_key(old(self)@, *pr))
                },
            },
        decreases sh,
    {
        let ghost s0 = self@;
        let ghost chain0 = self.chain@;
        let ghost key = probe_key(s0, *pr);
        match cur {
            None => {
                proof {
                    assert(sh.idxs() =~= Seq::empty());
                }
                (Cut { root: None, taken: None }, Ghost((sh, 0, 0)))
            },
            Some(i) => {
                let ghost l = left_of(sh);
                let ghost r = right_of(sh);
                proof {
                    lemma_bin_entries(s0, l, i, r);
                    lemma_bin_ascending(s0, l, i, r);
                    lemma_bin_distinct(l, i, r);
                }
                match self.side(pr, i) {
                    Rel::Equal => self.remove_here(i, Ghost(sh)),
                    Rel::Less => {
                        let child = self.get(i).left;
                        let (cut, Ghost(g)) = self.remove_rec(child, pr, Ghost(l));
                        match cut.taken {
                            None => {
                                proof {
                                    lemma_gap_left(s0, l, i, r, g.1, key);
                                }
                                (Cut { root: cur, taken: None }, Ghost((sh, g.1, 0)))
                            },
                            Some(e) => {
                                let ghost s1 = self@;
                                let ghost chain1 = self.chain@;
                                proof {
                                    lemma_removed_parent_kept(s0, chain0, sh, s1, chain1, cut.root, e, g.0, g.1, g.2, i, true);
                                    lemma_idxs_len(sh);
                                }
                                let n = self.get_mut(i);
                                n.left = cut.root;
                                n.size = n.size - 1;
                                proof {
                                    lemma_removed_adopt(s0, chain0, sh, s1, chain1, cut.root, e, g.0, g.1, g.2, i, true, self@);
                                    lemma_used_update_keeps_free_list(s1, i, self@, self.head, self.chain@);
                                }
                                (
                                    Cut { root: Some(i), taken: Some(e) },
                                    Ghost((reshaped(sh, true, g.0), lifted(sh, true, g.1), lifted(sh, true, g.2))),
                                )
                            },
                        }
                    },
                    Rel::Greater => {
                        let child = self.get(i).right;
                        let (cut, Ghost(g)) = self.remove_rec(child, pr, Ghost(r));
                        match cut.taken {
                            None => {
                                proof {
                                    lemma_gap_right(s0, l, i, r, g.1, key);
                                }
                                (Cut { root: cur, taken: None }, Ghost((sh, l.idxs().len() + 1 + g.1, 0)))
                            },
                            Some(e) => {
                                let ghost s1 = self@;
                                let ghost chain1 = self.chain@;
                                proof {
                                    lemma_removed_parent_kept(s0, chain0, sh, s1, chain1, cut.root, e, g.0, g.1, g.2, i, false);
                                    lemma_idxs_len(sh);
                                }
                                let n = self.get_mut(i);
                                n.right = cut.root;
                                n.size = n.size - 1;
                                proof {
                                    lemma_removed_adopt(s0, chain0, sh, s1, chain1, cut.root, e, g.0, g.1, g.2, i, false, self@);
                                    lemma_used_update_keeps_free_list(s1, i, self@, self.head, self.chain@);
                                }
                                (
                                    Cut { root: Some(i), taken: Some(e) },
                                    Ghost((reshaped(sh, false, g.0), lifted(sh, false, g.1), lifted(sh, false, g.2))),
                                )
                            },
                        }
                    },
                }
            },
        }
    }

    /// The slot of the least node of the subtree at `cur`: descends all-left.
    pub(crate) fn leftmost(&self, cur: usize, Ghost(sh): Ghost<Shape>) -> (r: usize)
        requires
            linked(self@, sh),
            sh.root() == Some(cur),
        ensures
            sh.idxs().len() > 0,
            r == sh.idxs()[0],
        decreases sh,
    {
        let ghost l = left_of(sh);
        let ghost rt = right_of(sh);
        proof {
            lemma_bin_entries(self@, l, cur, rt);
        }
        match self.get(cur).left {
            None => {
                proof {
                    assert(l.idxs() =~= Seq::empty());
                }
                cur
            },
            Some(lc) => self.leftmost(lc, Ghost(l)),
        }
    }

    /// The slot of the greatest node of the subtree at `cur`: descends
    /// all-right.
    pub(crate) fn rightmost(&self, cur: usize, Ghost(sh): Ghost<Shape>) -> (r: usize)
        requires
            linked(self@, sh),
            sh.root() == Some(cur),
        ensures
            sh.idxs().len() > 0,
            r == sh.idxs().last(),
        decreases sh,
    {
        let ghost l = left_of(sh);
        let ghost rt = right_of(sh);
        proof {
            lemma_bin_entries(self@, l, cur, rt);
        }
        match self.get(cur).right {
            None => {
                proof {
                    assert(rt.idxs() =~= Seq::empty());
                }
                cur
            },
            Some(rc) => {
                let r = self.rightmost(rc, Ghost(rt));
                proof {
                    assert(sh.idxs().last() == rt.idxs().last());
                }
                r
            },
        }
    }

    /// The number of nodes on the longest way down from `cur`.
    pub(crate) fn measure(&self, cur: Option<usize>, Ghost(sh): Ghost<Shape>) -> (r: usize)
        requires
            linked(self@, sh),
            sh.root() == cur,
            sh.size() <= N,
        ensures
            r == sh.levels(),
        decreases sh,
    {
        match cur {
            None => 0,
            Some(i) => {
                let ghost l = left_of(sh);
                let ghost rt = right_of(sh);
                proof {
                    lemma_levels_within(sh);
                }
                let node = self.get(i);
                let a = self.measure(node.left, Ghost(l));
                let b = self.measure(node.right, Ghost(rt));
                if a >= b {
                    a + 1
                } else {
                    b + 1
                }
            },
        }
    }
}

} // verus!
