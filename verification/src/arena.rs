//! The arena: a fixed number of slots, each holding a node or a link of the
//! free list.
use vstd::prelude::*;

verus! {

/// The one error of the library: a slot was asked for and none is free.
#[derive(Debug, Clone, Copy, PartialEq, Eq, Structural)]
pub enum SgError {
    /// The arena holds as many nodes as it has slots.
    StackCapacityExceeded,
}

/// A node of the tree: an entry, the slots of its children and the number of
/// nodes below and including it.
#[derive(Clone)]
pub struct Node<K, V> {
    pub key: K,
    pub val: V,
    pub left: Option<usize>,
    pub right: Option<usize>,
    pub size: usize,
}

/// One slot of the arena.
#[derive(Clone)]
pub enum Slot<K, V> {
    /// Unused; `next` is the free slot that follows in the free list.
    Free { next: Option<usize> },
    /// Holds a node.
    Used(Node<K, V>),
}

/// `N` slots and the head of the list that threads the free ones; `chain`
/// is that list, as the verifier sees it.
#[derive(Clone)]
pub struct Arena<K, V, const N: usize> {
    pub slots: Vec<Slot<K, V>>,
    pub head: Option<usize>,
    pub chain: Ghost<Seq<usize>>,
}

/// The free slot that follows position `j` of the free list `free`.
pub open spec fn next_free(free: Seq<usize>, j: int) -> Option<usize> {
    if j + 1 < free.len() {
        Some(free[j + 1])
    } else {
        None
    }
}

/// `free` lists, from `head` on, exactly the free slots of `slots`.
pub open spec fn free_list_ok<K, V>(slots: Seq<Slot<K, V>>, head: Option<usize>, free: Seq<usize>) -> bool {
    &&& free.no_duplicates()
    &&& head == next_free(free, -1)
    &&& forall|j: int|
        0 <= j < free.len() ==> (#[trigger] free[j]) < slots.len() && slots[free[j] as int]
            == (Slot::<K, V>::Free { next: next_free(free, j) })
    &&& forall|i: int| 0 <= i < slots.len() && (#[trigger] slots[i]) is Free ==> free.contains(i as usize)
}

impl<K, V, const N: usize> View for Arena<K, V, N> {
    type V = Seq<Slot<K, V>>;

    /// The slots as a sequence.
    open spec fn view(&self) -> Seq<Slot<K, V>> {
        self.slots@
    }
}

impl<K, V, const N: usize> Arena<K, V, N> {
    /// The free list is sound and there are `N` slots.
    pub open spec fn wf(&self) -> bool {
        &&& self.slots@.len() == N
        &&& free_list_ok(self.slots@, self.head, self.chain@)
    }

    /// Slot `i` holds a node.
    pub open spec fn used(&self, i: usize) -> bool {
        i < self.slots@.len() && self.slots@[i as int] is Used
    }

    /// The node in slot `i`.
    pub open spec fn node(&self, i: usize) -> Node<K, V> {
        self.slots@[i as int]->Used_0
    }

    /// An arena of `N` free slots, chained in order from slot 0.
    pub fn new() -> (a: Self)
        ensures
            a.wf(),
            a.chain@.len() == N,
            forall|i: usize| !a.used(i),
    {
        let mut slots: Vec<Slot<K, V>> = Vec::new();
        let mut i: usize = 0;
        while i < N
            invariant
                i <= N,
                slots@.len() == i,
                forall|j: int|
                    0 <= j < i ==> (#[trigger] slots@[j]) == (Slot::<K, V>::Free {
                        next: if j + 1 < N {
                            Some((j + 1) as usize)
                        } else {
                            None
                        },
                    }),
            decreases N - i,
        {
            let next = if i + 1 < N {
                Some(i + 1)
            } else {
                None
            };
            slots.push(Slot::Free { next });
            i = i + 1;
        }
        let head = if N > 0 {
            Some(0)
        } else {
            None
        };
        let ghost free = Seq::new(N as nat, |j: int| j as usize);
        proof {
            assert forall|i: int| 0 <= i < slots@.len() && (#[trigger] slots@[i]) is Free implies free.contains(
                i as usize,
            ) by {
                assert(free[i] == i as usize);
            }
        }
        Arena { slots, head, chain: Ghost(free) }
    }

    /// Shared access to the node in slot `i`.
    pub fn get(&self, i: usize) -> (n: &Node<K, V>)
        requires
            self.used(i),
        ensures
            *n == self.node(i),
    {
        match &self.slots[i] {
            Slot::Used(n) => n,
            Slot::Free { .. } => vstd::pervasive::unreached(),
        }
    }

    /// Exclusive access to the node in slot `i`; nothing else changes.
    pub fn get_mut(&mut self, i: usize) -> (n: &mut Node<K, V>)
        requires
            old(self).used(i),
        ensures
            *n == old(self).node(i),
            final(self)@ == old(self)@.update(i as int, Slot::Used(*final(n))),
            final(self).head == old(self).head,
            final(self).chain == old(self).chain,
    {
        match &mut self.slots[i] {
            Slot::Used(n) => n,
            Slot::Free { .. } => vstd::pervasive::unreached(),
        }
    }

    /// Marks every slot free and chains them in order from slot 0.
    pub fn reset(&mut self)
        requires
            old(self).slots@.len() == N,
        ensures
            final(self).wf(),
            final(self).chain@.len() == N,
            forall|i: usize| !final(self).used(i),
    {
        let mut i: usize = 0;
        while i < N
            invariant
                i <= N,
                self.slots@.len() == N,
                forall|j: int|
                    0 <= j < i ==> (#[trigger] self.slots@[j]) == (Slot::<K, V>::Free {
                        next: if j + 1 < N {
                            Some((j + 1) as usize)
                        } else {
                            None
                        },
                    }),
            decreases N - i,
        {
            let next = if i + 1 < N {
                Some(i + 1)
            } else {
                None
            };
            self.slots.set(i, Slot::Free { next });
            i = i + 1;
        }
        self.head = if N > 0 {
            Some(0)
        } else {
            None
        };
        let ghost free = Seq::new(N as nat, |j: int| j as usize);
        self.chain = Ghost(free);
        proof {
            assert forall|i: int| 0 <= i < self.slots@.len() && (#[trigger] self.slots@[i]) is Free implies free.contains(
                i as usize,
            ) by {
                assert(free[i] == i as usize);
            }
        }
    }

    /// Takes the slot at the head of the free list for `node`; fails, changing
    /// nothing, when no slot is free.
    pub fn allocate(&mut self, node: Node<K, V>) -> (r: Result<usize, SgError>)
        requires
            old(self).wf(),
        ensures
            final(self).wf(),
            match r {
                Ok(i) => {
                    &&& old(self).chain@.len() > 0
                    &&& i == old(self).chain@[0]
                    &&& !old(self).used(i)
                    &&& i < N
                    &&& final(self)@ == old(self)@.update(i as int, Slot::Used(node))
                    &&& final(self).chain@ == old(self).chain@.skip(1)
                },
                Err(e) => {
                    &&& old(self).chain@.len() == 0
                    &&& *final(self) == *old(self)
                },
            },
    {
        match self.head {
            None => Err(SgError::StackCapacityExceeded),
            Some(i) => {
                let ghost free = self.chain@;
                assert(free[0] == i);
                let next = match &self.slots[i] {
                    Slot::Free { next } => *next,
                    Slot::Used(_) => vstd::pervasive::unreached(),
                };
                self.slots.set(i, Slot::Used(node));
                self.head = next;
                self.chain = Ghost(free.skip(1));
                proof {
                    let rest = free.skip(1);
                    assert forall|j: int| 0 <= j < rest.len() implies (#[trigger] rest[j]) < self.slots@.len()
                        && self.slots@[rest[j] as int] == (Slot::<K, V>::Free {
                        next: next_free(rest, j),
                    }) by {
                        assert(rest[j] == free[j + 1]);
                        assert(free[j + 1] != free[0]);
                    }
                    assert forall|k: int|
                        0 <= k < self.slots@.len() && (#[trigger] self.slots@[k]) is Free implies rest.contains(
                        k as usize,
                    ) by {
                        assert(old(self).slots@[k] is Free);
                        assert(free.contains(k as usize));
                        let j = choose|j: int| 0 <= j < free.len() && free[j] == k as usize;
                        assert(j != 0);
                        assert(rest[j - 1] == k as usize);
                    }
                }
                Ok(i)
            },
        }
    }

    /// Returns slot `i` to the head of the free list and hands out its node.
    pub fn free(&mut self, i: usize) -> (node: Node<K, V>)
        requires
            old(self).wf(),
            old(self).used(i),
        ensures
            final(self).wf(),
            node == old(self).node(i),
            final(self)@ == old(self)@.update(i as int, Slot::Free { next: old(self).head }),
            final(self).chain@ == seq![i] + old(self).chain@,
    {
        let ghost free = self.chain@;
        let mut taken = Slot::Free { next: self.head };
        core::mem::swap(&mut self.slots[i], &mut taken);
        self.head = Some(i);
        self.chain = Ghost(seq![i] + free);
        proof {
            let grown = seq![i] + free;
            assert(!free.contains(i)) by {
                if free.contains(i) {
                    let j = choose|j: int| 0 <= j < free.len() && free[j] == i;
                    assert(old(self).slots@[free[j] as int] is Free);
                }
            }
            assert(grown.no_duplicates());
            assert forall|j: int| 0 <= j < grown.len() implies (#[trigger] grown[j]) < self.slots@.len()
                && self.slots@[grown[j] as int] == (Slot::<K, V>::Free {
                next: next_free(grown, j),
            }) by {
                if j > 0 {
                    assert(grown[j] == free[j - 1]);
                }
            }
            assert forall|k: int|
                0 <= k < self.slots@.len() && (#[trigger] self.slots@[k]) is Free implies grown.contains(
                k as usize,
            ) by {
                if k == i {
                    assert(grown[0] == i);
                } else {
                    assert(old(self).slots@[k] is Free);
                    let j = choose|j: int| 0 <= j < free.len() && free[j] == k as usize;
                    assert(grown[j + 1] == k as usize);
                }
            }
        }
        match taken {
            Slot::Used(node) => node,
            Slot::Free { .. } => vstd::pervasive::unreached(),
        }
    }
}

} // verus!
