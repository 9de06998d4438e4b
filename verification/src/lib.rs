//! A fixed-capacity ordered map and set, kept in one bounded arena and
//! balanced as a scapegoat tree.
//!
//! The nodes of the tree live in the `N` slots of an [`arena::Arena`] and
//! name their children by slot index; the slots that hold no node are
//! threaded into a free list. The tree carries no balance information but
//! the size of each subtree. An insertion that puts a node deeper than the
//! logarithm of the tree's size to the base 3/2, rounded down, plus one,
//! rebuilds the subtree of the lowest ancestor whose child on the way down
//! weighs more than 2/3 of it; a removal that leaves the tree with at most
//! 2/3 of the entries that it held at most since the last whole rebuild
//! rebuilds the whole tree. The rebalance factor is the constant 2/3.
//!
//! The contracts speak of a container as a mathematical map or set (its
//! view, `@`) and, where order matters, as its `listing()`: the entries in
//! ascending key order. Every operation asks for a well-formed container
//! (`wf()`) and returns one. The keys must be totally ordered by `Ord`, in
//! the sense of [`order::total_order`], and `N` must not exceed `u32::MAX`.
//!
//! - [`order`]: the total order on keys.
//! - [`arena`], [`shape`], [`engine`], [`linking`], [`balance`]: slots, the
//!   shape of a tree as the verifier sees it, the algorithms on linked nodes,
//!   what they leave behind, and the arithmetic of balance.
//! - [`tree`], [`bulk`], [`tree_iter`]: the tree engine, its operations on
//!   whole trees, and its iterators.
//! - [`map`], [`map_types`]: the map, its iterators and its entry view.
//! - [`set`], [`set_types`], [`merge`]: the set, its iterators, and the merge
//!   walk behind the algebra of sets.
//! - [`bounds`]: the ends of a range of keys.
//! - [`listing`], [`seqs`], [`laws`]: ascending sequences and the maps they
//!   list, plain facts of sequences, and what holds of the containers across
//!   their operations.
//! - [`idxbuf`]: the one place where another crate is called, a bounded
//!   buffer of slot indices in an `ArrayVec`.
pub mod arena;
pub mod balance;
pub mod bounds;
pub mod bulk;
pub mod engine;
pub mod idxbuf;
pub mod laws;
pub mod linking;
pub mod listing;
pub mod map;
pub mod map_types;
pub mod merge;
pub mod order;
pub mod set;
pub mod seqs;
pub mod set_types;
pub mod shape;
pub mod tree;
pub mod tree_iter;

pub use crate::arena::SgError;
pub use crate::map::SgMap;
pub use crate::set::SgSet;
