//! A bounded buffer of slot indices, held inline in an `ArrayVec`.
use arrayvec::ArrayVec;
use vstd::prelude::*;

verus! {

/// `arrayvec::ArrayVec`, a vector of at most `CAP` elements stored inline.
/// The verifier sees nothing inside it.
#[verifier::external_type_specification]
#[verifier::external_body]
#[verifier::reject_recursive_types(T)]
pub struct ExArrayVec<T, const CAP: usize>(ArrayVec<T, CAP>);

/// Up to `N` indices in the order in which they were pushed.
///
/// The `ArrayVec` is opaque to the verifier, so `model` records what it
/// holds. Only the four functions below touch either field, and each is
/// trusted to change both alike: that the `ArrayVec` holds the elements of
/// `model`, in that order, is assumed of them, not proved.
pub struct IdxBuf<const N: usize> {
    buf: ArrayVec<usize, N>,
    model: Ghost<Seq<usize>>,
}

impl<const N: usize> IdxBuf<N> {
    /// The indices held, oldest first.
    pub closed spec fn items(&self) -> Seq<usize> {
        self.model@
    }

    /// `ArrayVec::new`: a buffer that holds nothing. The call panics for a
    /// capacity above `u32::MAX`, which `requires` leaves out.
    #[verifier::external_body]
    pub(crate) fn new() -> (b: Self)
        requires
            N <= u32::MAX,
        ensures
            b.items() == Seq::<usize>::empty(),
    {
        IdxBuf { buf: ArrayVec::new(), model: Ghost(Seq::empty()) }
    }

    /// `ArrayVec::len`: the number of indices held, which is never above the
    /// capacity.
    #[verifier::external_body]
    pub(crate) fn len(&self) -> (n: usize)
        ensures
            n == self.items().len(),
            n <= N,
    {
        self.buf.len()
    }

    /// `ArrayVec::push`: puts `x` behind the indices held. The call panics on
    /// a full buffer, which `requires` leaves out.
    #[verifier::external_body]
    pub(crate) fn push(&mut self, x: usize)
        requires
            old(self).items().len() < N,
        ensures
            final(self).items() == old(self).items().push(x),
    {
        self.buf.push(x)
    }

    /// Indexing through `ArrayVec`'s `Deref` to a slice: the index at
    /// position `i`. Out of bounds the call panics, which `requires` leaves
    /// out.
    #[verifier::external_body]
    pub(crate) fn get(&self, i: usize) -> (x: usize)
        requires
            i < self.items().len(),
        ensures
            x == self.items()[i as int],
    {
        self.buf[i]
    }
}

} // verus!
