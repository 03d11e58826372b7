//! A fixed-geometry buffer of per-node channel values.
use vstd::prelude::*;

verus! {

/// A node index that lies outside the frame.
#[derive(Debug, Clone, Copy, PartialEq, Eq, Structural)]
pub struct IndexError {
    pub index: usize,
}

/// The complete light state of `N` nodes with `M` channels each.
#[derive(Debug, Clone, Copy)]
pub struct Frame<const N: usize, const M: usize> {
    pub data: [[u8; M]; N],
}

/// A frame of `n` nodes whose `m` channels are all zero.
pub open spec fn dark_frame(n: nat, m: nat) -> Seq<Seq<u8>> {
    Seq::new(n, |i: int| Seq::new(m, |j: int| 0u8))
}

impl<const N: usize, const M: usize> View for Frame<N, M> {
    type V = Seq<Seq<u8>>;

    /// Node by node, the channel values.
    open spec fn view(&self) -> Seq<Seq<u8>> {
        Seq::new(N as nat, |i: int| self.data@[i]@)
    }
}

impl<const N: usize, const M: usize> Frame<N, M> {
    /// A frame with every channel of every node off.
    pub fn new() -> (r: Self)
        ensures
            r@ == dark_frame(N as nat, M as nat),
    {
        let r = Frame { data: [[0u8; M]; N] };
        assert(r@ =~= dark_frame(N as nat, M as nat)) by {
            assert forall|i: int| 0 <= i < N implies r@[i] =~= dark_frame(N as nat, M as nat)[i] by {}
        }
        r
    }

    /// Replaces the channels of node `idx`; an index outside the frame changes nothing.
    pub fn set_node(&mut self, idx: usize, values: [u8; M]) -> (r: Result<(), IndexError>)
        ensures
            idx < N ==> r is Ok && final(self)@ == old(self)@.update(idx as int, values@),
            idx >= N ==> r == Err::<(), IndexError>(IndexError { index: idx }) && *final(self) == *old(self),
    {
        if idx < N {
            self.data[idx] = values;
            assert(self@ =~= old(self)@.update(idx as int, values@));
            Ok(())
        } else {
            Err(IndexError { index: idx })
        }
    }

    /// The channels of node `idx`.
    pub fn get_node(&self, idx: usize) -> (r: Result<[u8; M], IndexError>)
        ensures
            idx < N ==> r is Ok && r->Ok_0@ == self@[idx as int],
            idx >= N ==> r == Err::<[u8; M], IndexError>(IndexError { index: idx }),
    {
        if idx < N {
            Ok(self.data[idx])
        } else {
            Err(IndexError { index: idx })
        }
    }
}

/// Writing a node and reading it back gives exactly what was written,
/// and leaves every other node as it was.
pub proof fn lemma_set_then_get<const N: usize, const M: usize>(
    before: Frame<N, M>,
    after: Frame<N, M>,
    idx: usize,
    values: [u8; M],
)
    requires
        idx < N,
        after@ == before@.update(idx as int, values@),
    ensures
        after@[idx as int] == values@,
        forall|j: int| 0 <= j < N && j != idx ==> after@[j] == before@[j],
{
}

} // verus!
