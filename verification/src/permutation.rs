//! A permutation of the numbers below `N`, kept together with its inverse.

use vstd::prelude::*;

verus! {

/// A permutation of `0..N` that can be read in both directions.
#[derive(Copy, Clone, Debug, PartialEq, Eq)]
pub struct Permutation<const N: usize> {
    forward: [u8; N],
    backward: [u8; N],
}

impl<const N: usize> Permutation<N> {
    /// The image of each number under the permutation.
    pub closed spec fn spec_forward(self) -> Seq<u8> {
        self.forward@
    }

    /// The number that each number is the image of.
    pub closed spec fn spec_backward(self) -> Seq<u8> {
        self.backward@
    }

    /// The two directions hold numbers below `N` and undo each other.
    pub open spec fn wf(self) -> bool {
        &&& N < 256
        &&& self.spec_forward().len() == N
        &&& self.spec_backward().len() == N
        &&& forall|i: int|
            0 <= i < N ==> (#[trigger] self.spec_forward()[i]) < N && self.spec_backward()[self.spec_forward()[i] as int]
                == i
        &&& forall|i: int|
            0 <= i < N ==> (#[trigger] self.spec_backward()[i]) < N && self.spec_forward()[self.spec_backward()[i] as int]
                == i
    }

    /// Every permutation that a program holds is well-formed.
    #[verifier::type_invariant]
    pub open spec fn inverse_invariant(self) -> bool {
        self.wf()
    }

    /// The permutation that leaves every number where it is.
    pub fn new() -> (r: Self)
        requires
            N < 256,
        ensures
            r.wf(),
            forall|i: int| 0 <= i < N ==> r.spec_forward()[i] == i && r.spec_backward()[i] == i,
    {
        let mut forward: [u8; N] = [0u8;N];
        let mut backward: [u8; N] = [0u8;N];
        let mut i: usize = 0;
        while i < N
            invariant
                N < 256,
                0 <= i <= N,
                forall|j: int| 0 <= j < i ==> forward@[j] == j && backward@[j] == j,
            decreases N - i,
        {
            forward[i] = i as u8;
            backward[i] = i as u8;
            i += 1;
        }
        Permutation { forward, backward }
    }

    /// The image of `pos`.
    pub fn forward(&self, pos: u8) -> (r: u8)
        requires
            pos < N,
        ensures
            r == self.spec_forward()[pos as int],
            r < N,
    {
        proof {
            use_type_invariant(self);
        }
        self.forward[pos as usize]
    }

    /// The number whose image is `pos`.
    pub fn backward(&self, pos: u8) -> (r: u8)
        requires
            pos < N,
        ensures
            r == self.spec_backward()[pos as int],
            r < N,
    {
        proof {
            use_type_invariant(self);
        }
        self.backward[pos as usize]
    }

    /// Swap the values of p(a) and p(b).
    pub fn swap(&mut self, a: u8, b: u8)
        requires
            a < N,
            b < N,
        ensures
            final(self).wf(),
            final(self).spec_forward() == old(self).spec_forward().update(
                a as int,
                old(self).spec_forward()[b as int],
            ).update(b as int, old(self).spec_forward()[a as int]),
    {
        proof {
            use_type_invariant(&*self);
        }
        let pa = self.forward(a);
        let pb = self.forward(b);

        let mut forward = self.forward;
        let mut backward = self.backward;
        forward[a as usize] = pb;
        forward[b as usize] = pa;
        backward[pa as usize] = b;
        backward[pb as usize] = a;
        *self = Permutation { forward, backward };
    }
}

} // verus!
