//! The hash interface a STARK is built on.
//!
//! A FRI-based STARK's only cryptographic assumption is its hash: the Merkle
//! commitment and the Fiat–Shamir transcript both rest on it, and nothing
//! else. So the commitment and the transcript are written against this trait,
//! never against a concrete function; swapping in a reviewed arithmetic hash
//! is a leaf change, because everything above only ever calls
//! [`Hasher::hash`] and [`Hasher::compress`].
//!
//! The interface is the sponge-and-compression shape every arithmetic hash
//! offers: `hash` absorbs a variable-length slice (leaves, transcript
//! messages), `compress` combines two fixed-size digests (internal Merkle
//! nodes).
use vstd::prelude::*;

use crate::field::ZkField;

verus! {

/// A hash over field elements, producing fixed-width digests over the same
/// field. A hash is a function: the same input always gives the same digest,
/// which is what `spec_hash` and `spec_compress` name.
pub trait Hasher<F: ZkField>: Clone + Sized {
    /// Digest width, in field elements.
    const WIDTH: usize;

    /// The digest of an input. A hasher names its digest function here;
    /// generic code sees only that it is a function.
    closed spec fn spec_hash(input: Seq<F>) -> Seq<F> {
        arbitrary()
    }

    /// The digest combining two digests.
    closed spec fn spec_compress(left: Seq<F>, right: Seq<F>) -> Seq<F> {
        arbitrary()
    }

    /// Absorb an arbitrary-length input into one digest, of canonical
    /// elements.
    fn hash(input: &[F]) -> (d: Digest<F>)
        ensures
            d.0@ == Self::spec_hash(input@),
            d.0@.len() == Self::WIDTH,
            forall|i: int| 0 <= i < d.0@.len() ==> (#[trigger] d.0@[i]).wf(),
    ;

    /// Combine two digests into one — the internal node of a Merkle tree.
    fn compress(left: &Digest<F>, right: &Digest<F>) -> (d: Digest<F>)
        ensures
            d.0@ == Self::spec_compress(left.0@, right.0@),
            d.0@.len() == Self::WIDTH,
    ;
}

/// A fixed-width hash output.
#[derive(Clone, PartialEq, Eq, Debug)]
pub struct Digest<F>(pub Vec<F>);

impl<F: ZkField> Digest<F> {
    pub fn elements(&self) -> (r: &[F])
        ensures
            r@ == self.0@,
    {
        self.0.as_slice()
    }

    /// An element-for-element copy.
    pub fn duplicate(&self) -> (r: Self)
        ensures
            r.0@ == self.0@,
    {
        let mut out: Vec<F> = Vec::new();
        let mut i: usize = 0;
        while i < self.0.len()
            invariant
                i <= self.0@.len(),
                out@ == self.0@.subrange(0, i as int),
            decreases self.0@.len() - i,
        {
            out.push(self.0[i]);
            i = i + 1;
        }
        assert(out@ =~= self.0@);
        Digest(out)
    }

    /// Whether two digests hold the same elements.
    pub fn same(&self, other: &Self) -> (r: bool)
        ensures
            r == (self.0@ == other.0@),
    {
        if self.0.len() != other.0.len() {
            return false;
        }
        let mut i: usize = 0;
        while i < self.0.len()
            invariant
                i <= self.0@.len(),
                self.0@.len() == other.0@.len(),
                forall|j: int| 0 <= j < i ==> self.0@[j] == other.0@[j],
            decreases self.0@.len() - i,
        {
            if !self.0[i].equals(other.0[i]) {
                return false;
            }
            i = i + 1;
        }
        assert(self.0@ =~= other.0@);
        true
    }
}

} // verus!
