//! Merkle commitment over the column evaluations FRI queries.
//!
//! A root binds the prover to a fixed vector of leaves, and an authentication
//! path is what convinces a verifier that a claimed leaf really sits at a
//! claimed position under that root. So the code that matters is
//! [`verify_opening`].
//!
//! Generic over both the field and the [`Hasher`]: the tree never names a
//! concrete hash.
use vstd::prelude::*;

use crate::field::ZkField;
use crate::hash::{Digest, Hasher};

verus! {

/// `2^k`.
pub open spec fn two_pow(k: nat) -> nat
    decreases k,
{
    if k == 0 {
        1
    } else {
        2 * two_pow((k - 1) as nat)
    }
}

/// One level up: each pair of digests compressed into one.
pub open spec fn level_up<F: ZkField, H: Hasher<F>>(level: Seq<Seq<F>>) -> Seq<Seq<F>> {
    Seq::new(level.len() / 2, |j: int| H::spec_compress(level[2 * j], level[2 * j + 1]))
}

/// The root of the perfect tree over a level of digests.
pub open spec fn level_root<F: ZkField, H: Hasher<F>>(level: Seq<Seq<F>>) -> Seq<F>
    decreases level.len(),
{
    if level.len() <= 1 {
        level[0]
    } else {
        level_root::<F, H>(level_up::<F, H>(level))
    }
}

/// The leaf level over `size` positions: the leaves' digests, then the
/// digest of a single zero in each padding position.
pub open spec fn leaf_level<F: ZkField, H: Hasher<F>>(leaves: Seq<Seq<F>>, size: nat) -> Seq<Seq<F>> {
    Seq::new(
        size,
        |j: int|
            if j < leaves.len() {
                H::spec_hash(leaves[j])
            } else {
                H::spec_hash(seq![F::spec_zero()])
            },
    )
}

/// The index of a node's sibling: the other child of its parent.
pub open spec fn sibling(position: nat) -> nat {
    if position % 2 == 0 {
        position + 1
    } else {
        (position - 1) as nat
    }
}

/// The root an authentication path leads to: starting from `running` at
/// `position`, combine with each sibling in turn — as the left child on an
/// even position, the right child on an odd one — halving the position.
pub open spec fn path_root<F: ZkField, H: Hasher<F>>(running: Seq<F>, position: nat, siblings: Seq<Seq<F>>) -> Seq<F>
    decreases siblings.len(),
{
    if siblings.len() == 0 {
        running
    } else {
        let next = if position % 2 == 0 {
            H::spec_compress(running, siblings[0])
        } else {
            H::spec_compress(siblings[0], running)
        };
        path_root::<F, H>(next, position / 2, siblings.drop_first())
    }
}

/// The siblings of `position`'s path from level `l` up to the root.
pub open spec fn path_siblings<F>(layers: Seq<Seq<Seq<F>>>, l: nat, position: nat) -> Seq<Seq<F>>
    decreases layers.len() - l,
{
    if l + 1 >= layers.len() {
        Seq::empty()
    } else {
        seq![layers[l as int][sibling(position) as int]].add(path_siblings(layers, l + 1, position / 2))
    }
}

/// The digests of a tree's levels, leaves first.
pub open spec fn digests_view<F>(layer: Seq<Digest<F>>) -> Seq<Seq<F>> {
    Seq::new(layer.len(), |j: int| layer[j].0@)
}

/// A commitment to a vector of leaves: the root, plus the tree kept for
/// producing openings. Leaves are padded to a power of two with the digest of
/// the single zero element, so a path length is exactly `log2(n)`.
pub struct MerkleTree<F> {
    /// `layers[0]` is the leaves; `layers.last()` is a single-element root.
    layers: Vec<Vec<Digest<F>>>,
}

/// An authentication path: the sibling digest at each level from leaf to root.
#[derive(Clone, Debug, PartialEq, Eq)]
pub struct Opening<F> {
    pub index: usize,
    pub leaf: Vec<F>,
    pub siblings: Vec<Digest<F>>,
}

impl<F> Opening<F> {
    /// The siblings' digests.
    pub open spec fn sibling_view(&self) -> Seq<Seq<F>> {
        digests_view(self.siblings@)
    }
}

impl<F: ZkField> MerkleTree<F> {
    /// The digests of every level, leaves first.
    pub closed spec fn spec_layers(&self) -> Seq<Seq<Seq<F>>> {
        Seq::new(self.layers@.len(), |i: int| digests_view(self.layers@[i]@))
    }

    /// The root digest.
    pub open spec fn spec_root(&self) -> Seq<F> {
        self.spec_layers().last()[0]
    }

    /// The authentication path of leaf `index`.
    pub open spec fn spec_path(&self, index: nat) -> Seq<Seq<F>> {
        path_siblings(self.spec_layers(), 0, index)
    }

    /// The levels halve from a power-of-two leaf level down to one root.
    pub open spec fn shaped(&self) -> bool {
        let layers = self.spec_layers();
        &&& layers.len() >= 1
        &&& forall|i: int| 0 <= i < layers.len() ==> #[trigger] layers[i].len() == two_pow((layers.len() - 1 - i) as nat)
    }

    /// A perfect tree under `H`: shaped, and every node the compression of
    /// its two children.
    pub open spec fn wf<H: Hasher<F>>(&self) -> bool {
        let layers = self.spec_layers();
        &&& self.shaped()
        &&& forall|i: int, j: int| 0 <= i < layers.len() - 1 && 0 <= j < layers[i + 1].len() ==> #[trigger] layers[i + 1][j]
            == H::spec_compress(layers[i][2 * j], layers[i][2 * j + 1])
    }

    /// A perfect tree's root is the root of its leaf level.
    pub proof fn lemma_root_of_leaf_level<H: Hasher<F>>(&self)
        requires
            self.wf::<H>(),
        ensures
            self.spec_root() == level_root::<F, H>(self.spec_layers()[0]),
    {
        self.lemma_root_from::<H>(0);
    }

    proof fn lemma_root_from<H: Hasher<F>>(&self, k: nat)
        requires
            self.wf::<H>(),
            k < self.spec_layers().len(),
        ensures
            level_root::<F, H>(self.spec_layers()[k as int]) == self.spec_root(),
        decreases self.spec_layers().len() - k,
    {
        let layers = self.spec_layers();
        let top = layers.len() - 1;
        if k == top {
            assert(layers[k as int].len() == two_pow(0));
            assert(two_pow(0) == 1);
            assert(layers.last() == layers[k as int]);
        } else {
            crate::fft::lemma_two_pow_pos((top - k - 1) as nat);
            self.lemma_root_from::<H>(k + 1);
            let e = (top - k - 1) as nat;
            assert(layers[k as int].len() == two_pow(e + 1));
            assert(layers[k as int + 1].len() == two_pow(e));
            assert(two_pow(e + 1) == 2 * two_pow(e));
            assert(level_up::<F, H>(layers[k as int]) =~= layers[k as int + 1]);
        }
    }

    /// Commit to one leaf per row. Each leaf is itself a slice of field
    /// elements (a row across committed columns), hashed to a digest.
    pub fn commit<H: Hasher<F>>(leaves: &[Vec<F>]) -> (tree: Self)
        requires
            leaves@.len() > 0,
            leaves@.len() * 2 <= usize::MAX,
        ensures
            tree.wf::<H>(),
            // The leaf level is the power of two in `[n, 2n)`.
            leaves@.len() <= tree.spec_layers()[0].len() < 2 * leaves@.len(),
            forall|j: int| 0 <= j < leaves@.len() ==> #[trigger] tree.spec_layers()[0][j] == H::spec_hash(leaves@[j]@),
            forall|j: int| leaves@.len() <= j < tree.spec_layers()[0].len() ==> #[trigger] tree.spec_layers()[0][j]
                == H::spec_hash(seq![F::spec_zero()]),
    {
        // Pad to a power of two so the tree is perfect and paths are uniform.
        let n = leaves.len();
        let mut padded: usize = 1;
        let mut depth: usize = 0;
        while padded < n
            invariant
                n == leaves@.len(),
                n * 2 <= usize::MAX,
                1 <= padded,
                padded == two_pow(depth as nat),
                padded < 2 * n,
                depth <= padded,
            decreases 2 * n - padded,
        {
            padded = padded * 2;
            depth = depth + 1;
        }
        let mut level: Vec<Digest<F>> = Vec::new();
        let mut j: usize = 0;
        while j < n
            invariant
                n == leaves@.len(),
                j <= n,
                level@.len() == j,
                forall|k: int| 0 <= k < j ==> #[trigger] level@[k].0@ == H::spec_hash(leaves@[k]@),
                forall|k: int| 0 <= k < j ==> (#[trigger] level@[k]).0@.len() == H::WIDTH,
            decreases n - j,
        {
            level.push(H::hash(leaves[j].as_slice()));
            j = j + 1;
        }
        let zero_input: [F; 1] = [F::zero()];
        assert(zero_input@ =~= seq![F::spec_zero()]);
        while j < padded
            invariant
                n == leaves@.len(),
                n <= j <= padded,
                zero_input@ == seq![F::spec_zero()],
                level@.len() == j,
                forall|k: int| 0 <= k < n ==> #[trigger] level@[k].0@ == H::spec_hash(leaves@[k]@),
                forall|k: int| n <= k < j ==> #[trigger] level@[k].0@ == H::spec_hash(seq![F::spec_zero()]),
            decreases padded - j,
        {
            level.push(H::hash(&zero_input));
            j = j + 1;
        }
        let ghost leaf_level = digests_view(level@);

        let mut layers: Vec<Vec<Digest<F>>> = Vec::new();
        let mut current = level;
        let mut t: usize = 0;
        while t < depth
            invariant
                t <= depth,
                layers@.len() == t,
                current@.len() == two_pow((depth - t) as nat),
                forall|i: int| 0 <= i < t ==> #[trigger] layers@[i]@.len() == two_pow((depth - i) as nat),
                t == 0 ==> digests_view(current@) == leaf_level,
                t > 0 ==> digests_view(layers@[0]@) == leaf_level,
                forall|i: int, k: int| 0 <= i < t - 1 && 0 <= k < layers@[i + 1]@.len() ==> #[trigger] layers@[i + 1]@[k].0@
                    == H::spec_compress(layers@[i]@[2 * k].0@, layers@[i]@[2 * k + 1].0@),
                t > 0 ==> forall|k: int| 0 <= k < current@.len() ==> #[trigger] current@[k].0@ == H::spec_compress(
                    layers@[t - 1]@[2 * k].0@,
                    layers@[t - 1]@[2 * k + 1].0@,
                ),
            decreases depth - t,
        {
            let len = current.len();
            let half = len / 2;
            proof {
                assert(two_pow((depth - t) as nat) == 2 * two_pow((depth - t - 1) as nat));
            }
            let mut next: Vec<Digest<F>> = Vec::new();
            let mut k: usize = 0;
            while k < half
                invariant
                    k <= half,
                    half * 2 == current@.len(),
                    half * 2 <= usize::MAX,
                    next@.len() == k,
                    forall|m: int| 0 <= m < k ==> #[trigger] next@[m].0@ == H::spec_compress(current@[2 * m].0@, current@[2 * m + 1].0@),
                decreases half - k,
            {
                next.push(H::compress(&current[2 * k], &current[2 * k + 1]));
                k = k + 1;
            }
            let ghost before = layers@;
            layers.push(current);
            proof {
                assert forall|i: int, m: int| 0 <= i < t && 0 <= m < layers@[i + 1]@.len() implies #[trigger] layers@[i + 1]@[m].0@
                    == H::spec_compress(layers@[i]@[2 * m].0@, layers@[i]@[2 * m + 1].0@) by {
                    if i < t - 1 {
                        assert(layers@[i + 1] == before[i + 1]);
                    }
                    assert(layers@[i] == before[i] || i == t);
                }
            }
            current = next;
            t = t + 1;
        }
        let ghost before = layers@;
        layers.push(current);
        let tree = MerkleTree { layers };
        proof {
            let view = tree.spec_layers();
            assert(view.len() == depth + 1);
            assert forall|i: int| 0 <= i < view.len() implies #[trigger] view[i].len() == two_pow((view.len() - 1 - i) as nat) by {
                if i < depth {
                    assert(layers@[i] == before[i]);
                }
            }
            assert forall|i: int, m: int| 0 <= i < view.len() - 1 && 0 <= m < view[i + 1].len() implies #[trigger] view[i + 1][m]
                == H::spec_compress(view[i][2 * m], view[i][2 * m + 1]) by {
                assert(layers@[i + 1]@[m].0@ == H::spec_compress(layers@[i]@[2 * m].0@, layers@[i]@[2 * m + 1].0@));
            }
            assert(view[0] == leaf_level);
        }
        tree
    }

    pub fn root(&self) -> (r: Digest<F>)
        requires
            self.shaped(),
        ensures
            r.0@ == self.spec_root(),
    {
        let last = self.layers.len() - 1;
        proof {
            assert(self.spec_layers()[last as int].len() == two_pow(0));
        }
        self.layers[last][0].duplicate()
    }

    /// Produce the opening for a leaf: its value and the sibling at each level.
    pub fn open(&self, index: usize, leaf: &[F]) -> (r: Opening<F>)
        requires
            self.shaped(),
            index < self.spec_layers()[0].len(),
        ensures
            r.index == index,
            r.leaf@ == leaf@,
            r.sibling_view() == self.spec_path(index as nat),
    {
        let ghost layers = self.spec_layers();
        let mut siblings: Vec<Digest<F>> = Vec::new();
        let mut position = index;
        let mut l: usize = 0;
        let levels = self.layers.len() - 1;
        proof {
            assert(layers.len() == levels + 1);
        }
        while l < levels
            invariant
                self.shaped(),
                layers == self.spec_layers(),
                layers.len() == levels + 1,
                l <= levels,
                position < layers[l as int].len(),
                path_siblings(layers, 0, index as nat) == digests_view(siblings@).add(path_siblings(layers, l as nat, position as nat)),
            decreases levels - l,
        {
            // Sibling is the other child of this node's parent.
            let ghost p = position;
            proof {
                assert(layers[l as int].len() == two_pow((levels - l) as nat));
                assert(layers[l as int + 1].len() == two_pow((levels - l - 1) as nat));
                assert(two_pow((levels - l) as nat) == 2 * two_pow((levels - l - 1) as nat));
                assert(position % 2 == 0 ==> position ^ 1 == position + 1) by (bit_vector);
                assert(position % 2 == 1 ==> position ^ 1 == position - 1) by (bit_vector);
                assert(position >> 1 == position / 2) by (bit_vector);
            }
            let sibling_index = position ^ 1;
            let sibling_digest = self.layers[l][sibling_index].duplicate();
            let ghost before = siblings@;
            siblings.push(sibling_digest);
            proof {
                assert(digests_view(siblings@) =~= digests_view(before).push(layers[l as int][sibling(p as nat) as int]));
                assert(path_siblings(layers, l as nat, p as nat) == seq![layers[l as int][sibling(p as nat) as int]].add(
                    path_siblings(layers, l as nat + 1, p as nat / 2),
                ));
                assert(digests_view(before).add(path_siblings(layers, l as nat, p as nat)) =~= digests_view(siblings@).add(
                    path_siblings(layers, l as nat + 1, p as nat / 2),
                ));
            }
            position = position >> 1;
            l = l + 1;
        }
        assert(path_siblings(layers, levels as nat, position as nat) =~= Seq::<Seq<F>>::empty());
        assert(digests_view(siblings@).add(Seq::<Seq<F>>::empty()) =~= digests_view(siblings@));
        let mut leaf_copy: Vec<F> = Vec::new();
        let mut i: usize = 0;
        while i < leaf.len()
            invariant
                i <= leaf@.len(),
                leaf_copy@ == leaf@.subrange(0, i as int),
            decreases leaf@.len() - i,
        {
            leaf_copy.push(leaf[i]);
            i = i + 1;
        }
        assert(leaf_copy@ =~= leaf@);
        Opening { index, leaf: leaf_copy, siblings }
    }
}

/// Walking up from level `l`: an honest path from any node of a perfect tree
/// leads to its root.
proof fn lemma_path_to_root<F: ZkField, H: Hasher<F>>(tree: MerkleTree<F>, l: nat, position: nat)
    requires
        tree.wf::<H>(),
        l < tree.spec_layers().len(),
        position < tree.spec_layers()[l as int].len(),
    ensures
        path_root::<F, H>(tree.spec_layers()[l as int][position as int], position, path_siblings(tree.spec_layers(), l, position))
            == tree.spec_root(),
    decreases tree.spec_layers().len() - l,
{
    let layers = tree.spec_layers();
    let top = layers.len() - 1;
    if l + 1 >= layers.len() {
        assert(layers[l as int].len() == two_pow(0));
    } else {
        let sibs = path_siblings(layers, l, position);
        let rest = path_siblings(layers, l + 1, position / 2);
        assert(sibs[0] == layers[l as int][sibling(position) as int]);
        assert(sibs.drop_first() =~= rest);
        assert(layers[l as int].len() == two_pow((top - l) as nat));
        assert(layers[l as int + 1].len() == two_pow((top - l - 1) as nat));
        assert(two_pow((top - l) as nat) == 2 * two_pow((top - l - 1) as nat));
        let parent = position / 2;
        assert(layers[l as int + 1][parent as int] == H::spec_compress(layers[l as int][2 * parent as int], layers[l as int][2 * parent as int + 1]));
        lemma_path_to_root::<F, H>(tree, l + 1, parent);
    }
}

/// An honest opening of a committed tree leads back to its root: the
/// recomputation `verify_opening` performs on a leaf whose digest sits at
/// `index`, with the path `open` produces, yields the committed root.
pub proof fn law_honest_path_reaches_root<F: ZkField, H: Hasher<F>>(tree: MerkleTree<F>, index: nat, leaf: Seq<F>)
    requires
        tree.wf::<H>(),
        index < tree.spec_layers()[0].len(),
        H::spec_hash(leaf) == tree.spec_layers()[0][index as int],
    ensures
        path_root::<F, H>(H::spec_hash(leaf), index, tree.spec_path(index)) == tree.spec_root(),
{
    lemma_path_to_root::<F, H>(tree, 0, index);
}

/// Recompute the root from an opening and compare. This is the whole security
/// check: a verifier that holds only the root can confirm a leaf without ever
/// seeing the tree.
pub fn verify_opening<F: ZkField, H: Hasher<F>>(root: &Digest<F>, opening: &Opening<F>) -> (r: bool)
    ensures
        r == (path_root::<F, H>(H::spec_hash(opening.leaf@), opening.index as nat, opening.sibling_view()) == root.0@),
{
    let mut running = H::hash(opening.leaf.as_slice());
    let mut position = opening.index;
    let mut i: usize = 0;
    assert(opening.sibling_view().subrange(0, opening.siblings@.len() as int) =~= opening.sibling_view());
    while i < opening.siblings.len()
        invariant
            i <= opening.siblings@.len(),
            path_root::<F, H>(H::spec_hash(opening.leaf@), opening.index as nat, opening.sibling_view()) == path_root::<F, H>(
                running.0@,
                position as nat,
                opening.sibling_view().subrange(i as int, opening.siblings@.len() as int),
            ),
        decreases opening.siblings@.len() - i,
    {
        let ghost rest = opening.sibling_view().subrange(i as int, opening.siblings@.len() as int);
        assert(rest.drop_first() =~= opening.sibling_view().subrange(i as int + 1, opening.siblings@.len() as int));
        assert(rest[0] == opening.siblings@[i as int].0@);
        let sibling = &opening.siblings[i];
        proof {
            assert((position & 1 == 0) == (position % 2 == 0)) by (bit_vector);
            assert(position >> 1 == position / 2) by (bit_vector);
        }
        // At each level, our node is the left child on an even index, the
        // right child on an odd one; compose accordingly.
        running = if position & 1 == 0 {
            H::compress(&running, sibling)
        } else {
            H::compress(sibling, &running)
        };
        position = position >> 1;
        i = i + 1;
    }
    assert(opening.sibling_view().subrange(opening.siblings@.len() as int, opening.siblings@.len() as int) =~= Seq::<Seq<F>>::empty());
    running.same(root)
}

} // verus!
