//! Plonkish as AIR-style polynomial constraints.
//!
//! A STARK proves the Plonkish table as polynomials, not as a table checked row
//! by row. Interpolate each column over a domain `H` of `n` rows: the three
//! witness columns `a, b, c` and the five selectors each become a polynomial,
//! and the row identity becomes one polynomial
//!
//! ```text
//!   C(x) = q_L(x)·a(x) + q_R(x)·b(x) + q_O(x)·c(x) + q_M(x)·a(x)·b(x) + q_C(x)
//! ```
//!
//! that vanishes on all of `H` exactly when every gate holds.
//!
//! The wiring becomes a permutation. Each witness cell has a position; the copy
//! constraints partition positions into classes that must hold equal values;
//! a permutation `σ` that cycles each class witnesses the partition. This
//! module builds `σ` from the copy constraints.
//!
//! Fixed data only. The witness is separate ([`Trace`]): the selectors and the
//! wiring are properties of the circuit, while `a, b, c` are the prover's
//! secret.
use vstd::prelude::*;

use crate::field::{lemma_basics, ZkField};
use crate::merkle::two_pow;
use crate::plonkish::{honest_row, Cell, Column, Plonkish};

verus! {

/// The fixed, circuit-derived part of the arithmetization: selectors, wiring
/// permutation, and public-input positions, all over a power-of-two domain.
pub struct Air<F> {
    /// Domain size: rows padded to the next power of two, so an FFT exists.
    pub n: usize,
    /// The five selector columns, each length `n`, padded rows all-zero.
    pub q_l: Vec<F>,
    pub q_r: Vec<F>,
    pub q_o: Vec<F>,
    pub q_m: Vec<F>,
    pub q_c: Vec<F>,
    /// The wiring permutation on cell positions (see [`cell_position`]).
    /// `sigma[p]` is the next position in `p`'s equality class.
    pub sigma: Vec<usize>,
    /// Public inputs: `(claimed-value wire, cell position)`, binding order kept.
    pub public_positions: Vec<(u32, usize)>,
}

/// The prover's secret: the three witness columns over the same domain.
pub struct Trace<F> {
    pub a: Vec<F>,
    pub b: Vec<F>,
    pub c: Vec<F>,
}

/// The flat position of a cell: column-major over the padded domain.
pub open spec fn spec_cell_position(cell: Cell, n: nat) -> nat {
    (cell.column.spec_index() * n + cell.row) as nat
}

/// The flat position of a cell: column-major over the padded domain, so column
/// `k` occupies positions `[k·n, (k+1)·n)`. A single index space is what lets
/// the permutation `σ` cross columns.
pub fn cell_position(cell: Cell, n: usize) -> (r: usize)
    requires
        cell.row < n,
        3 * n <= usize::MAX,
    ensures
        r == spec_cell_position(cell, n as nat),
        r < 3 * n,
{
    let k = cell.column.index();
    proof {
        assert(k * n <= 2 * n) by (nonlinear_arith)
            requires
                k <= 2,
        ;
    }
    k * n + cell.row
}

/// The positions, in increasing order, below `i` whose class is `c`.
pub open spec fn members_upto(class: Seq<usize>, c: usize, i: nat) -> Seq<usize>
    decreases i,
{
    if i == 0 {
        Seq::empty()
    } else {
        let rest = members_upto(class, c, (i - 1) as nat);
        if class[i - 1] == c {
            rest.push((i - 1) as usize)
        } else {
            rest
        }
    }
}

/// A labelling of positions that gives both ends of every edge the same
/// label.
pub open spec fn respects(label: Seq<usize>, edges: Seq<(usize, usize)>) -> bool {
    forall|k: int| 0 <= k < edges.len() ==> label[(#[trigger] edges[k]).0 as int] == label[edges[k].1 as int]
}

/// `class` is the partition of `[0, total)` into the connected components of
/// `edges`: it respects every edge, and it is refined by every labelling that
/// does.
pub open spec fn components(class: Seq<usize>, edges: Seq<(usize, usize)>, total: nat) -> bool {
    &&& class.len() == total
    &&& forall|p: int| 0 <= p < total ==> #[trigger] class[p] < total
    &&& respects(class, edges)
    &&& forall|label: Seq<usize>, p: int, q: int|
        #![trigger respects(label, edges), class[p], class[q]]
        label.len() == total && respects(label, edges) && 0 <= p < total && 0 <= q < total && class[p] == class[q]
            ==> label[p] == label[q]
}

/// `sigma` cycles every class: the `j`-th member of a class, in increasing
/// position order, goes to the next one, and the last back to the first.
pub open spec fn cycles_classes(sigma: Seq<usize>, class: Seq<usize>, total: nat) -> bool {
    &&& sigma.len() == total
    &&& forall|c: int, j: int|
        #![trigger members_upto(class, c as usize, total)[j]]
        0 <= c < total && 0 <= j < members_upto(class, c as usize, total).len() ==> sigma[members_upto(
            class,
            c as usize,
            total,
        )[j] as int] == members_upto(class, c as usize, total)[(j + 1) % members_upto(class, c as usize, total).len() as int]
}

/// A union–find forest with, as ghost state, each element's class (its
/// root) and a rank that strictly grows towards the root.
struct UnionFind {
    parent: Vec<usize>,
    class: Ghost<Seq<usize>>,
    rank: Ghost<Seq<nat>>,
}

impl UnionFind {
    spec fn wf(&self, bound: nat) -> bool {
        let total = self.parent@.len();
        &&& self.class@.len() == total
        &&& self.rank@.len() == total
        &&& forall|x: int| 0 <= x < total ==> #[trigger] self.parent@[x] < total
        &&& forall|x: int| 0 <= x < total ==> (#[trigger] self.class@[x]) < total
        &&& forall|x: int| 0 <= x < total ==> #[trigger] self.class@[self.parent@[x] as int] == self.class@[x]
        &&& forall|x: int| 0 <= x < total ==> #[trigger] self.parent@[self.class@[x] as int] == self.class@[x]
        &&& forall|x: int| 0 <= x < total && #[trigger] self.parent@[x] == x ==> self.class@[x] == x
        &&& forall|x: int| 0 <= x < total && #[trigger] self.parent@[x] != x ==> {
            &&& self.rank@[x] < self.rank@[self.class@[x] as int]
            &&& self.rank@[x] < self.rank@[self.parent@[x] as int]
        }
        &&& forall|x: int| 0 <= x < total ==> #[trigger] self.rank@[x] <= bound
    }

    fn new(total: usize) -> (r: Self)
        ensures
            r.wf(0),
            r.parent@.len() == total,
            forall|x: int| 0 <= x < total ==> #[trigger] r.class@[x] == x,
    {
        let mut parent: Vec<usize> = Vec::new();
        let mut i: usize = 0;
        while i < total
            invariant
                i <= total,
                parent@.len() == i,
                forall|x: int| 0 <= x < i ==> #[trigger] parent@[x] == x,
            decreases total - i,
        {
            parent.push(i);
            i = i + 1;
        }
        UnionFind {
            parent,
            class: Ghost(Seq::new(total as nat, |x: int| x as usize)),
            rank: Ghost(Seq::new(total as nat, |x: int| 0nat)),
        }
    }

    /// The root of `x`'s tree, compressing the path to it.
    fn find(&mut self, x: usize, Ghost(bound): Ghost<nat>) -> (r: usize)
        requires
            old(self).wf(bound),
            x < old(self).parent@.len(),
        ensures
            final(self).wf(bound),
            final(self).parent@.len() == old(self).parent@.len(),
            final(self).class@ == old(self).class@,
            r == old(self).class@[x as int],
    {
        let mut root = x;
        while self.parent[root] != root
            invariant
                self.wf(bound),
                root < self.parent@.len(),
                self.class@[root as int] == self.class@[x as int],
            decreases bound - self.rank@[root as int],
        {
            root = self.parent[root];
        }
        let mut cur = x;
        while self.parent[cur] != root
            invariant
                self.wf(bound),
                self.parent@.len() == old(self).parent@.len(),
                self.class@ == old(self).class@,
                root < self.parent@.len(),
                cur < self.parent@.len(),
                self.parent@[root as int] == root,
                self.class@[root as int] == root,
                self.class@[cur as int] == root,
                root == old(self).class@[x as int],
            decreases bound - self.rank@[cur as int],
        {
            let next = self.parent[cur];
            self.parent.set(cur, root);
            cur = next;
        }
        root
    }

    /// Merge the classes of `a` and `b`.
    fn union(&mut self, a: usize, b: usize, Ghost(bound): Ghost<nat>)
        requires
            old(self).wf(bound),
            a < old(self).parent@.len(),
            b < old(self).parent@.len(),
        ensures
            final(self).wf(bound + 1),
            final(self).parent@.len() == old(self).parent@.len(),
            ({
                let (ca, cb) = (old(self).class@[a as int], old(self).class@[b as int]);
                final(self).class@ == Seq::new(
                    old(self).class@.len(),
                    |x: int| if old(self).class@[x] == ca { cb } else { old(self).class@[x] },
                )
            }),
    {
        let ra = self.find(a, Ghost(bound));
        let rb = self.find(b, Ghost(bound));
        let ghost old_class = self.class@;
        let ghost old_rank = self.rank@;
        let ghost old_parent = self.parent@;
        let ghost total = self.parent@.len();
        if ra != rb {
            self.parent.set(ra, rb);
            let ghost new_rank = if old_rank[ra as int] + 1 > old_rank[rb as int] {
                old_rank[ra as int] + 1
            } else {
                old_rank[rb as int]
            };
            proof {
                assert(ra == old_class[a as int] && rb == old_class[b as int]);
                assert(old_parent[old_class[a as int] as int] == old_class[a as int]);
                assert(old_parent[old_class[b as int] as int] == old_class[b as int]);
                assert(old_class[ra as int] == ra);
                assert(old_parent[ra as int] == ra && old_class[ra as int] == ra);
                assert(old_class[rb as int] == rb);
                assert(old_parent[rb as int] == rb && old_class[rb as int] == rb);
                self.class@ = Seq::new(total, |x: int| if old_class[x] == ra { rb } else { old_class[x] });
                self.rank@ = old_rank.update(rb as int, new_rank);
                assert(self.parent@ == old_parent.update(ra as int, rb));
                assert forall|x: int| 0 <= x < total implies #[trigger] self.rank@[x] <= bound + 1 by {}
                assert forall|x: int| 0 <= x < total implies (#[trigger] self.class@[x]) < total by {}
                assert forall|x: int| 0 <= x < total implies #[trigger] self.class@[self.parent@[x] as int] == self.class@[x] by {
                    if x != ra {
                        assert(old_class[old_parent[x] as int] == old_class[x]);
                    }
                }
                assert forall|x: int| 0 <= x < total implies #[trigger] self.parent@[self.class@[x] as int] == self.class@[x] by {
                    assert(old_parent[old_class[x] as int] == old_class[x]);
                }
                assert forall|x: int| 0 <= x < total && #[trigger] self.parent@[x] == x implies self.class@[x] == x by {
                    assert(x != ra);
                    assert(old_parent[x] == x);
                }
                assert forall|x: int| 0 <= x < total && #[trigger] self.parent@[x] != x implies {
                    &&& self.rank@[x] < self.rank@[self.class@[x] as int]
                    &&& self.rank@[x] < self.rank@[self.parent@[x] as int]
                } by {
                    if x == ra {
                        assert(self.rank@[x] == old_rank[ra as int]);
                    } else {
                        assert(old_parent[x] != x);
                        assert(x != rb);
                        assert(old_rank[x] < old_rank[old_class[x] as int]);
                        assert(old_rank[x] < old_rank[old_parent[x] as int]);
                    }
                }
            }
        } else {
            proof {
                assert(self.class@ =~= Seq::new(total, |x: int| if old_class[x] == ra { rb } else { old_class[x] }));
            }
        }
    }
}

/// The copy constraints as pairs of flat positions.
pub open spec fn copy_positions(copies: Seq<(Cell, Cell)>, n: nat) -> Seq<(usize, usize)> {
    Seq::new(
        copies.len(),
        |k: int| (spec_cell_position(copies[k].0, n) as usize, spec_cell_position(copies[k].1, n) as usize),
    )
}

/// Every element of `members_upto(class, c, i)` has class `c` and lies
/// below `i`, and the elements strictly increase.
proof fn lemma_members(class: Seq<usize>, c: usize, i: nat)
    requires
        i <= usize::MAX,
    ensures
        forall|j: int| 0 <= j < members_upto(class, c, i).len() ==> {
            &&& class[#[trigger] members_upto(class, c, i)[j] as int] == c
            &&& members_upto(class, c, i)[j] < i
        },
        forall|j1: int, j2: int| 0 <= j1 < j2 < members_upto(class, c, i).len() ==> #[trigger] members_upto(class, c, i)[j1]
            < #[trigger] members_upto(class, c, i)[j2],
    decreases i,
{
    if i > 0 {
        let i1 = (i - 1) as nat;
        lemma_members(class, c, i1);
        let rest = members_upto(class, c, i1);
        let m = members_upto(class, c, i);
        if class[i1 as int] == c {
            assert(m == rest.push(i1 as usize));
            assert forall|j: int| 0 <= j < m.len() implies {
                &&& class[#[trigger] m[j] as int] == c
                &&& m[j] < i
            } by {
                if j < rest.len() {
                    assert(m[j] == rest[j]);
                }
            }
            assert forall|j1: int, j2: int| 0 <= j1 < j2 < m.len() implies #[trigger] m[j1] < #[trigger] m[j2] by {
                assert(m[j1] == rest[j1]);
                if j2 < rest.len() {
                    assert(m[j2] == rest[j2]);
                }
            }
        } else {
            assert(m == rest);
        }
    }
}

/// One selector value per padded row: the row's, or zero past the last row.
pub open spec fn padded_selector<F: ZkField>(values: Seq<F>, n: nat) -> Seq<F> {
    Seq::new(n, |i: int| if i < values.len() { values[i] } else { F::spec_zero() })
}

/// The AIR extracted from a circuit: the domain is the padded row count,
/// the selectors are the rows' padded with zeros, `σ` cycles the classes of
/// cells the copy constraints tie together, and the public cells keep their
/// positions.
pub open spec fn air_of<F: ZkField>(circuit: Plonkish<F>, air: Air<F>) -> bool {
    &&& two_pow(crate::fft::log2(air.n as nat)) == air.n
    &&& air.n >= circuit.rows@.len()
    &&& air.n >= 1
    &&& (air.n < 2 * circuit.rows@.len() || air.n == 1)
    &&& air.sigma@.len() == 3 * air.n
    &&& forall|p: int| 0 <= p < 3 * air.n ==> #[trigger] air.sigma@[p] < 3 * air.n
    &&& air.q_l@ == padded_selector(circuit.rows@.map_values(|r: crate::plonkish::Row<F>| r.q_l), air.n as nat)
    &&& air.q_r@ == padded_selector(circuit.rows@.map_values(|r: crate::plonkish::Row<F>| r.q_r), air.n as nat)
    &&& air.q_o@ == padded_selector(circuit.rows@.map_values(|r: crate::plonkish::Row<F>| r.q_o), air.n as nat)
    &&& air.q_m@ == padded_selector(circuit.rows@.map_values(|r: crate::plonkish::Row<F>| r.q_m), air.n as nat)
    &&& air.q_c@ == padded_selector(circuit.rows@.map_values(|r: crate::plonkish::Row<F>| r.q_c), air.n as nat)
    &&& exists|class: Seq<usize>|
        #[trigger] components(class, copy_positions(circuit.copies@, air.n as nat), 3 * air.n as nat) && cycles_classes(
            air.sigma@,
            class,
            3 * air.n as nat,
        )
    &&& air.public_positions@.len() == circuit.public_cells@.len()
    &&& forall|k: int| 0 <= k < air.public_positions@.len() ==> #[trigger] air.public_positions@[k] == (
        circuit.public_cells@[k].0,
        spec_cell_position(circuit.public_cells@[k].1, air.n as nat) as usize,
    )
}

impl<F: ZkField> Air<F> {
    /// Extract the fixed arithmetization from a lowered Plonkish circuit.
    pub fn from_plonkish(circuit: &Plonkish<F>) -> (air: Self)
        requires
            circuit.rows@.len() * 6 <= usize::MAX,
            forall|n: nat| #[trigger] is_domain_for(n, circuit.rows@.len()) ==> circuit.copies_within(n),
            forall|n: nat, k: int|
                #![trigger is_domain_for(n, circuit.rows@.len()), circuit.public_cells@[k]]
                is_domain_for(n, circuit.rows@.len()) && 0 <= k < circuit.public_cells@.len() ==> circuit.public_cells@[k].1.row < n,
        ensures
            air_of(*circuit, air),
    {
        let rows = circuit.num_rows();
        let n = padded_rows(rows);
        assert(circuit.copies_within(n as nat));
        assert forall|k: int| 0 <= k < circuit.public_cells@.len() implies (#[trigger] circuit.public_cells@[k]).1.row < n by {
            assert(is_domain_for(n as nat, circuit.rows@.len()));
        }

        let mut q_l: Vec<F> = Vec::new();
        let mut q_r: Vec<F> = Vec::new();
        let mut q_o: Vec<F> = Vec::new();
        let mut q_m: Vec<F> = Vec::new();
        let mut q_c: Vec<F> = Vec::new();
        let ghost rs = circuit.rows@;
        let mut i: usize = 0;
        while i < n
            invariant
                i <= n,
                rows == rs.len(),
                rows <= n,
                rs == circuit.rows@,
                q_l@ == padded_selector(rs.map_values(|r: crate::plonkish::Row<F>| r.q_l), n as nat).subrange(0, i as int),
                q_r@ == padded_selector(rs.map_values(|r: crate::plonkish::Row<F>| r.q_r), n as nat).subrange(0, i as int),
                q_o@ == padded_selector(rs.map_values(|r: crate::plonkish::Row<F>| r.q_o), n as nat).subrange(0, i as int),
                q_m@ == padded_selector(rs.map_values(|r: crate::plonkish::Row<F>| r.q_m), n as nat).subrange(0, i as int),
                q_c@ == padded_selector(rs.map_values(|r: crate::plonkish::Row<F>| r.q_c), n as nat).subrange(0, i as int),
            decreases n - i,
        {
            if i < rows {
                let row = &circuit.rows[i];
                q_l.push(row.q_l);
                q_r.push(row.q_r);
                q_o.push(row.q_o);
                q_m.push(row.q_m);
                q_c.push(row.q_c);
            } else {
                q_l.push(F::zero());
                q_r.push(F::zero());
                q_o.push(F::zero());
                q_m.push(F::zero());
                q_c.push(F::zero());
            }
            proof {
                assert(q_l@ =~= padded_selector(rs.map_values(|r: crate::plonkish::Row<F>| r.q_l), n as nat).subrange(0, i as int + 1));
                assert(q_r@ =~= padded_selector(rs.map_values(|r: crate::plonkish::Row<F>| r.q_r), n as nat).subrange(0, i as int + 1));
                assert(q_o@ =~= padded_selector(rs.map_values(|r: crate::plonkish::Row<F>| r.q_o), n as nat).subrange(0, i as int + 1));
                assert(q_m@ =~= padded_selector(rs.map_values(|r: crate::plonkish::Row<F>| r.q_m), n as nat).subrange(0, i as int + 1));
                assert(q_c@ =~= padded_selector(rs.map_values(|r: crate::plonkish::Row<F>| r.q_c), n as nat).subrange(0, i as int + 1));
            }
            i = i + 1;
        }

        // Build σ from the copy constraints. Union the positions each copy ties
        // together into equality classes, then make σ a single cycle per class.
        let total = 3 * n;
        let ghost edges = copy_positions(circuit.copies@, n as nat);
        let mut uf = UnionFind::new(total);
        let mut e: usize = 0;
        while e < circuit.copies.len()
            invariant
                e <= circuit.copies@.len(),
                total == 3 * n,
                3 * n <= usize::MAX,
                rows <= n,
                rows == circuit.rows@.len(),
                circuit.copies_within(n as nat),
                edges == copy_positions(circuit.copies@, n as nat),
                uf.wf(e as nat),
                uf.parent@.len() == total,
                forall|p: int| 0 <= p < total ==> (#[trigger] uf.class@[p]) < total,
                respects(uf.class@, edges.subrange(0, e as int)),
                forall|label: Seq<usize>, p: int, q: int|
                    #![trigger respects(label, edges.subrange(0, e as int)), uf.class@[p], uf.class@[q]]
                    label.len() == total && respects(label, edges.subrange(0, e as int)) && 0 <= p < total && 0 <= q < total
                        && uf.class@[p] == uf.class@[q] ==> label[p] == label[q],
            decreases circuit.copies@.len() - e,
        {
            let (left, right) = circuit.copies[e];
            let pl = cell_position(left, n);
            let pr = cell_position(right, n);
            let ghost old_class = uf.class@;
            let ghost ca = old_class[pl as int];
            let ghost cb = old_class[pr as int];
            uf.union(pl, pr, Ghost(e as nat));
            proof {
                let next = edges.subrange(0, e as int + 1);
                let prev = edges.subrange(0, e as int);
                assert(next[e as int] == (pl, pr));
                assert forall|t: int| 0 <= t < next.len() implies uf.class@[(#[trigger] next[t]).0 as int] == uf.class@[next[t].1 as int] by {
                    if t < e {
                        assert(prev[t] == next[t]);
                        assert(old_class[prev[t].0 as int] == old_class[prev[t].1 as int]);
                    }
                }
                assert forall|label: Seq<usize>, p: int, q: int|
                    #![trigger respects(label, next), uf.class@[p], uf.class@[q]]
                    label.len() == total && respects(label, next) && 0 <= p < total && 0 <= q < total
                        && uf.class@[p] == uf.class@[q] implies label[p] == label[q] by {
                    assert forall|t: int| 0 <= t < prev.len() implies label[(#[trigger] prev[t]).0 as int] == label[prev[t].1 as int] by {
                        assert(prev[t] == next[t]);
                    }
                    assert(respects(label, prev));
                    assert(label[pl as int] == label[pr as int]);
                    if old_class[p] == ca {
                        assert(label[p] == label[pl as int]);
                    }
                    if old_class[q] == ca {
                        assert(label[q] == label[pl as int]);
                    }
                    if old_class[p] == cb {
                        assert(label[p] == label[pr as int]);
                    }
                    if old_class[q] == cb {
                        assert(label[q] == label[pr as int]);
                    }
                    if old_class[p] != ca && old_class[q] != ca {
                        assert(old_class[p] == old_class[q]);
                    }
                }
            }
            e = e + 1;
        }
        let ghost class = uf.class@;
        proof {
            assert(edges.subrange(0, circuit.copies@.len() as int) =~= edges);
        }

        // Group positions by class, in increasing position order.
        let mut members: Vec<Vec<usize>> = Vec::new();
        let mut p: usize = 0;
        while p < total
            invariant
                p <= total,
                members@.len() == p,
                forall|c: int| 0 <= c < p ==> (#[trigger] members@[c])@.len() == 0,
            decreases total - p,
        {
            members.push(Vec::new());
            p = p + 1;
        }
        let mut p: usize = 0;
        while p < total
            invariant
                p <= total,
                uf.wf(circuit.copies@.len() as nat),
                uf.parent@.len() == total,
                uf.class@ == class,
                forall|x: int| 0 <= x < total ==> (#[trigger] class[x]) < total,
                members@.len() == total,
                forall|c: int| 0 <= c < total ==> (#[trigger] members@[c])@ == members_upto(class, c as usize, p as nat),
            decreases total - p,
        {
            let root = uf.find(p, Ghost(circuit.copies@.len() as nat));
            let mut list = Vec::new();
            std::mem::swap(&mut list, &mut members[root]);
            list.push(p);
            members.set(root, list);
            proof {
                assert forall|c: int| 0 <= c < total implies (#[trigger] members@[c])@ == members_upto(class, c as usize, p as nat + 1) by {}
            }
            p = p + 1;
        }

        let mut sigma: Vec<usize> = Vec::new();
        let mut p: usize = 0;
        while p < total
            invariant
                p <= total,
                sigma@.len() == p,
                forall|x: int| 0 <= x < p ==> #[trigger] sigma@[x] < total,
            decreases total - p,
        {
            sigma.push(p);
            p = p + 1;
        }
        let mut c: usize = 0;
        while c < total
            invariant
                c <= total,
                sigma@.len() == total,
                forall|x: int| 0 <= x < total ==> #[trigger] sigma@[x] < total,
                members@.len() == total,
                forall|x: int| 0 <= x < total ==> (#[trigger] class[x]) < total,
                forall|d: int| 0 <= d < total ==> (#[trigger] members@[d])@ == members_upto(class, d as usize, total as nat),
                forall|d: int, j: int|
                    #![trigger members_upto(class, d as usize, total as nat)[j]]
                    0 <= d < c && 0 <= j < members_upto(class, d as usize, total as nat).len() ==> sigma@[members_upto(
                        class,
                        d as usize,
                        total as nat,
                    )[j] as int] == members_upto(class, d as usize, total as nat)[(j + 1) % members_upto(
                        class,
                        d as usize,
                        total as nat,
                    ).len() as int],
            decreases total - c,
        {
            let list = &members[c];
            let size = list.len();
            let ghost m = members_upto(class, c, total as nat);
            proof {
                lemma_members(class, c, total as nat);
            }
            let mut i: usize = 0;
            while i < size
                invariant
                    i <= size,
                    c < total,
                    size == m.len(),
                    list@ == m,
                    m == members_upto(class, c, total as nat),
                    sigma@.len() == total,
                    forall|x: int| 0 <= x < total ==> #[trigger] sigma@[x] < total,
                    forall|x: int| 0 <= x < total ==> (#[trigger] class[x]) < total,
                    forall|j: int| 0 <= j < m.len() ==> {
                        &&& class[#[trigger] m[j] as int] == c
                        &&& m[j] < total
                    },
                    forall|j1: int, j2: int| 0 <= j1 < j2 < m.len() ==> #[trigger] m[j1] < #[trigger] m[j2],
                    forall|d: int, j: int|
                        #![trigger members_upto(class, d as usize, total as nat)[j]]
                        0 <= d < c && 0 <= j < members_upto(class, d as usize, total as nat).len() ==> sigma@[members_upto(
                            class,
                            d as usize,
                            total as nat,
                        )[j] as int] == members_upto(class, d as usize, total as nat)[(j + 1) % members_upto(
                            class,
                            d as usize,
                            total as nat,
                        ).len() as int],
                    forall|j: int| 0 <= j < i ==> sigma@[#[trigger] m[j] as int] == m[(j + 1) % (m.len() as int)],
                decreases size - i,
            {
                let target = list[(i + 1) % size];
                let ghost before = sigma@;
                sigma.set(list[i], target);
                proof {
                    assert forall|d: int, j: int|
                        #![trigger members_upto(class, d as usize, total as nat)[j]]
                        0 <= d < c && 0 <= j < members_upto(class, d as usize, total as nat).len() implies sigma@[members_upto(
                            class,
                            d as usize,
                            total as nat,
                        )[j] as int] == members_upto(class, d as usize, total as nat)[(j + 1) % members_upto(
                            class,
                            d as usize,
                            total as nat,
                        ).len() as int] by {
                        lemma_members(class, d as usize, total as nat);
                        assert(class[members_upto(class, d as usize, total as nat)[j] as int] == d);
                        assert(class[m[i as int] as int] == c);
                    }
                    assert forall|j: int| 0 <= j < i + 1 implies sigma@[#[trigger] m[j] as int] == m[(j + 1) % (m.len() as int)] by {
                        if j < i {
                            assert(m[j] < m[i as int]);
                        }
                    }
                }
                i = i + 1;
            }
            c = c + 1;
        }

        let mut public_positions: Vec<(u32, usize)> = Vec::new();
        let mut k2: usize = 0;
        while k2 < circuit.public_cells.len()
            invariant
                k2 <= circuit.public_cells@.len(),
                rows <= n,
                3 * n <= usize::MAX,
                rows == circuit.rows@.len(),
                forall|t: int| 0 <= t < circuit.public_cells@.len() ==> (#[trigger] circuit.public_cells@[t]).1.row < n,
                public_positions@.len() == k2,
                forall|t: int| 0 <= t < k2 ==> #[trigger] public_positions@[t] == (
                    circuit.public_cells@[t].0,
                    spec_cell_position(circuit.public_cells@[t].1, n as nat) as usize,
                ),
            decreases circuit.public_cells@.len() - k2,
        {
            let (wire, cell) = circuit.public_cells[k2];
            let position = cell_position(cell, n);
            public_positions.push((wire, position));
            k2 = k2 + 1;
        }

        let air = Air { n, q_l, q_r, q_o, q_m, q_c, sigma, public_positions };
        proof {
            assert(components(class, edges, total as nat));
            assert(cycles_classes(air.sigma@, class, total as nat));
            assert(total as nat == 3 * air.n as nat);
            assert(components(class, copy_positions(circuit.copies@, air.n as nat), 3 * air.n as nat));
            assert(cycles_classes(air.sigma@, class, 3 * air.n as nat));
            assert(q_l@ =~= padded_selector(rs.map_values(|r: crate::plonkish::Row<F>| r.q_l), n as nat));
            assert(q_r@ =~= padded_selector(rs.map_values(|r: crate::plonkish::Row<F>| r.q_r), n as nat));
            assert(q_o@ =~= padded_selector(rs.map_values(|r: crate::plonkish::Row<F>| r.q_o), n as nat));
            assert(q_m@ =~= padded_selector(rs.map_values(|r: crate::plonkish::Row<F>| r.q_m), n as nat));
            assert(q_c@ =~= padded_selector(rs.map_values(|r: crate::plonkish::Row<F>| r.q_c), n as nat));
        }
        air
    }
}

/// `log2(2^k) = k`.
pub proof fn lemma_log2_of_two_pow(k: nat)
    ensures
        crate::fft::log2(two_pow(k)) == k,
    decreases k,
{
    if k > 0 {
        lemma_log2_of_two_pow((k - 1) as nat);
        crate::fft::lemma_two_pow_pos((k - 1) as nat);
        assert(two_pow(k) / 2 == two_pow((k - 1) as nat));
    }
}

/// `n` is the padded domain for `rows` rows: the least power of two that is
/// at least `rows` and at least one.
pub open spec fn is_domain_for(n: nat, rows: nat) -> bool {
    &&& two_pow(crate::fft::log2(n)) == n
    &&& n >= rows
    &&& n >= 1
    &&& (n < 2 * rows || n == 1)
}

/// There is only one padded domain for a row count.
pub proof fn lemma_domain_unique(n1: nat, n2: nat, rows: nat)
    requires
        is_domain_for(n1, rows),
        is_domain_for(n2, rows),
    ensures
        n1 == n2,
{
    let (a, b) = (crate::fft::log2(n1), crate::fft::log2(n2));
    if a < b {
        crate::fft::lemma_two_pow_mono(a + 1, b);
        assert(two_pow(a + 1) == 2 * two_pow(a));
    } else if b < a {
        crate::fft::lemma_two_pow_mono(b + 1, a);
        assert(two_pow(b + 1) == 2 * two_pow(b));
    }
}

/// The padded domain size for `rows` rows.
fn padded_rows(rows: usize) -> (n: usize)
    requires
        rows * 6 <= usize::MAX,
    ensures
        is_domain_for(n as nat, rows as nat),
        3 * n <= usize::MAX,
{
    let base: usize = if rows == 0 { 1 } else { rows };
    let mut n: usize = 1;
    let ghost mut k: nat = 0;
    proof {
        assert(two_pow(0) == 1);
    }
    while n < base
        invariant
            1 <= base,
            base * 6 <= usize::MAX || rows == 0,
            base == (if rows == 0 { 1 } else { rows }),
            n == two_pow(k),
            1 <= n,
            n < 2 * base,
        decreases 2 * base - n,
    {
        n = n * 2;
        proof {
            k = k + 1;
        }
    }
    proof {
        lemma_log2_of_two_pow(k);
    }
    n
}

/// The row identity from column values at one point.
pub open spec fn gate_at<F: ZkField>(a: F, b: F, c: F, ql: F, qr: F, qo: F, qm: F, qc: F) -> F {
    ql.spec_mul(a).spec_add(qr.spec_mul(b)).spec_add(qo.spec_mul(c)).spec_add(qm.spec_mul(a).spec_mul(b)).spec_add(qc)
}

/// The column labels' coset representatives: `1`, `7`, `49`.
pub open spec fn spec_column_reps<F: ZkField>() -> Seq<F> {
    seq![F::spec_one(), F::spec_from_u64(7), F::spec_from_u64(49)]
}

/// The witness columns of a circuit under `wire_values`: the assignment's
/// three columns over the padded domain, zero on the padding rows.
pub open spec fn trace_of<F: ZkField>(circuit: Plonkish<F>, wire_values: Seq<F>, t: Trace<F>) -> bool {
    &&& is_domain_for(t.a@.len(), circuit.rows@.len())
    &&& t.b@.len() == t.a@.len()
    &&& t.c@.len() == t.a@.len()
    &&& forall|i: int|
        0 <= i < t.a@.len() ==> {
            let row = if i < circuit.rows@.len() {
                circuit.spec_assignment(wire_values)[i]
            } else {
                seq![F::spec_zero(), F::spec_zero(), F::spec_zero()]
            };
            &&& #[trigger] t.a@[i] == row[0]
            &&& t.b@[i] == row[1]
            &&& t.c@[i] == row[2]
        }
}

impl<F: ZkField> Air<F> {
    /// The witness columns over the padded domain, from solved wire values.
    pub fn trace(circuit: &Plonkish<F>, wire_values: &[F]) -> (t: Trace<F>)
        requires
            circuit.cells_below(wire_values@.len()),
            circuit.rows@.len() * 6 <= usize::MAX,
        ensures
            trace_of(*circuit, wire_values@, t),
    {
        let assignment = circuit.assignment(wire_values);
        let rows = circuit.num_rows();
        assert(crate::plonkish::table_view(assignment@).len() == assignment@.len());
        let n = padded_rows(rows);
        let ghost table = circuit.spec_assignment(wire_values@);
        let mut a: Vec<F> = Vec::new();
        let mut b: Vec<F> = Vec::new();
        let mut c: Vec<F> = Vec::new();
        let mut i: usize = 0;
        while i < n
            invariant
                i <= n,
                rows <= n,
                rows == circuit.rows@.len(),
                assignment@.len() == rows,
                crate::plonkish::table_view(assignment@) == table,
                table == circuit.spec_assignment(wire_values@),
                a@.len() == i,
                b@.len() == i,
                c@.len() == i,
                forall|k: int| 0 <= k < i ==> {
                    let row = if k < rows {
                        table[k]
                    } else {
                        seq![F::spec_zero(), F::spec_zero(), F::spec_zero()]
                    };
                    &&& #[trigger] a@[k] == row[0]
                    &&& b@[k] == row[1]
                    &&& c@[k] == row[2]
                },
            decreases n - i,
        {
            let ghost ghost_a = a@;
            if i < rows {
                let values = &assignment[i];
                proof {
                    assert(table[i as int] == assignment@[i as int]@);
                    assert(table[i as int].len() == 3);
                }
                a.push(values[0]);
                b.push(values[1]);
                c.push(values[2]);
                proof {
                    assert(a@[i as int] == table[i as int][0]);
                    assert(b@[i as int] == table[i as int][1]);
                    assert(c@[i as int] == table[i as int][2]);
                }
            } else {
                a.push(F::zero());
                b.push(F::zero());
                c.push(F::zero());
                proof {
                    let z = seq![F::spec_zero(), F::spec_zero(), F::spec_zero()];
                    assert(z[0] == F::spec_zero() && z[1] == F::spec_zero() && z[2] == F::spec_zero());
                }
            }
            proof {
                assert forall|k: int| 0 <= k < i + 1 implies {
                    let row = if k < rows {
                        table[k]
                    } else {
                        seq![F::spec_zero(), F::spec_zero(), F::spec_zero()]
                    };
                    &&& #[trigger] a@[k] == row[0]
                    &&& b@[k] == row[1]
                    &&& c@[k] == row[2]
                } by {
                    if k < i {
                        assert(a@[k] == ghost_a[k]);
                    }
                }
            }
            i = i + 1;
        }
        proof {
            assert forall|k: int| 0 <= k < a@.len() implies {
                let row = if k < circuit.rows@.len() {
                    circuit.spec_assignment(wire_values@)[k]
                } else {
                    seq![F::spec_zero(), F::spec_zero(), F::spec_zero()]
                };
                &&& #[trigger] a@[k] == row[0]
                &&& b@[k] == row[1]
                &&& c@[k] == row[2]
            } by {
                let row = if k < rows {
                    table[k]
                } else {
                    seq![F::spec_zero(), F::spec_zero(), F::spec_zero()]
                };
                assert(a@[k] == row[0]);
            }
        }
        let t = Trace { a, b, c };
        assert(trace_of(*circuit, wire_values@, t));
        t
    }

    /// Evaluate the row identity from column values at one point. Zero means
    /// the row constraint holds there.
    pub fn gate_identity(&self, a: F, b: F, c: F, ql: F, qr: F, qo: F, qm: F, qc: F) -> (r: F)
        ensures
            r == gate_at(a, b, c, ql, qr, qo, qm, qc),
    {
        ql.mul(a).add(qr.mul(b)).add(qo.mul(c)).add(qm.mul(a).mul(b)).add(qc)
    }

    /// The three coset representatives that keep the columns' label ranges
    /// disjoint: column `j`'s identity labels live in `k[j] · <ω>`, and the
    /// three cosets `1·H`, `7·H`, `49·H` do not overlap.
    pub fn column_reps() -> (r: [F; 3])
        ensures
            r@ == spec_column_reps::<F>(),
    {
        let r = [F::one(), F::from_u64(7), F::from_u64(49)];
        assert(r@ =~= spec_column_reps::<F>());
        r
    }

    /// The identity and permutation label evaluations on `H`, per column.
    ///
    /// `id[j][i]` is the label of cell `(column j, row i)`; `sigma[j][i]` is the
    /// label of the cell that cell is wired to. A grand-product argument over
    /// the two multisets forces wired cells to hold equal values.
    pub fn permutation_label_evals(&self, omega_powers: &[F]) -> (r: ([Vec<F>; 3], [Vec<F>; 3]))
        requires
            omega_powers@.len() >= self.n,
            self.n >= 1,
            3 * self.n <= usize::MAX,
            self.sigma@.len() == 3 * self.n,
            forall|p: int| 0 <= p < 3 * self.n ==> #[trigger] self.sigma@[p] < 3 * self.n,
        ensures
            forall|j: int| 0 <= j < 3 ==> (#[trigger] r.0@[j])@.len() == self.n && r.1@[j]@.len() == self.n,
            forall|j: int, i: int| 0 <= j < 3 && 0 <= i < self.n ==> {
                let target = self.sigma@[j * self.n + i] as int;
                &&& #[trigger] r.0@[j]@[i] == spec_column_reps::<F>()[j].spec_mul(omega_powers@[i])
                &&& r.1@[j]@[i] == spec_column_reps::<F>()[target / (self.n as int)].spec_mul(
                    omega_powers@[target % (self.n as int)],
                )
            },
    {
        let n = self.n;
        let k = Self::column_reps();
        let mut ids: Vec<Vec<F>> = Vec::new();
        let mut sigmas: Vec<Vec<F>> = Vec::new();
        let mut j: usize = 0;
        while j < 3
            invariant
                j <= 3,
                n == self.n,
                n >= 1,
                3 * n <= usize::MAX,
                k@ == spec_column_reps::<F>(),
                omega_powers@.len() >= n,
                self.sigma@.len() == 3 * n,
                forall|p: int| 0 <= p < 3 * n ==> #[trigger] self.sigma@[p] < 3 * n,
                ids@.len() == j,
                sigmas@.len() == j,
                forall|jj: int| 0 <= jj < j ==> (#[trigger] ids@[jj])@.len() == n && sigmas@[jj]@.len() == n,
                forall|jj: int, i: int| 0 <= jj < j && 0 <= i < n ==> {
                    let target = self.sigma@[jj * n + i] as int;
                    &&& #[trigger] ids@[jj]@[i] == spec_column_reps::<F>()[jj].spec_mul(omega_powers@[i])
                    &&& sigmas@[jj]@[i] == spec_column_reps::<F>()[target / (n as int)].spec_mul(
                        omega_powers@[target % (n as int)],
                    )
                },
            decreases 3 - j,
        {
            let mut id_col: Vec<F> = Vec::new();
            let mut sigma_col: Vec<F> = Vec::new();
            let mut i: usize = 0;
            while i < n
                invariant
                    i <= n,
                    j < 3,
                    n == self.n,
                    n >= 1,
                    3 * n <= usize::MAX,
                    k@ == spec_column_reps::<F>(),
                    omega_powers@.len() >= n,
                    self.sigma@.len() == 3 * n,
                    forall|p: int| 0 <= p < 3 * n ==> #[trigger] self.sigma@[p] < 3 * n,
                    id_col@.len() == i,
                    sigma_col@.len() == i,
                    forall|t: int| 0 <= t < i ==> {
                        let target = self.sigma@[j * n + t] as int;
                        &&& #[trigger] id_col@[t] == spec_column_reps::<F>()[j as int].spec_mul(omega_powers@[t])
                        &&& sigma_col@[t] == spec_column_reps::<F>()[target / (n as int)].spec_mul(
                            omega_powers@[target % (n as int)],
                        )
                    },
                decreases n - i,
            {
                proof {
                    assert(j * n + i < 3 * n) by (nonlinear_arith)
                        requires
                            j < 3,
                            i < n,
                    ;
                }
                let ghost old_id = id_col@;
                let ghost old_sigma = sigma_col@;
                id_col.push(k[j].mul(omega_powers[i]));
                let target = self.sigma[j * n + i];
                let (tcol, trow) = (target / n, target % n);
                proof {
                    assert(target / n < 3) by (nonlinear_arith)
                        requires
                            target < 3 * n,
                            n >= 1,
                    ;
                }
                sigma_col.push(k[tcol].mul(omega_powers[trow]));
                proof {
                    assert(id_col@[i as int] == spec_column_reps::<F>()[j as int].spec_mul(omega_powers@[i as int]));
                    assert(sigma_col@[i as int] == spec_column_reps::<F>()[(target as int) / (n as int)].spec_mul(
                        omega_powers@[(target as int) % (n as int)],
                    ));
                    assert(target == self.sigma@[j * n + i]);
                    assert forall|t: int| 0 <= t < i + 1 implies {
                        let target = self.sigma@[j * n + t] as int;
                        &&& #[trigger] id_col@[t] == spec_column_reps::<F>()[j as int].spec_mul(omega_powers@[t])
                        &&& sigma_col@[t] == spec_column_reps::<F>()[target / (n as int)].spec_mul(
                            omega_powers@[target % (n as int)],
                        )
                    } by {
                        if t < i {
                            assert(id_col@[t] == old_id[t]);
                            assert(sigma_col@[t] == old_sigma[t]);
                        }
                    }
                }
                i = i + 1;
            }
            let ghost before_ids = ids@;
            let ghost before_sigmas = sigmas@;
            ids.push(id_col);
            sigmas.push(sigma_col);
            proof {
                assert forall|jj: int| 0 <= jj < j + 1 implies (#[trigger] ids@[jj])@.len() == n && sigmas@[jj]@.len() == n by {
                    if jj < j {
                        assert(ids@[jj] == before_ids[jj]);
                        assert(sigmas@[jj] == before_sigmas[jj]);
                    }
                }
                assert forall|jj: int, i: int| 0 <= jj < j + 1 && 0 <= i < n implies {
                    let target = self.sigma@[jj * n + i] as int;
                    &&& #[trigger] ids@[jj]@[i] == spec_column_reps::<F>()[jj].spec_mul(omega_powers@[i])
                    &&& sigmas@[jj]@[i] == spec_column_reps::<F>()[target / (n as int)].spec_mul(
                        omega_powers@[target % (n as int)],
                    )
                } by {
                    if jj < j {
                        assert(ids@[jj] == before_ids[jj]);
                        assert(sigmas@[jj] == before_sigmas[jj]);
                    } else {
                        assert(ids@[jj] == id_col);
                        assert(sigmas@[jj] == sigma_col);
                        assert(id_col@[i] == spec_column_reps::<F>()[j as int].spec_mul(omega_powers@[i]));
                    }
                }
            }
            j = j + 1;
        }
        let s2 = sigmas.pop().unwrap();
        let s1 = sigmas.pop().unwrap();
        let s0 = sigmas.pop().unwrap();
        let i2 = ids.pop().unwrap();
        let i1 = ids.pop().unwrap();
        let i0 = ids.pop().unwrap();
        ([i0, i1, i2], [s0, s1, s2])
    }
}

} // verus!
