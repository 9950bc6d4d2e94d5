//! R1CS: sparse linear combinations, constraints, and a satisfiability check.
//!
//! A constraint is `(a · z) * (b · z) = (c · z)` where `z` is the assignment
//! vector and `z[0] = 1`. The checker is kept in the backend deliberately: a
//! violated constraint is reported as a source-level message (with the
//! assertion's original text and line number) instead of surfacing as an
//! opaque failure inside a prover.
use vstd::prelude::*;

use crate::field::{
    lemma_add_assoc, lemma_add_comm, lemma_basics, lemma_distrib, lemma_mul_assoc, lemma_mul_comm,
    lemma_neg_is_times_minus_one, ZkField,
};

verus! {

/// The value of a list of `(variable, coefficient)` terms under an
/// assignment: the sum of `coefficient · z[variable]`, left to right.
pub open spec fn terms_eval<F: ZkField>(terms: Seq<(usize, F)>, z: Seq<F>) -> F
    decreases terms.len(),
{
    if terms.len() == 0 {
        F::spec_zero()
    } else {
        terms_eval(terms.drop_last(), z).spec_add(terms.last().1.spec_mul(z[terms.last().0 as int]))
    }
}

/// No coefficient is zero.
pub open spec fn no_zero_terms<F: ZkField>(terms: Seq<(usize, F)>) -> bool {
    forall|i: int| 0 <= i < terms.len() ==> #[trigger] terms[i].1 != F::spec_zero()
}

/// Each variable appears at most once.
pub open spec fn distinct_vars<F>(terms: Seq<(usize, F)>) -> bool {
    forall|i: int, j: int| 0 <= i < j < terms.len() ==> #[trigger] terms[i].0 != #[trigger] terms[j].0
}

/// Every coefficient is a canonical field element.
pub open spec fn wf_terms<F: ZkField>(terms: Seq<(usize, F)>) -> bool {
    forall|i: int| 0 <= i < terms.len() ==> (#[trigger] terms[i]).1.wf()
}

/// `terms` in order, less those whose coefficient is zero.
pub open spec fn drop_zeros<F: ZkField>(terms: Seq<(usize, F)>) -> Seq<(usize, F)>
    decreases terms.len(),
{
    if terms.len() == 0 {
        Seq::empty()
    } else {
        let rest = drop_zeros(terms.drop_last());
        if terms.last().1 == F::spec_zero() {
            rest
        } else {
            rest.push(terms.last())
        }
    }
}

/// Each coefficient multiplied by `factor`, in order.
pub open spec fn scaled_terms<F: ZkField>(terms: Seq<(usize, F)>, factor: F) -> Seq<(usize, F)> {
    Seq::new(terms.len(), |i: int| (terms[i].0, terms[i].1.spec_mul(factor)))
}

/// The set of variables of `terms`.
pub open spec fn var_set<F>(terms: Seq<(usize, F)>) -> Set<usize> {
    Set::new(|v: usize| exists|i: int| 0 <= i < terms.len() && #[trigger] terms[i].0 == v)
}

/// Every variable of `terms` indexes into an assignment of length `n`.
pub open spec fn vars_below<F>(terms: Seq<(usize, F)>, n: nat) -> bool {
    forall|i: int| 0 <= i < terms.len() ==> (#[trigger] terms[i]).0 < n
}

/// Variables below a bound stay below it in a subset.
pub proof fn lemma_vars_below_union<F>(t: Seq<(usize, F)>, s: Seq<(usize, F)>, u: Seq<(usize, F)>, n: nat)
    requires
        var_set(t).subset_of(var_set(s).union(var_set(u))),
        vars_below(s, n),
        vars_below(u, n),
    ensures
        vars_below(t, n),
{
    assert forall|i: int| 0 <= i < t.len() implies (#[trigger] t[i]).0 < n by {
        assert(var_set(t).contains(t[i].0));
        if var_set(s).contains(t[i].0) {
            let j = choose|j: int| 0 <= j < s.len() && #[trigger] s[j].0 == t[i].0;
            assert(s[j].0 < n);
        } else {
            let j = choose|j: int| 0 <= j < u.len() && #[trigger] u[j].0 == t[i].0;
            assert(u[j].0 < n);
        }
    }
}

/// A sparse linear combination over assignment variables: `(var, coeff)`.
#[derive(Debug, Clone)]
pub struct Lc<F> {
    pub terms: Vec<(usize, F)>,
}

impl<F: ZkField> Lc<F> {
    /// The value of the combination under an assignment.
    pub open spec fn spec_eval(&self, z: Seq<F>) -> F {
        terms_eval(self.terms@, z)
    }

    /// Normal form: no zero coefficient, no repeated variable, canonical
    /// coefficients. Every constructor and operation here yields it.
    pub open spec fn normal(&self) -> bool {
        &&& no_zero_terms(self.terms@)
        &&& distinct_vars(self.terms@)
        &&& wf_terms(self.terms@)
    }

    pub fn zero() -> (r: Self)
        ensures
            r.terms@ == Seq::<(usize, F)>::empty(),
            r.normal(),
    {
        Lc { terms: Vec::new() }
    }

    /// The constant `value`, expressed via the always-one variable 0.
    pub fn constant(value: F) -> (r: Self)
        requires
            value.wf(),
        ensures
            r.terms@ == (if value == F::spec_zero() {
                Seq::<(usize, F)>::empty()
            } else {
                seq![(0usize, value)]
            }),
            r.normal(),
    {
        if value.is_zero() {
            Self::zero()
        } else {
            let mut terms = Vec::new();
            terms.push((0usize, value));
            Lc { terms }
        }
    }

    pub fn var(index: usize) -> (r: Self)
        ensures
            r.terms@ == seq![(index, F::spec_one())],
            r.normal(),
    {
        proof {
            lemma_basics(F::spec_one(), F::spec_one());
        }
        let mut terms = Vec::new();
        terms.push((index, F::one()));
        Lc { terms }
    }

    /// The sum of two combinations: coefficients of a shared variable are
    /// added, new variables appended in order, and zero coefficients dropped.
    pub fn add(&self, other: &Self) -> (r: Self)
        requires
            wf_terms(self.terms@),
            wf_terms(other.terms@),
        ensures
            no_zero_terms(r.terms@),
            wf_terms(r.terms@),
            distinct_vars(self.terms@) ==> distinct_vars(r.terms@),
            self.normal() ==> r.normal(),
            forall|z: Seq<F>| #[trigger] r.spec_eval(z) == self.spec_eval(z).spec_add(other.spec_eval(z)),
            var_set(r.terms@).subset_of(var_set(self.terms@).union(var_set(other.terms@))),
    {
        proof {
            lemma_basics(F::spec_zero(), F::spec_zero());
        }
        let mut terms = copy_terms(&self.terms);
        let mut k: usize = 0;
        proof {
            assert forall|z: Seq<F>| #[trigger] terms_eval(terms@, z) == terms_eval(self.terms@, z).spec_add(
                terms_eval(other.terms@.subrange(0, 0), z),
            ) by {
                assert(other.terms@.subrange(0, 0).len() == 0);
                lemma_eval_wf(self.terms@, z);
                lemma_basics(terms_eval(self.terms@, z), F::spec_zero());
            }
        }
        while k < other.terms.len()
            invariant
                k <= other.terms@.len(),
                distinct_vars(self.terms@) ==> distinct_vars(terms@),
                wf_terms(terms@),
                wf_terms(other.terms@),
                forall|z: Seq<F>| #[trigger] terms_eval(terms@, z) == terms_eval(self.terms@, z).spec_add(
                    terms_eval(other.terms@.subrange(0, k as int), z),
                ),
                var_set(terms@).subset_of(var_set(self.terms@).union(var_set(other.terms@))),
            decreases other.terms@.len() - k,
        {
            proof {
                lemma_basics(F::spec_zero(), F::spec_zero());
            }
            let (var, coeff) = other.terms[k];
            let ghost prefix = other.terms@.subrange(0, k as int);
            let ghost next = other.terms@.subrange(0, k as int + 1);
            assert(next.drop_last() =~= prefix);
            assert(next.last() == other.terms@[k as int]);
            assert(other.terms@[k as int].1.wf());
            let ghost before = terms@;
            let found = find_var(&terms, var);
            match found {
                Some(pos) => {
                    let existing = terms[pos].1;
                    terms.set(pos, (var, existing.add(coeff)));
                    proof {
                        assert(terms@ == before.update(pos as int, (var, existing.spec_add(coeff))));
                        lemma_basics(existing, coeff);
                        assert forall|z: Seq<F>| #[trigger] terms_eval(terms@, z) == terms_eval(
                            self.terms@,
                            z,
                        ).spec_add(terms_eval(next, z)) by {
                            lemma_update_eval(before, pos as int, coeff, z);
                            lemma_add_assoc(
                                terms_eval(self.terms@, z),
                                terms_eval(prefix, z),
                                coeff.spec_mul(z[var as int]),
                            );
                        }
                        assert(wf_terms(terms@));
                        if distinct_vars(self.terms@) {
                            assert forall|i: int, j: int| 0 <= i < j < terms@.len() implies #[trigger] terms@[i].0 != #[trigger] terms@[j].0 by {
                                assert(before[i].0 != before[j].0);
                            }
                        }
                        assert(var_set(terms@).subset_of(var_set(before))) by {
                            assert forall|v: usize| var_set(terms@).contains(v) implies var_set(
                                before,
                            ).contains(v) by {
                                let i = choose|i: int| 0 <= i < terms@.len() && #[trigger] terms@[i].0 == v;
                                assert(before[i].0 == v);
                            }
                        }
                    }
                },
                None => {
                    terms.push((var, coeff));
                    proof {
                        assert(terms@.drop_last() =~= before);
                        assert forall|z: Seq<F>| #[trigger] terms_eval(terms@, z) == terms_eval(
                            self.terms@,
                            z,
                        ).spec_add(terms_eval(next, z)) by {
                            assert(terms@.last() == (var, coeff));
                            assert(terms_eval(terms@, z) == terms_eval(before, z).spec_add(coeff.spec_mul(z[var as int])));
                            assert(terms_eval(next, z) == terms_eval(prefix, z).spec_add(coeff.spec_mul(z[var as int])));
                            lemma_add_assoc(
                                terms_eval(self.terms@, z),
                                terms_eval(prefix, z),
                                coeff.spec_mul(z[var as int]),
                            );
                        }
                        assert(var_set(other.terms@).contains(var)) by {
                            assert(other.terms@[k as int].0 == var);
                        }
                        assert forall|v: usize| var_set(terms@).contains(v) implies var_set(
                            self.terms@,
                        ).union(var_set(other.terms@)).contains(v) by {
                            let i = choose|i: int| 0 <= i < terms@.len() && #[trigger] terms@[i].0 == v;
                            if i < before.len() {
                                assert(before[i].0 == v);
                            }
                        }
                    }
                },
            }
            k = k + 1;
        }
        assert(other.terms@.subrange(0, other.terms@.len() as int) =~= other.terms@);
        let result = retain_nonzero(terms);
        Lc { terms: result }
    }

    pub fn sub(&self, other: &Self) -> (r: Self)
        requires
            wf_terms(self.terms@),
            wf_terms(other.terms@),
        ensures
            no_zero_terms(r.terms@),
            wf_terms(r.terms@),
            distinct_vars(self.terms@) ==> distinct_vars(r.terms@),
            self.normal() ==> r.normal(),
            forall|z: Seq<F>| #[trigger] r.spec_eval(z) == self.spec_eval(z).spec_sub(other.spec_eval(z)),
            var_set(r.terms@).subset_of(var_set(self.terms@).union(var_set(other.terms@))),
    {
        proof {
            lemma_basics(F::spec_one(), F::spec_one());
        }
        let negated = other.scale(F::one().neg());
        let r = self.add(&negated);
        proof {
            assert forall|z: Seq<F>| #[trigger] r.spec_eval(z) == self.spec_eval(z).spec_sub(
                other.spec_eval(z),
            ) by {
                lemma_eval_wf(other.terms@, z);
                lemma_neg_is_times_minus_one(other.spec_eval(z));
                lemma_mul_comm(F::spec_one().spec_neg(), other.spec_eval(z));
                lemma_basics(self.spec_eval(z), other.spec_eval(z));
                assert(negated.spec_eval(z) == other.spec_eval(z).spec_neg());
            }
        }
        r
    }

    /// Every coefficient multiplied by `factor`, zero products dropped.
    pub fn scale(&self, factor: F) -> (r: Self)
        requires
            wf_terms(self.terms@),
        ensures
            wf_terms(r.terms@),
            no_zero_terms(r.terms@),
            distinct_vars(self.terms@) ==> distinct_vars(r.terms@),
            forall|z: Seq<F>| #[trigger] r.spec_eval(z) == factor.spec_mul(self.spec_eval(z)),
            var_set(r.terms@).subset_of(var_set(self.terms@)),
            r.terms@ == drop_zeros(scaled_terms(self.terms@, factor)),
            factor == F::spec_zero() ==> r.terms@.len() == 0,
    {
        proof {
            lemma_basics(F::spec_zero(), F::spec_zero());
        }
        let mut terms: Vec<(usize, F)> = Vec::new();
        let mut k: usize = 0;
        proof {
            assert forall|z: Seq<F>| #[trigger] terms_eval(terms@, z) == factor.spec_mul(
                terms_eval(self.terms@.subrange(0, 0), z),
            ) by {
                assert(self.terms@.subrange(0, 0).len() == 0);
                lemma_basics(factor, F::spec_zero());
            }
        }
        while k < self.terms.len()
            invariant
                k <= self.terms@.len(),
                terms@.len() == k,
                wf_terms(self.terms@),
                forall|i: int| 0 <= i < k ==> #[trigger] terms@[i] == (self.terms@[i].0, self.terms@[i].1.spec_mul(factor)),
                wf_terms(terms@),
                forall|z: Seq<F>| #[trigger] terms_eval(terms@, z) == factor.spec_mul(
                    terms_eval(self.terms@.subrange(0, k as int), z),
                ),
            decreases self.terms@.len() - k,
        {
            proof {
                lemma_basics(F::spec_zero(), F::spec_zero());
            }
            let (var, coeff) = self.terms[k];
            let ghost before = terms@;
            let ghost prefix = self.terms@.subrange(0, k as int);
            let ghost next = self.terms@.subrange(0, k as int + 1);
            assert(next.drop_last() =~= prefix);
            terms.push((var, coeff.mul(factor)));
            proof {
                lemma_basics(coeff, factor);
                assert(terms@.drop_last() =~= before);
                assert forall|z: Seq<F>| #[trigger] terms_eval(terms@, z) == factor.spec_mul(
                    terms_eval(next, z),
                ) by {
                    let p = terms_eval(prefix, z);
                    let x = z[var as int];
                    assert(terms@.last() == (var, coeff.spec_mul(factor)));
                    assert(terms_eval(terms@, z) == terms_eval(before, z).spec_add(coeff.spec_mul(factor).spec_mul(x)));
                    assert(terms_eval(next, z) == p.spec_add(coeff.spec_mul(x)));
                    lemma_mul_comm(coeff, factor);
                    lemma_mul_assoc(factor, coeff, x);
                    lemma_distrib(factor, p, coeff.spec_mul(x));
                }
            }
            k = k + 1;
        }
        assert(self.terms@.subrange(0, self.terms@.len() as int) =~= self.terms@);
        proof {
            assert forall|i: int, j: int| distinct_vars(self.terms@) && 0 <= i < j < terms@.len() implies #[trigger] terms@[i].0 != #[trigger] terms@[j].0 by {
                assert(self.terms@[i].0 != self.terms@[j].0);
            }
            assert forall|v: usize| var_set(terms@).contains(v) implies var_set(self.terms@).contains(v) by {
                let i = choose|i: int| 0 <= i < terms@.len() && #[trigger] terms@[i].0 == v;
                assert(self.terms@[i].0 == v);
            }
        }
        proof {
            assert(terms@ =~= scaled_terms(self.terms@, factor));
        }
        let result = retain_nonzero(terms);
        proof {
            if factor == F::spec_zero() {
                if result@.len() > 0 {
                    let i = 0int;
                    assert(terms@.contains(result@[i]));
                    let j = choose|j: int| 0 <= j < terms@.len() && terms@[j] == result@[i];
                    lemma_basics(self.terms@[j].1, F::spec_zero());
                    assert(result@[i].1 != F::spec_zero());
                }
            }
        }
        Lc { terms: result }
    }

    /// A copy of the combination.
    pub(crate) fn clone_lc(&self) -> (r: Self)
        ensures
            r.terms@ == self.terms@,
    {
        Lc { terms: copy_terms(&self.terms) }
    }

    pub fn eval(&self, assignment: &[F]) -> (r: F)
        requires
            vars_below(self.terms@, assignment@.len()),
        ensures
            r == self.spec_eval(assignment@),
    {
        let mut acc = F::zero();
        let mut k: usize = 0;
        while k < self.terms.len()
            invariant
                k <= self.terms@.len(),
                vars_below(self.terms@, assignment@.len()),
                acc == terms_eval(self.terms@.subrange(0, k as int), assignment@),
            decreases self.terms@.len() - k,
        {
            let (var, coeff) = self.terms[k];
            let ghost next = self.terms@.subrange(0, k as int + 1);
            assert(next.drop_last() =~= self.terms@.subrange(0, k as int));
            acc = acc.add(coeff.mul(assignment[var]));
            k = k + 1;
        }
        assert(self.terms@.subrange(0, self.terms@.len() as int) =~= self.terms@);
        acc
    }
}

/// The value of a combination is a canonical element.
pub proof fn lemma_eval_wf<F: ZkField>(terms: Seq<(usize, F)>, z: Seq<F>)
    ensures
        terms_eval(terms, z).wf(),
    decreases terms.len(),
{
    if terms.len() == 0 {
        lemma_basics(F::spec_zero(), F::spec_zero());
    } else {
        lemma_basics(terms_eval(terms.drop_last(), z), terms.last().1.spec_mul(z[terms.last().0 as int]));
    }
}

/// Adding `c` to the coefficient at `pos` adds `c · z[var]` to the value.
proof fn lemma_update_eval<F: ZkField>(terms: Seq<(usize, F)>, pos: int, c: F, z: Seq<F>)
    requires
        0 <= pos < terms.len(),
    ensures
        terms_eval(terms.update(pos, (terms[pos].0, terms[pos].1.spec_add(c))), z) == terms_eval(
            terms,
            z,
        ).spec_add(c.spec_mul(z[terms[pos].0 as int])),
    decreases terms.len(),
{
    lemma_basics(F::spec_zero(), F::spec_zero());
    let v = terms[pos].0;
    let x = z[v as int];
    let updated = terms.update(pos, (v, terms[pos].1.spec_add(c)));
    let last = terms.len() - 1;
    if pos == last {
        assert(updated.drop_last() =~= terms.drop_last());
        let e = terms_eval(terms.drop_last(), z);
        let old = terms[pos].1;
        // e + (old + c)·x = (e + old·x) + c·x
        lemma_mul_comm(old.spec_add(c), x);
        lemma_distrib(x, old, c);
        lemma_mul_comm(x, old);
        lemma_mul_comm(x, c);
        lemma_add_assoc(e, old.spec_mul(x), c.spec_mul(x));
    } else {
        assert(updated.drop_last() =~= terms.drop_last().update(pos, (v, terms[pos].1.spec_add(c))));
        lemma_update_eval(terms.drop_last(), pos, c, z);
        let e = terms_eval(terms.drop_last(), z);
        let t = terms.last().1.spec_mul(z[terms.last().0 as int]);
        let d = c.spec_mul(x);
        // (e + d) + t = (e + t) + d
        lemma_add_assoc(e, d, t);
        lemma_add_comm(d, t);
        lemma_add_assoc(e, t, d);
    }
}

/// A copy of a list of terms.
fn copy_terms<F: ZkField>(terms: &Vec<(usize, F)>) -> (r: Vec<(usize, F)>)
    ensures
        r@ == terms@,
{
    let mut out: Vec<(usize, F)> = Vec::new();
    let mut i: usize = 0;
    while i < terms.len()
        invariant
            i <= terms@.len(),
            out@ == terms@.subrange(0, i as int),
        decreases terms@.len() - i,
    {
        out.push(terms[i]);
        i = i + 1;
        assert(out@ =~= terms@.subrange(0, i as int));
    }
    assert(terms@.subrange(0, terms@.len() as int) =~= terms@);
    out
}

/// Position of `var` in `terms`, if present.
fn find_var<F: ZkField>(terms: &Vec<(usize, F)>, var: usize) -> (r: Option<usize>)
    ensures
        r matches Some(pos) ==> pos < terms@.len() && terms@[pos as int].0 == var,
        r is None ==> forall|i: int| 0 <= i < terms@.len() ==> #[trigger] terms@[i].0 != var,
{
    let mut i: usize = 0;
    while i < terms.len()
        invariant
            i <= terms@.len(),
            forall|j: int| 0 <= j < i ==> #[trigger] terms@[j].0 != var,
        decreases terms@.len() - i,
    {
        if terms[i].0 == var {
            return Some(i);
        }
        i = i + 1;
    }
    None
}

/// The terms with a nonzero coefficient, in order.
fn retain_nonzero<F: ZkField>(terms: Vec<(usize, F)>) -> (r: Vec<(usize, F)>)
    requires
        wf_terms(terms@),
    ensures
        no_zero_terms(r@),
        wf_terms(r@),
        distinct_vars(terms@) ==> distinct_vars(r@),
        forall|z: Seq<F>| #[trigger] terms_eval(r@, z) == terms_eval(terms@, z),
        var_set(r@).subset_of(var_set(terms@)),
        forall|i: int| 0 <= i < r@.len() ==> terms@.contains(#[trigger] r@[i]),
        r@ == drop_zeros(terms@),
{
    proof {
        lemma_basics(F::spec_zero(), F::spec_zero());
    }
    let mut out: Vec<(usize, F)> = Vec::new();
    let mut k: usize = 0;
    while k < terms.len()
        invariant
            k <= terms@.len(),
            wf_terms(terms@),
            no_zero_terms(out@),
            wf_terms(out@),
            forall|i: int| 0 <= i < out@.len() ==> terms@.subrange(0, k as int).contains(#[trigger] out@[i]),
            distinct_vars(terms@) ==> distinct_vars(out@),
            forall|z: Seq<F>| #[trigger] terms_eval(out@, z) == terms_eval(terms@.subrange(0, k as int), z),
            out@ == drop_zeros(terms@.subrange(0, k as int)),
        decreases terms@.len() - k,
    {
        proof {
            lemma_basics(F::spec_zero(), F::spec_zero());
        }
        let entry = terms[k];
        let ghost before = out@;
        let ghost prefix = terms@.subrange(0, k as int);
        let ghost next = terms@.subrange(0, k as int + 1);
        assert(next.drop_last() =~= prefix);
        assert(next.last() == entry);
        if !entry.1.is_zero() {
            out.push(entry);
            proof {
                assert(out@.drop_last() =~= before);
                assert forall|z: Seq<F>| #[trigger] terms_eval(out@, z) == terms_eval(next, z) by {
                    assert(out@.last() == entry);
                    assert(terms_eval(out@, z) == terms_eval(before, z).spec_add(entry.1.spec_mul(z[entry.0 as int])));
                }
                assert forall|i: int| 0 <= i < out@.len() implies next.contains(#[trigger] out@[i]) by {
                    if i < before.len() {
                        let j = choose|j: int| 0 <= j < prefix.len() && prefix[j] == out@[i];
                        assert(next[j] == out@[i]);
                    } else {
                        assert(next[k as int] == out@[i]);
                    }
                }
                if distinct_vars(terms@) {
                    assert forall|i: int, j: int| 0 <= i < j < out@.len() implies #[trigger] out@[i].0
                        != #[trigger] out@[j].0 by {
                        if j == out@.len() - 1 {
                            let a = choose|a: int| 0 <= a < prefix.len() && prefix[a] == out@[i];
                            assert(terms@[a] == out@[i]);
                            assert(terms@[k as int] == out@[j]);
                        }
                    }
                }
            }
        } else {
            proof {
                assert forall|i: int| 0 <= i < out@.len() implies next.contains(#[trigger] out@[i]) by {
                    let j = choose|j: int| 0 <= j < prefix.len() && prefix[j] == out@[i];
                    assert(next[j] == out@[i]);
                }
                assert forall|z: Seq<F>| #[trigger] terms_eval(out@, z) == terms_eval(next, z) by {
                    let t = entry.1.spec_mul(z[entry.0 as int]);
                    lemma_basics(z[entry.0 as int], F::spec_zero());
                    assert(t == F::spec_zero());
                    lemma_eval_wf(prefix, z);
                    lemma_basics(terms_eval(prefix, z), F::spec_zero());
                }
            }
        }
        k = k + 1;
    }
    assert(terms@.subrange(0, terms@.len() as int) =~= terms@);
    proof {
        assert forall|v: usize| var_set(out@).contains(v) implies var_set(terms@).contains(v) by {
            let i = choose|i: int| 0 <= i < out@.len() && #[trigger] out@[i].0 == v;
            let j = choose|j: int| 0 <= j < terms@.len() && terms@[j] == out@[i];
            assert(terms@[j].0 == v);
        }
    }
    out
}


#[derive(Debug, Clone)]
pub struct Constraint<F> {
    pub a: Lc<F>,
    pub b: Lc<F>,
    pub c: Lc<F>,
    /// Where this constraint came from, in the user's own words.
    pub origin: String,
}

impl<F: ZkField> Constraint<F> {
    /// `(a · z) * (b · z) = (c · z)`.
    pub open spec fn holds(&self, z: Seq<F>) -> bool {
        self.a.spec_eval(z).spec_mul(self.b.spec_eval(z)) == self.c.spec_eval(z)
    }

    /// Every variable the constraint mentions indexes into `z`.
    pub open spec fn reads_within(&self, n: nat) -> bool {
        &&& vars_below(self.a.terms@, n)
        &&& vars_below(self.b.terms@, n)
        &&& vars_below(self.c.terms@, n)
    }
}

#[derive(Debug, Clone)]
pub struct R1cs<F> {
    pub num_vars: usize,
    pub constraints: Vec<Constraint<F>>,
    /// Variables that are public inputs, in declaration order. This ordering
    /// is part of the contract with the verifier.
    pub public_vars: Vec<usize>,
    /// For each variable, the IR wire whose value it holds (variable 0 is the
    /// constant one and maps to nothing).
    pub var_to_wire: Vec<Option<u32>>,
}

#[derive(Debug, Clone)]
pub struct Violation {
    pub index: usize,
    pub origin: String,
    pub lhs: String,
    pub rhs: String,
}

/// The indices of the constraints `z` violates, in order.
pub open spec fn violated_indices<F: ZkField>(constraints: Seq<Constraint<F>>, z: Seq<F>) -> Seq<usize>
    decreases constraints.len(),
{
    if constraints.len() == 0 {
        Seq::empty()
    } else {
        let rest = violated_indices(constraints.drop_last(), z);
        if constraints.last().holds(z) {
            rest
        } else {
            rest.push((constraints.len() - 1) as usize)
        }
    }
}

proof fn lemma_violated_below<F: ZkField>(constraints: Seq<Constraint<F>>, z: Seq<F>)
    ensures
        forall|j: int| 0 <= j < violated_indices(constraints, z).len() ==> #[trigger] violated_indices(constraints, z)[j] < constraints.len(),
    decreases constraints.len(),
{
    if constraints.len() > 0 {
        let init = constraints.drop_last();
        lemma_violated_below(init, z);
        let rest = violated_indices(init, z);
        assert forall|j: int| 0 <= j < violated_indices(constraints, z).len() implies #[trigger] violated_indices(constraints, z)[j] < constraints.len() by {
            if j < rest.len() {
                assert(rest[j] < init.len());
            }
        }
    }
}

proof fn lemma_violated_empty<F: ZkField>(constraints: Seq<Constraint<F>>, z: Seq<F>)
    ensures
        violated_indices(constraints, z).len() == 0 <==> forall|i: int| 0 <= i < constraints.len() ==> #[trigger] constraints[i].holds(z),
    decreases constraints.len(),
{
    if constraints.len() > 0 {
        let init = constraints.drop_last();
        lemma_violated_empty(init, z);
        assert forall|i: int| 0 <= i < init.len() implies #[trigger] init[i] == constraints[i] by {}
        if violated_indices(constraints, z).len() == 0 {
            assert forall|i: int| 0 <= i < constraints.len() implies #[trigger] constraints[i].holds(z) by {
                if i < init.len() {
                    assert(init[i] == constraints[i]);
                }
            }
        } else {
            if forall|i: int| 0 <= i < constraints.len() ==> #[trigger] constraints[i].holds(z) {
                assert(constraints.last().holds(z));
                assert forall|i: int| 0 <= i < init.len() implies #[trigger] init[i].holds(z) by {
                    assert(constraints[i].holds(z));
                }
            }
        }
    }
}

/// The assignment vector that a variable-to-wire map and wire values induce:
/// the constant one for a variable holding no wire, the wire's value otherwise.
pub open spec fn assignment_of<F: ZkField>(var_to_wire: Seq<Option<u32>>, wire_values: Seq<F>) -> Seq<F> {
    Seq::new(
        var_to_wire.len(),
        |i: int|
            match var_to_wire[i] {
                None => F::spec_one(),
                Some(w) => wire_values[w as int],
            },
    )
}

/// A single term evaluates to `coefficient · z[variable]`.
pub proof fn lemma_eval_single<F: ZkField>(v: usize, c: F, z: Seq<F>)
    ensures
        c.wf() && z[v as int].wf() ==> terms_eval(seq![(v, c)], z) == c.spec_mul(z[v as int]),
{
    reveal_with_fuel(terms_eval, 2);
    let t = seq![(v, c)];
    assert(t.drop_last() =~= Seq::<(usize, F)>::empty());
    lemma_basics(c, z[v as int]);
    lemma_basics(c.spec_mul(z[v as int]), c);
}

/// Every constraint of `constraints` holds under `z`.
pub open spec fn all_hold<F: ZkField>(constraints: Seq<Constraint<F>>, z: Seq<F>) -> bool {
    forall|i: int| 0 <= i < constraints.len() ==> #[trigger] constraints[i].holds(z)
}

/// Extending an assignment leaves the value of terms that read only the old
/// variables unchanged.
pub proof fn lemma_eval_push<F: ZkField>(terms: Seq<(usize, F)>, z: Seq<F>, x: F)
    requires
        vars_below(terms, z.len()),
    ensures
        terms_eval(terms, z.push(x)) == terms_eval(terms, z),
    decreases terms.len(),
{
    if terms.len() > 0 {
        let init = terms.drop_last();
        assert forall|i: int| 0 <= i < init.len() implies (#[trigger] init[i]).0 < z.len() by {
            assert(init[i] == terms[i]);
        }
        lemma_eval_push(init, z, x);
        assert(terms[terms.len() - 1].0 < z.len());
    }
}

impl<F: ZkField> R1cs<F> {
    /// The assignment vector that solved wire values induce: the constant one
    /// for variable 0, the held wire's value for every other variable.
    pub open spec fn spec_assignment(&self, wire_values: Seq<F>) -> Seq<F> {
        assignment_of(self.var_to_wire@, wire_values)
    }

    /// Every constraint reads only variables below `n`.
    pub open spec fn reads_within(&self, n: nat) -> bool {
        forall|i: int| 0 <= i < self.constraints@.len() ==> #[trigger] self.constraints@[i].reads_within(n)
    }

    pub open spec fn spec_is_satisfied(&self, z: Seq<F>) -> bool {
        all_hold(self.constraints@, z)
    }

    /// Build the assignment vector from solved wire values.
    pub fn assignment(&self, wire_values: &[F]) -> (r: Vec<F>)
        requires
            forall|i: int| 0 <= i < self.var_to_wire@.len() ==> (#[trigger] self.var_to_wire@[i] matches Some(w) ==> w < wire_values@.len()),
        ensures
            r@ == self.spec_assignment(wire_values@),
    {
        let mut out: Vec<F> = Vec::new();
        let mut i: usize = 0;
        while i < self.var_to_wire.len()
            invariant
                i <= self.var_to_wire@.len(),
                forall|j: int| 0 <= j < self.var_to_wire@.len() ==> (#[trigger] self.var_to_wire@[j] matches Some(w) ==> w < wire_values@.len()),
                out@ =~= self.spec_assignment(wire_values@).subrange(0, i as int),
            decreases self.var_to_wire@.len() - i,
        {
            let value = match self.var_to_wire[i] {
                None => F::one(),
                Some(wire) => wire_values[wire as usize],
            };
            out.push(value);
            i = i + 1;
        }
        out
    }

    /// Every violated constraint, in order, with its origin and the two
    /// sides rendered in decimal.
    pub fn check(&self, assignment: &[F]) -> (r: Vec<Violation>)
        requires
            self.reads_within(assignment@.len()),
        ensures
            r@.len() == violated_indices(self.constraints@, assignment@).len(),
            forall|j: int| #![trigger r@[j]] 0 <= j < r@.len() ==> {
                let i = violated_indices(self.constraints@, assignment@)[j] as int;
                let c = self.constraints@[i];
                &&& r@[j].index == i
                &&& r@[j].origin == c.origin
                &&& r@[j].lhs@ == c.a.spec_eval(assignment@).spec_mul(c.b.spec_eval(assignment@)).spec_to_decimal()
                &&& r@[j].rhs@ == c.c.spec_eval(assignment@).spec_to_decimal()
            },
    {
        let ghost z = assignment@;
        let mut out: Vec<Violation> = Vec::new();
        let mut index: usize = 0;
        while index < self.constraints.len()
            invariant
                index <= self.constraints@.len(),
                self.reads_within(z.len()),
                z == assignment@,
                out@.len() == violated_indices(self.constraints@.subrange(0, index as int), z).len(),
                forall|j: int| #![trigger out@[j]] 0 <= j < out@.len() ==> {
                    let i = violated_indices(self.constraints@.subrange(0, index as int), z)[j] as int;
                    let c = self.constraints@[i];
                    &&& out@[j].index == i
                    &&& out@[j].origin == c.origin
                    &&& out@[j].lhs@ == c.a.spec_eval(z).spec_mul(c.b.spec_eval(z)).spec_to_decimal()
                    &&& out@[j].rhs@ == c.c.spec_eval(z).spec_to_decimal()
                },
            decreases self.constraints@.len() - index,
        {
            let ghost prefix = self.constraints@.subrange(0, index as int);
            let ghost next = self.constraints@.subrange(0, index as int + 1);
            assert(next.drop_last() =~= prefix);
            proof {
                lemma_violated_below(prefix, z);
                assert(self.constraints@[index as int].reads_within(z.len()));
            }
            let constraint = &self.constraints[index];
            let lhs = constraint.a.eval(assignment).mul(constraint.b.eval(assignment));
            let rhs = constraint.c.eval(assignment);
            if !lhs.equals(rhs) {
                out.push(Violation {
                    index,
                    origin: constraint.origin.clone(),
                    lhs: lhs.to_decimal(),
                    rhs: rhs.to_decimal(),
                });
                proof {
                    assert forall|j: int| 0 <= j < prefix.len() implies #[trigger] prefix[j] == self.constraints@[j] by {}
                }
            }
            index = index + 1;
        }
        assert(self.constraints@.subrange(0, self.constraints@.len() as int) =~= self.constraints@);
        out
    }

    pub fn is_satisfied(&self, assignment: &[F]) -> (r: bool)
        requires
            self.reads_within(assignment@.len()),
        ensures
            r == self.spec_is_satisfied(assignment@),
    {
        let violations = self.check(assignment);
        proof {
            lemma_violated_empty(self.constraints@, assignment@);
        }
        violations.len() == 0
    }
}

} // verus!
