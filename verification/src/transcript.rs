//! The Fiat–Shamir transcript.
//!
//! Fiat–Shamir makes an interactive protocol non-interactive by deriving each
//! challenge from a hash of everything committed so far, so the prover cannot
//! choose its challenges: it would have to fix them before committing the very
//! data they depend on.
//!
//! The transcript is that running hash. The property the soundness of the
//! non-interactive protocol rests on:
//!
//! > A verifier that absorbs the same messages in the same order squeezes the
//! > same challenges the prover did — and changing any absorbed message, or
//! > its order, changes every subsequent challenge.
//!
//! The first half is a theorem about this code: a challenge is a function of
//! the absorbed history and the squeeze counter alone. The second half is the
//! hash's job.
use vstd::prelude::*;

use crate::field::ZkField;
use crate::hash::{Digest, Hasher};

verus! {

/// The challenge a transcript with history `state` squeezes at `counter`: the
/// first element of the digest of the history followed by the counter.
pub open spec fn squeeze<F: ZkField, H: Hasher<F>>(state: Seq<F>, counter: nat) -> F {
    H::spec_hash(state.push(F::spec_from_u64(counter as u64)))[0]
}

/// The value of a string of decimal digits, most significant first.
pub open spec fn digits_value(chars: Seq<char>) -> nat
    decreases chars.len(),
{
    if chars.len() == 0 {
        0
    } else {
        digits_value(chars.drop_last()) * 10 + ((chars.last() as nat) - 48) as nat
    }
}

/// Every character is an ASCII decimal digit.
pub open spec fn all_digits(chars: Seq<char>) -> bool {
    forall|i: int| 0 <= i < chars.len() ==> '0' <= #[trigger] chars[i] <= '9'
}

/// A running Fiat–Shamir transcript over a hasher `H`.
pub struct Transcript<F, H> {
    /// Everything absorbed so far, in order. Challenges are a hash of this,
    /// which is what makes each challenge depend on the entire history.
    state: Vec<F>,
    /// Counter mixed into each squeeze, so repeated squeezes without an
    /// intervening absorb still differ.
    counter: u64,
    _hasher: core::marker::PhantomData<H>,
}

impl<F: ZkField, H: Hasher<F>> Transcript<F, H> {
    /// Everything absorbed so far.
    pub closed spec fn spec_state(&self) -> Seq<F> {
        self.state@
    }

    /// Squeezes since the last absorb.
    pub closed spec fn spec_counter(&self) -> nat {
        self.counter as nat
    }

    /// Start a transcript bound to a domain separator, so two protocols (or
    /// two phases of one) cannot be made to produce colliding challenges.
    pub fn new(domain: &[F]) -> (t: Self)
        ensures
            t.spec_state() == domain@,
            t.spec_counter() == 0,
    {
        let mut state: Vec<F> = Vec::new();
        let mut i: usize = 0;
        while i < domain.len()
            invariant
                i <= domain@.len(),
                state@ == domain@.subrange(0, i as int),
            decreases domain@.len() - i,
        {
            state.push(domain[i]);
            i = i + 1;
        }
        assert(state@ =~= domain@);
        Transcript { state, counter: 0, _hasher: core::marker::PhantomData }
    }

    /// Absorb field elements — a public input, a set of evaluations. Absorbing
    /// resets the squeeze counter: challenges drawn after new data are fresh.
    pub fn absorb(&mut self, message: &[F])
        ensures
            final(self).spec_state() == old(self).spec_state() + message@,
            final(self).spec_counter() == 0,
    {
        let ghost start = self.state@;
        let mut i: usize = 0;
        while i < message.len()
            invariant
                i <= message@.len(),
                self.state@ == start + message@.subrange(0, i as int),
            decreases message@.len() - i,
        {
            self.state.push(message[i]);
            i = i + 1;
        }
        assert(message@.subrange(0, message@.len() as int) =~= message@);
        self.counter = 0;
    }

    /// Absorb a commitment (a Merkle root): just its digest elements.
    pub fn absorb_digest(&mut self, digest: &Digest<F>)
        ensures
            final(self).spec_state() == old(self).spec_state() + digest.0@,
            final(self).spec_counter() == 0,
    {
        self.absorb(digest.elements());
    }

    /// Squeeze one challenge: a hash of the whole history plus the counter.
    /// Successive squeezes differ because the counter advances.
    pub fn challenge(&mut self) -> (c: F)
        requires
            H::WIDTH >= 1,
            old(self).spec_counter() < u64::MAX,
        ensures
            c == squeeze::<F, H>(old(self).spec_state(), old(self).spec_counter()),
            c.wf(),
            final(self).spec_state() == old(self).spec_state(),
            final(self).spec_counter() == old(self).spec_counter() + 1,
    {
        let mut input: Vec<F> = Vec::new();
        let mut i: usize = 0;
        while i < self.state.len()
            invariant
                i <= self.state@.len(),
                input@ == self.state@.subrange(0, i as int),
            decreases self.state@.len() - i,
        {
            input.push(self.state[i]);
            i = i + 1;
        }
        assert(input@ =~= self.state@);
        input.push(F::from_u64(self.counter));
        self.counter = self.counter + 1;
        let digest = H::hash(input.as_slice());
        // The first digest element is the challenge; a hash's outputs are
        // individually uniform, so one element suffices.
        digest.elements()[0]
    }

    /// A batch of independent challenges, for the several FRI query positions.
    pub fn challenges(&mut self, count: usize) -> (r: Vec<F>)
        requires
            H::WIDTH >= 1,
            old(self).spec_counter() + count <= u64::MAX,
        ensures
            r@.len() == count,
            forall|i: int| 0 <= i < count ==> #[trigger] r@[i] == squeeze::<F, H>(
                old(self).spec_state(),
                old(self).spec_counter() + i as nat,
            ),
            forall|i: int| 0 <= i < count ==> (#[trigger] r@[i]).wf(),
            final(self).spec_state() == old(self).spec_state(),
            final(self).spec_counter() == old(self).spec_counter() + count,
    {
        let ghost state = self.spec_state();
        let ghost start = self.spec_counter();
        let mut out: Vec<F> = Vec::new();
        let mut i: usize = 0;
        while i < count
            invariant
                H::WIDTH >= 1,
                i <= count,
                start + count <= u64::MAX,
                self.spec_state() == state,
                self.spec_counter() == start + i,
                out@.len() == i,
                forall|j: int| 0 <= j < i ==> #[trigger] out@[j] == squeeze::<F, H>(state, start + j as nat),
                forall|j: int| 0 <= j < i ==> (#[trigger] out@[j]).wf(),
            decreases count - i,
        {
            out.push(self.challenge());
            i = i + 1;
        }
        out
    }

    /// A challenge reduced to `[0, domain_size)` — a query index into a domain
    /// of that size: the challenge's canonical representative modulo the
    /// domain.
    pub fn challenge_index(&mut self, domain_size: usize) -> (r: usize)
        requires
            H::WIDTH >= 1,
            old(self).spec_counter() < u64::MAX,
            crate::merkle::two_pow(crate::fft::log2(domain_size as nat)) == domain_size,
        ensures
            r == digits_value(squeeze::<F, H>(old(self).spec_state(), old(self).spec_counter()).spec_to_decimal())
                % domain_size as nat,
            r < domain_size,
            final(self).spec_state() == old(self).spec_state(),
            final(self).spec_counter() == old(self).spec_counter() + 1,
    {
        let challenge = self.challenge();
        proof {
            crate::fft::lemma_two_pow_pos(crate::fft::log2(domain_size as nat));
        }
        challenge_mod(challenge, domain_size)
    }
}

/// Reducing after each digit gives the same residue as reducing the whole
/// number: `((a mod d)·10 + x) mod d = (a·10 + x) mod d`.
proof fn lemma_mod_step(a: nat, x: nat, d: nat)
    requires
        d > 0,
    ensures
        ((a % d) * 10 + x) % d == (a * 10 + x) % d,
{
    vstd::arithmetic::div_mod::lemma_fundamental_div_mod(a as int, d as int);
    let q = a / d;
    let r = a % d;
    assert(a * 10 + x == (r * 10 + x) + d * (q * 10)) by (nonlinear_arith)
        requires
            a == d * q + r,
    ;
    vstd::arithmetic::div_mod::lemma_mod_multiples_vanish((q * 10) as int, (r * 10 + x) as int, d as int);
}

/// Reduce a field element modulo a (power-of-two) `domain` — the low bits of its
/// canonical representative. Computed field-generically from the decimal image,
/// reducing at each digit so the accumulator stays small.
fn challenge_mod<F: ZkField>(value: F, domain: usize) -> (r: usize)
    requires
        domain > 0,
    ensures
        r == digits_value(value.spec_to_decimal()) % domain as nat,
        r < domain,
{
    let text = value.to_decimal();
    proof {
        F::lemma_decimal_digits(value);
        assert(vstd::utf8::is_ascii_chars(text@));
        vstd::utf8::is_ascii_chars_encode_utf8(text@);
    }
    let bytes = text.as_str().as_bytes();
    let ghost chars = text@;
    assert(bytes@.len() == chars.len());
    let mut acc: usize = 0;
    let mut i: usize = 0;
    while i < bytes.len()
        invariant
            domain > 0,
            chars == value.spec_to_decimal(),
            all_digits(chars),
            bytes@.len() == chars.len(),
            forall|j: int| 0 <= j < chars.len() ==> #[trigger] bytes@[j] == chars[j] as u8,
            i <= bytes@.len(),
            acc < domain,
            acc == digits_value(chars.subrange(0, i as int)) % domain as nat,
        decreases bytes@.len() - i,
    {
        let b = bytes[i];
        let ghost prefix = chars.subrange(0, i as int);
        let ghost next = chars.subrange(0, i as int + 1);
        assert(next.drop_last() =~= prefix);
        assert('0' <= chars[i as int] <= '9');
        assert(b == chars[i as int] as u8);
        let digit = (b - 48u8) as u128;
        proof {
            lemma_mod_step(digits_value(prefix), digit as nat, domain as nat);
            assert(digits_value(next) == digits_value(prefix) * 10 + digit);
        }
        let wide = (acc as u128) * 10 + digit;
        acc = (wide % (domain as u128)) as usize;
        i = i + 1;
    }
    assert(chars.subrange(0, chars.len() as int) =~= chars);
    acc
}

} // verus!
