//! A new approach to randomness testing.
//!
//! Diehardest rates the quality of pseudorandom streams with two components:
//!
//! 1. A number of transformations which will weaken weak RNGs.
//! 2. A collection of analytical tools, which rates the transformed streams.
//!
//! In contrast to many other randomness tests, diehardest is stream-aware, making it able to
//! detect many positional patterns that other tests cannot.
//!
//! A source is modelled by the values it will yield from its current state on: `upcoming(i)`
//! is the value of its `i`-th draw from now. Every draw shifts that sequence by one, and a
//! duplicate starts from the very same sequence.
use vstd::prelude::*;

pub mod analysis;
pub mod transform;

use crate::analysis::{report_of_source, sample_of, score_of, total_of, Report};
use crate::transform::{
    lemma_parity_skip_same, Add, Concatenate32, Hamming, LastBit, ModularDivideByThree, Multiply,
    MultiplyByThree, ParitySkip, Rol7, SkipOne, SkipTwo, Xor,
};

verus! {

/// A random number generator.
pub trait Random: Sized {
    /// The value that the `i`-th draw from the current state yields (`0` is the next draw).
    ///
    /// Every source of this crate defines it. The default, which a source written outside the
    /// verifier may keep, makes every draw one and the same unspecified value; nothing checks
    /// such a source against that.
    closed spec fn upcoming(&self, i: nat) -> u64 {
        arbitrary()
    }

    /// Get a random number.
    fn get_random(&mut self) -> (r: u64)
        ensures
            r == old(self).upcoming(0),
            forall|i: nat| #[trigger] final(self).upcoming(i) == old(self).upcoming(i + 1),
    ;

    /// A copy that continues from the same state as this source, and advances independently.
    fn duplicate(&self) -> (r: Self)
        ensures
            forall|i: nat| #[trigger] r.upcoming(i) == self.upcoming(i),
    ;
}

/// The score of the report on `t`.
pub open spec fn rating<T: Random>(t: T) -> nat {
    total_of(score_of(report_of_source(t)))
}

/// The figure that [`crush`] returns for `rand`: the ratings of the source itself and of each
/// of the twelve transformations of it, summed.
pub open spec fn crush_score<R: Random>(rand: R) -> nat {
    rating(rand)
        + rating(SkipOne(rand))
        + rating(SkipTwo(rand))
        + rating(Concatenate32(rand))
        + rating(Xor(rand))
        + rating(Add(rand))
        + rating(Multiply(rand))
        + rating(LastBit(rand))
        + rating(MultiplyByThree(rand))
        + rating(ModularDivideByThree(rand))
        + rating(Hamming(rand))
        + rating(ParitySkip(rand))
        + rating(Rol7(rand))
}

/// Two sources that will yield the same values get the same rating.
pub proof fn lemma_same_draws_same_rating<T: Random>(a: T, b: T)
    requires
        forall|i: nat| #[trigger] b.upcoming(i) == a.upcoming(i),
    ensures
        rating(a) == rating(b),
{
    assert(sample_of(a) =~= sample_of(b));
}

/// Crushing two sources that will yield the same values, such as a source and its duplicate,
/// gives the same figure.
pub proof fn lemma_crush_deterministic<R: Random>(a: R, b: R)
    requires
        forall|i: nat| #[trigger] b.upcoming(i) == a.upcoming(i),
    ensures
        crush_score(a) == crush_score(b),
{
    lemma_same_draws_same_rating(a, b);
    lemma_same_draws_same_rating(SkipOne(a), SkipOne(b));
    lemma_same_draws_same_rating(SkipTwo(a), SkipTwo(b));
    lemma_same_draws_same_rating(Concatenate32(a), Concatenate32(b));
    lemma_same_draws_same_rating(Xor(a), Xor(b));
    lemma_same_draws_same_rating(Add(a), Add(b));
    lemma_same_draws_same_rating(Multiply(a), Multiply(b));
    lemma_same_draws_same_rating(LastBit(a), LastBit(b));
    lemma_same_draws_same_rating(MultiplyByThree(a), MultiplyByThree(b));
    lemma_same_draws_same_rating(ModularDivideByThree(a), ModularDivideByThree(b));
    lemma_same_draws_same_rating(Hamming(a), Hamming(b));
    lemma_parity_skip_same(a, b);
    lemma_same_draws_same_rating(ParitySkip(a), ParitySkip(b));
    lemma_same_draws_same_rating(Rol7(a), Rol7(b));
}

/// Rate one stream: report on it and total the score.
fn rate<T: Random>(t: T) -> (r: u32)
    ensures
        r == rating(t),
        r <= u16::MAX,
{
    Report::new(t).get_score().total() as u32
}

/// Crush this random number generator.
///
/// This rates it based on analysis of itself and transformations of it, each made from a
/// duplicate of it.
pub fn crush<R: Random>(rand: R) -> (r: u32)
    ensures
        r == crush_score(rand),
{
    let own = rand.duplicate();
    let total: u32 = rate(own);
    proof {
        lemma_same_draws_same_rating(own, rand);
    }
    let dup = rand.duplicate();
    let total = total + rate(SkipOne(dup));
    proof {
        lemma_same_draws_same_rating(SkipOne(dup), SkipOne(rand));
    }
    let dup = rand.duplicate();
    let total = total + rate(SkipTwo(dup));
    proof {
        lemma_same_draws_same_rating(SkipTwo(dup), SkipTwo(rand));
    }
    let dup = rand.duplicate();
    let total = total + rate(Concatenate32(dup));
    proof {
        lemma_same_draws_same_rating(Concatenate32(dup), Concatenate32(rand));
    }
    let dup = rand.duplicate();
    let total = total + rate(Xor(dup));
    proof {
        lemma_same_draws_same_rating(Xor(dup), Xor(rand));
    }
    let dup = rand.duplicate();
    let total = total + rate(Add(dup));
    proof {
        lemma_same_draws_same_rating(Add(dup), Add(rand));
    }
    let dup = rand.duplicate();
    let total = total + rate(Multiply(dup));
    proof {
        lemma_same_draws_same_rating(Multiply(dup), Multiply(rand));
    }
    let dup = rand.duplicate();
    let total = total + rate(LastBit(dup));
    proof {
        lemma_same_draws_same_rating(LastBit(dup), LastBit(rand));
    }
    let dup = rand.duplicate();
    let total = total + rate(MultiplyByThree(dup));
    proof {
        lemma_same_draws_same_rating(MultiplyByThree(dup), MultiplyByThree(rand));
    }
    let dup = rand.duplicate();
    let total = total + rate(ModularDivideByThree(dup));
    proof {
        lemma_same_draws_same_rating(ModularDivideByThree(dup), ModularDivideByThree(rand));
    }
    let dup = rand.duplicate();
    let total = total + rate(Hamming(dup));
    proof {
        lemma_same_draws_same_rating(Hamming(dup), Hamming(rand));
    }
    let dup = rand.duplicate();
    let total = total + rate(ParitySkip(dup));
    proof {
        lemma_parity_skip_same(rand, dup);
        lemma_same_draws_same_rating(ParitySkip(dup), ParitySkip(rand));
    }
    let dup = rand.duplicate();
    let total = total + rate(Rol7(dup));
    proof {
        lemma_same_draws_same_rating(Rol7(dup), Rol7(rand));
    }
    total
}


/// The number that the bytes `s` spell in big-endian order.
pub open spec fn big_endian(s: Seq<u8>) -> nat
    decreases s.len(),
{
    if s.len() == 0 {
        0
    } else {
        big_endian(s.drop_last()) * 256 + s.last() as nat
    }
}

/// Assemble eight bytes, most significant first, into one value.
pub fn word_from_bytes(buf: &[u8; 8]) -> (r: u64)
    ensures
        r == big_endian(buf@),
{
    let mut x: u64 = 0;
    let mut i: usize = 0;
    while i < 8
        invariant
            i <= 8,
            x == big_endian(buf@.take(i as int)),
            x < pow256(i as nat),
        decreases 8 - i,
    {
        assert(buf@.take(i + 1).drop_last() == buf@.take(i as int));
        assert(pow256((i + 1) as nat) <= 0x1_0000_0000_0000_0000) by {
            reveal_with_fuel(pow256, 9);
            if i == 0 {
            } else if i == 1 {
            } else if i == 2 {
            } else if i == 3 {
            } else if i == 4 {
            } else if i == 5 {
            } else if i == 6 {
            } else {
            }
        }
        assert(x * 256 + 255 < pow256((i + 1) as nat)) by (nonlinear_arith)
            requires
                x < pow256(i as nat),
                pow256((i + 1) as nat) == pow256(i as nat) * 256,
        ;
        x = x * 256 + buf[i] as u64;
        i = i + 1;
    }
    assert(buf@.take(8) == buf@);
    x
}

/// `256` to the power `n`.
pub open spec fn pow256(n: nat) -> nat
    decreases n,
{
    if n == 0 {
        1
    } else {
        pow256((n - 1) as nat) * 256
    }
}

} // verus!
