//! Transformations that weaken a stream.
//!
//! Each one wraps a source and yields, per draw, a fixed function of one or more draws of the
//! wrapped source. Applied to a weak generator they tend to make its structure visible.
use vstd::prelude::*;

use crate::Random;

verus! {

/// Discard one draw, return the next.
pub struct SkipOne<R>(pub R);

impl<R: Random> Random for SkipOne<R> {
    open spec fn upcoming(&self, i: nat) -> u64 {
        self.0.upcoming(2 * i + 1)
    }

    fn get_random(&mut self) -> (r: u64) {
        self.0.get_random();
        let r = self.0.get_random();
        proof {
            assert forall|i: nat| #[trigger] self.upcoming(i) == old(self).upcoming(i + 1) by {
                assert(2 * (i + 1) + 1 == (2 * i + 1) + 1 + 1);
            }
        }
        r
    }

    fn duplicate(&self) -> (r: Self) {
        SkipOne(self.0.duplicate())
    }
}

/// Discard two draws, return the next.
pub struct SkipTwo<R>(pub R);

impl<R: Random> Random for SkipTwo<R> {
    open spec fn upcoming(&self, i: nat) -> u64 {
        self.0.upcoming(3 * i + 2)
    }

    fn get_random(&mut self) -> (r: u64) {
        self.0.get_random();
        self.0.get_random();
        let r = self.0.get_random();
        proof {
            assert forall|i: nat| #[trigger] self.upcoming(i) == old(self).upcoming(i + 1) by {
                assert(3 * (i + 1) + 2 == (3 * i + 2) + 1 + 1 + 1);
            }
        }
        r
    }

    fn duplicate(&self) -> (r: Self) {
        SkipTwo(self.0.duplicate())
    }
}

/// Take the low 32 bits of two successive draws and join them into one value; the first draw gives the high half.
pub struct Concatenate32<R>(pub R);

impl<R: Random> Random for Concatenate32<R> {
    open spec fn upcoming(&self, i: nat) -> u64 {
        let a = self.0.upcoming(2 * i);
        let b = self.0.upcoming(2 * i + 1);
        (a << 32u64) | (b & 0xffff_ffffu64)
    }

    fn get_random(&mut self) -> (r: u64) {
        let a = self.0.get_random();
        let b = self.0.get_random();
        proof {
            assert forall|i: nat| #[trigger] self.upcoming(i) == old(self).upcoming(i + 1) by {
                assert(2 * (i + 1) == 2 * i + 1 + 1);
            }
        }
        (a << 32u64) | (b & 0xffff_ffffu64)
    }

    fn duplicate(&self) -> (r: Self) {
        Concatenate32(self.0.duplicate())
    }
}

/// Bitwise XOR of two successive draws.
pub struct Xor<R>(pub R);

impl<R: Random> Random for Xor<R> {
    open spec fn upcoming(&self, i: nat) -> u64 {
        let a = self.0.upcoming(2 * i);
        let b = self.0.upcoming(2 * i + 1);
        a ^ b
    }

    fn get_random(&mut self) -> (r: u64) {
        let a = self.0.get_random();
        let b = self.0.get_random();
        proof {
            assert forall|i: nat| #[trigger] self.upcoming(i) == old(self).upcoming(i + 1) by {
                assert(2 * (i + 1) == 2 * i + 1 + 1);
            }
        }
        a ^ b
    }

    fn duplicate(&self) -> (r: Self) {
        Xor(self.0.duplicate())
    }
}

/// Wrapping addition of two successive draws.
pub struct Add<R>(pub R);

impl<R: Random> Random for Add<R> {
    open spec fn upcoming(&self, i: nat) -> u64 {
        let a = self.0.upcoming(2 * i);
        let b = self.0.upcoming(2 * i + 1);
        a.wrapping_add(b)
    }

    fn get_random(&mut self) -> (r: u64) {
        let a = self.0.get_random();
        let b = self.0.get_random();
        proof {
            assert forall|i: nat| #[trigger] self.upcoming(i) == old(self).upcoming(i + 1) by {
                assert(2 * (i + 1) == 2 * i + 1 + 1);
            }
        }
        a.wrapping_add(b)
    }

    fn duplicate(&self) -> (r: Self) {
        Add(self.0.duplicate())
    }
}

/// Wrapping multiplication of two successive draws.
pub struct Multiply<R>(pub R);

impl<R: Random> Random for Multiply<R> {
    open spec fn upcoming(&self, i: nat) -> u64 {
        let a = self.0.upcoming(2 * i);
        let b = self.0.upcoming(2 * i + 1);
        a.wrapping_mul(b)
    }

    fn get_random(&mut self) -> (r: u64) {
        let a = self.0.get_random();
        let b = self.0.get_random();
        proof {
            assert forall|i: nat| #[trigger] self.upcoming(i) == old(self).upcoming(i + 1) by {
                assert(2 * (i + 1) == 2 * i + 1 + 1);
            }
        }
        a.wrapping_mul(b)
    }

    fn duplicate(&self) -> (r: Self) {
        Multiply(self.0.duplicate())
    }
}

/// Keep the lowest bit of a draw, all other bits cleared.
pub struct LastBit<R>(pub R);

impl<R: Random> Random for LastBit<R> {
    open spec fn upcoming(&self, i: nat) -> u64 {
        let a = self.0.upcoming(i);
        a & 1u64
    }

    fn get_random(&mut self) -> (r: u64) {
        let a = self.0.get_random();
        a & 1u64
    }

    fn duplicate(&self) -> (r: Self) {
        LastBit(self.0.duplicate())
    }
}

/// Wrapping multiplication of a draw by three.
pub struct MultiplyByThree<R>(pub R);

impl<R: Random> Random for MultiplyByThree<R> {
    open spec fn upcoming(&self, i: nat) -> u64 {
        let a = self.0.upcoming(i);
        a.wrapping_mul(3u64)
    }

    fn get_random(&mut self) -> (r: u64) {
        let a = self.0.get_random();
        a.wrapping_mul(3u64)
    }

    fn duplicate(&self) -> (r: Self) {
        MultiplyByThree(self.0.duplicate())
    }
}

/// Integer division of a draw by three.
pub struct ModularDivideByThree<R>(pub R);

impl<R: Random> Random for ModularDivideByThree<R> {
    open spec fn upcoming(&self, i: nat) -> u64 {
        let a = self.0.upcoming(i);
        a / 3u64
    }

    fn get_random(&mut self) -> (r: u64) {
        let a = self.0.get_random();
        a / 3u64
    }

    fn duplicate(&self) -> (r: Self) {
        ModularDivideByThree(self.0.duplicate())
    }
}

/// Rotate a draw left by seven bits.
pub struct Rol7<R>(pub R);

impl<R: Random> Random for Rol7<R> {
    open spec fn upcoming(&self, i: nat) -> u64 {
        let a = self.0.upcoming(i);
        (a << 7u64) | (a >> 57u64)
    }

    fn get_random(&mut self) -> (r: u64) {
        let a = self.0.get_random();
        (a << 7u64) | (a >> 57u64)
    }

    fn duplicate(&self) -> (r: Self) {
        Rol7(self.0.duplicate())
    }
}


/// The number of set bits among the lowest `n` bits of `v`.
pub open spec fn ones_below(v: u64, n: nat) -> nat
    decreases n,
{
    if n == 0 {
        0
    } else {
        ones_below(v, (n - 1) as nat) + ((v >> ((n - 1) as u64)) & 1u64) as nat
    }
}

/// Replace a draw with its population count, the number of its set bits.
pub struct Hamming<R>(pub R);

impl<R: Random> Random for Hamming<R> {
    open spec fn upcoming(&self, i: nat) -> u64 {
        ones_below(self.0.upcoming(i), 64) as u64
    }

    fn get_random(&mut self) -> (r: u64) {
        let a = self.0.get_random();
        let mut count: u64 = 0;
        let mut k: u64 = 0;
        while k < 64
            invariant
                k <= 64,
                count as nat == ones_below(a, k as nat),
                count <= k,
            decreases 64 - k,
        {
            let bit = (a >> k) & 1u64;
            assert(bit <= 1u64) by (bit_vector)
                requires
                    bit == (a >> k) & 1u64,
            ;
            count = count + bit;
            k = k + 1;
        }
        count
    }

    fn duplicate(&self) -> (r: Self) {
        Hamming(self.0.duplicate())
    }
}

/// How many draws of the wrapped source one output of [`ParitySkip`] takes, given the first
/// of them: two when it is even, three when it is odd.
pub open spec fn parity_width(v: u64) -> nat {
    if v % 2 == 0 {
        2
    } else {
        3
    }
}

/// The position, among the draws of `src`, at which the `i`-th output of [`ParitySkip`]
/// starts.
pub open spec fn parity_start<R: Random>(src: R, i: nat) -> nat
    decreases i,
{
    if i == 0 {
        0
    } else {
        let p = parity_start(src, (i - 1) as nat);
        p + parity_width(src.upcoming(p))
    }
}

/// After the first output, the outputs of a source shifted by that output's width start
/// where those of the unshifted source do, less the width.
proof fn lemma_parity_start_shift<R: Random>(a: R, b: R, i: nat)
    requires
        forall|j: nat| #[trigger] b.upcoming(j) == a.upcoming(j + parity_width(a.upcoming(0))),
    ensures
        parity_start(a, i + 1) == parity_start(b, i) + parity_width(a.upcoming(0)),
    decreases i,
{
    let w = parity_width(a.upcoming(0));
    if i == 0 {
        assert(parity_start(a, 0) == 0);
    } else {
        lemma_parity_start_shift(a, b, (i - 1) as nat);
        assert((i - 1) as nat + 1 == i);
        let p = parity_start(b, (i - 1) as nat);
        assert(parity_start(a, i) == p + w);
        assert(b.upcoming(p) == a.upcoming(p + w));
        assert(parity_start(b, i) == p + parity_width(b.upcoming(p)));
        assert(parity_start(a, i + 1) == parity_start(a, i) + parity_width(
            a.upcoming(parity_start(a, i)),
        ));
    }
}

/// Two sources with the same upcoming draws have their outputs start at the same places.
pub proof fn lemma_parity_start_same<R: Random>(a: R, b: R, i: nat)
    requires
        forall|j: nat| #[trigger] b.upcoming(j) == a.upcoming(j),
    ensures
        parity_start(a, i) == parity_start(b, i),
    decreases i,
{
    if i > 0 {
        lemma_parity_start_same(a, b, (i - 1) as nat);
        let p = parity_start(a, (i - 1) as nat);
        assert(b.upcoming(p) == a.upcoming(p));
    }
}

/// Wrapped around two sources with the same upcoming draws, [`ParitySkip`] yields the same
/// values.
pub proof fn lemma_parity_skip_same<R: Random>(a: R, b: R)
    requires
        forall|j: nat| #[trigger] b.upcoming(j) == a.upcoming(j),
    ensures
        forall|i: nat| #[trigger] ParitySkip(b).upcoming(i) == ParitySkip(a).upcoming(i),
{
    assert forall|i: nat| #[trigger] ParitySkip(b).upcoming(i) == ParitySkip(a).upcoming(i) by {
        lemma_parity_start_same(a, b, i);
        let p = parity_start(a, i);
        assert(b.upcoming(p) == a.upcoming(p));
    }
}

/// The output of [`Xor`] at step `i`, wrapped around a duplicate `dup` of `src`, is the XOR of
/// the draws `2 * i` and `2 * i + 1` of `src`.
pub proof fn lemma_xor_of_pairs<R: Random>(src: R, dup: R, i: nat)
    requires
        forall|j: nat| #[trigger] dup.upcoming(j) == src.upcoming(j),
    ensures
        Xor(dup).upcoming(i) == src.upcoming(2 * i) ^ src.upcoming(2 * i + 1),
{
}

/// Draw a value; skip one more draw when it is odd; then return the next draw.
pub struct ParitySkip<R>(pub R);

impl<R: Random> Random for ParitySkip<R> {
    open spec fn upcoming(&self, i: nat) -> u64 {
        let p = parity_start(self.0, i);
        self.0.upcoming((p + parity_width(self.0.upcoming(p)) - 1) as nat)
    }

    fn get_random(&mut self) -> (r: u64) {
        let ghost before = self.0;
        let x = self.0.get_random();
        let r = if x % 2 == 0 {
            self.0.get_random()
        } else {
            self.0.get_random();
            self.0.get_random()
        };
        proof {
            let w = parity_width(x);
            assert forall|j: nat| #[trigger] self.0.upcoming(j) == before.upcoming(j + w) by {
                if x % 2 == 0 {
                    assert(j + w == j + 1 + 1);
                } else {
                    assert(j + w == j + 1 + 1 + 1);
                }
            }
            assert(parity_start(before, 1) == w) by {
                assert(parity_start(before, 0) == 0);
            }
            assert forall|i: nat| #[trigger] self.upcoming(i) == old(self).upcoming(i + 1) by {
                lemma_parity_start_shift(before, self.0, i);
                let q = parity_start(self.0, i);
                assert(self.0.upcoming(q) == before.upcoming(q + w));
                let v = parity_width(self.0.upcoming(q));
                assert(self.0.upcoming((q + v - 1) as nat) == before.upcoming(
                    ((q + v - 1) as nat + w) as nat,
                ));
            }
        }
        r
    }

    fn duplicate(&self) -> (r: Self) {
        let r = ParitySkip(self.0.duplicate());
        proof {
            lemma_parity_skip_same(self.0, r.0);
        }
        r
    }
}

} // verus!
