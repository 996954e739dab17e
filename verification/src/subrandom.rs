//! Sub-random sequences: sequences of numbers that cover their range more
//! evenly than random ones do.

use vstd::prelude::*;

verus! {

/// Bit `i` of `n`.
pub open spec fn bit(n: u64, i: u64) -> u64 {
    (n >> i) & 1
}

/// Or-ing in `v << s`, for a single bit `v`, sets bit `s` to `v` and leaves
/// the others as they were.
proof fn lemma_or_bit(res: u64, v: u64, s: u64, i: u64)
    requires
        v <= 1,
        s < 64,
        i < 64,
        bit(res, s) == 0,
    ensures
        bit(res | (v << s), i) == if i == s {
            v
        } else {
            bit(res, i)
        },
{
    assert(((res | (v << s)) >> i) & 1 == if i == s {
        v
    } else {
        (res >> i) & 1
    }) by (bit_vector)
        requires
            v <= 1,
            s < 64,
            i < 64,
            (res >> s) & 1 == 0,
    ;
}

/// Every bit of zero is clear.
proof fn lemma_zero_bits(i: u64)
    requires
        i < 64,
    ensures
        bit(0, i) == 0,
{
    assert((0u64 >> i) & 1 == 0) by (bit_vector);
}

/// The van der Corput sequence in base two: the `n`th number is `n` with
/// the order of its 64 bits reversed.
pub struct VanderCorput(u64);

impl VanderCorput {
    /// How many numbers have been taken so far.
    pub closed spec fn count(&self) -> u64 {
        self.0
    }

    /// A sequence that starts from zero.
    pub fn new() -> (r: Self)
        ensures
            r.count() == 0,
    {
        VanderCorput(0)
    }

    /// The next number of the sequence: the count with its bits reversed.
    pub fn next_u64(&mut self) -> (r: u64)
        requires
            old(self).count() < u64::MAX,
        ensures
            final(self).count() == old(self).count() + 1,
            forall|i: u64| i < 64 ==> #[trigger] bit(r, i) == bit(old(self).count(), (63 - i) as u64),
    {
        let n = self.0;
        let mut res: u64 = 0;
        let mut src: u64 = 0;
        assert forall|i: u64| i < 64 implies #[trigger] bit(res, i) == 0 by {
            lemma_zero_bits(i);
        }
        while src < 64
            invariant
                src <= 64,
                forall|i: u64| 64 - src <= i < 64 ==> #[trigger] bit(res, i) == bit(n, (63 - i) as u64),
                forall|i: u64| i < 64 - src ==> #[trigger] bit(res, i) == 0,
            decreases 64 - src,
        {
            let val = (n >> src) & 1;
            assert(val <= 1) by (bit_vector)
                requires
                    val == (n >> src) & 1,
            ;
            let dst = 63 - src;
            let next = res | (val << dst);
            assert forall|i: u64| i < 64 implies #[trigger] bit(next, i) == if i == dst {
                val
            } else {
                bit(res, i)
            } by {
                lemma_or_bit(res, val, dst, i);
            }
            res = next;
            src = src + 1;
        }
        self.0 = n + 1;
        res
    }

    /// The high half of the next number of the sequence.
    pub fn next_u32(&mut self) -> (r: u32)
        requires
            old(self).count() < u64::MAX,
        ensures
            final(self).count() == old(self).count() + 1,
            forall|i: u64| i < 32 ==> #[trigger] bit(r as u64, i) == bit(old(self).count(), (31 - i) as u64),
    {
        let v = self.next_u64();
        let r = (v >> 32u64) as u32;
        assert forall|i: u64| i < 32 implies #[trigger] bit(r as u64, i) == bit(v, (i + 32) as u64) by {
            assert(((((v >> 32u64) as u32) as u64) >> i) & 1 == (v >> (i + 32)) & 1)
                by (bit_vector)
                requires
                    i < 32,
            ;
        }
        r
    }
}

} // verus!
