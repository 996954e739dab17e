//! Drawing bytes from a pool through an `InfoTap`, and a shrinker that
//! works on taps.

use crate::data::shrinkers::{bit_length, lemma_bit_length_ge, scalar_shrinks, shrunk_byte, ulog2};
use crate::data::source::{padded, InfoPool, InfoSource};
use vstd::arithmetic::power2::{lemma2_to64, lemma_pow2_pos, lemma_pow2_strictly_increases, pow2};
use vstd::bits::{lemma_u8_shr_is_div, lemma_usize_shl_is_mul, lemma_usize_shr_is_div};
use vstd::prelude::*;

verus! {

/// A handle to an info pool that we can draw bytes from: the pool's bytes,
/// then zeros.
pub struct InfoTap<'a> {
    data: &'a [u8],
    off: usize,
    count: Ghost<nat>,
}

impl<'a> InfoTap<'a> {
    #[verifier::type_invariant]
    spec fn well_formed(&self) -> bool {
        &&& self.count@ <= usize::MAX ==> self.off == self.count@
        &&& self.count@ > usize::MAX ==> self.off == usize::MAX
    }

    /// The bytes being drawn from.
    pub closed spec fn source_bytes(&self) -> Seq<u8> {
        self.data@
    }

    /// Consumes the next byte from this tap: the pool's next byte while
    /// there is one, and zero after.
    pub fn next_byte(&mut self) -> (b: u8)
        ensures
            final(self).source_bytes() == old(self).source_bytes(),
            final(self).drawn() == old(self).drawn().push(b),
    {
        proof {
            use_type_invariant(&*self);
        }
        let ghost before = self.drawn();
        let res = if self.off < self.data.len() {
            self.data[self.off]
        } else {
            0
        };
        *self = InfoTap {
            data: self.data,
            off: self.off.saturating_add(1),
            count: Ghost(self.count@ + 1),
        };
        assert(self.drawn() =~= before.push(res));
        res
    }

    /// The next byte, as an iterator would give it: a tap never runs dry.
    pub fn next(&mut self) -> (r: Option<u8>)
        ensures
            r is Some,
            final(self).source_bytes() == old(self).source_bytes(),
            final(self).drawn() == old(self).drawn().push(r->0),
    {
        Some(self.next_byte())
    }
}

impl<'a> Clone for InfoTap<'a> {
    fn clone(&self) -> (r: Self)
        ensures
            r == *self,
    {
        proof {
            use_type_invariant(self);
        }
        InfoTap { data: self.data, off: self.off, count: Ghost(self.count@) }
    }
}

impl<'a> InfoSource for InfoTap<'a> {
    closed spec fn drawn(&self) -> Seq<u8> {
        padded(self.data@, self.count@)
    }

    closed spec fn origin(&self) -> Seq<u8> {
        self.data@
    }

    fn draw_u8(&mut self) -> (b: u8)
        ensures
            (*final(self)).source_bytes() == old(self).source_bytes(),
    {
        self.next_byte()
    }

    fn open_region(&mut self) {
    }

    fn close_region(&mut self) {
    }
}

/// A tap has drawn the first bytes of its pool, followed by zeros.
pub proof fn lemma_tap_drawn(t: &InfoTap)
    ensures
        t.origin() == t.source_bytes(),
        t.drawn() == padded(t.source_bytes(), t.drawn().len()),
{
}

impl InfoPool {
    /// Creates a tap that allows drawing information from this pool.
    pub fn tap(&self) -> (r: InfoTap)
        ensures
            r.source_bytes() == self@,
            r.drawn() == Seq::<u8>::empty(),
    {
        let r = InfoTap { data: self.buffer(), off: 0, count: Ghost(0) };
        assert(r.drawn() =~= Seq::<u8>::empty());
        r
    }
}

/// The sum of the bytes of `s`.
pub open spec fn byte_sum(s: Seq<u8>) -> nat
    decreases s.len(),
{
    if s.len() == 0 {
        0
    } else {
        byte_sum(s.drop_last()) + s.last() as nat
    }
}

proof fn lemma_byte_sum_update(s: Seq<u8>, i: int, v: u8)
    requires
        0 <= i < s.len(),
    ensures
        byte_sum(s.update(i, v)) + s[i] == byte_sum(s) + v,
    decreases s.len(),
{
    if i < s.len() - 1 {
        lemma_byte_sum_update(s.drop_last(), i, v);
        assert(s.update(i, v).drop_last() =~= s.drop_last().update(i, v));
    } else {
        assert(s.update(i, v).drop_last() =~= s.drop_last());
    }
}

/// Whether the bytes `q` are smaller than the bytes `p`: fewer of them, or
/// as many with a smaller sum.
pub open spec fn smaller_pool(q: Seq<u8>, p: Seq<u8>) -> bool {
    q.len() < p.len() || (q.len() == p.len() && byte_sum(q) < byte_sum(p))
}

/// Whether the bytes `q` come before the bytes `p` in shortlex order: fewer
/// of them, or as many and smaller at the first place where they differ.
pub open spec fn shortlex_smaller(q: Seq<u8>, p: Seq<u8>) -> bool {
    ||| q.len() < p.len()
    ||| q.len() == p.len() && exists|i: int|
        0 <= i < p.len() && q.take(i) == p.take(i) && #[trigger] q[i] < p[i]
}

/// Shortlex order is transitive.
pub proof fn lemma_shortlex_transitive(a: Seq<u8>, b: Seq<u8>, c: Seq<u8>)
    requires
        shortlex_smaller(a, b),
        shortlex_smaller(b, c),
    ensures
        shortlex_smaller(a, c),
{
    if a.len() == b.len() && b.len() == c.len() {
        let i = choose|i: int| 0 <= i < b.len() && a.take(i) == b.take(i) && #[trigger] a[i] < b[i];
        let j = choose|j: int| 0 <= j < c.len() && b.take(j) == c.take(j) && #[trigger] b[j] < c[j];
        if i <= j {
            assert(a.take(i) =~= c.take(i)) by {
                assert forall|k: int| 0 <= k < i implies a.take(i)[k] == c.take(i)[k] by {
                    assert(a.take(i)[k] == b.take(i)[k]);
                    assert(b.take(j)[k] == c.take(j)[k]);
                }
            }
            if i == j {
                assert(a[i] < c[i]);
            } else {
                assert(b.take(j)[i] == c.take(j)[i]);
                assert(a[i] < c[i]);
            }
        } else {
            assert(a.take(j) =~= c.take(j)) by {
                assert forall|k: int| 0 <= k < j implies a.take(j)[k] == c.take(j)[k] by {
                    assert(a.take(i)[k] == b.take(i)[k]);
                    assert(b.take(j)[k] == c.take(j)[k]);
                }
            }
            assert(a.take(i)[j] == b.take(i)[j]);
            assert(a[j] < c[j]);
        }
    }
}

/// Whether `pred` answered `answer` for a fresh tap on the bytes `bytes`.
pub open spec fn answered<F: Fn(InfoTap) -> bool>(pred: F, bytes: Seq<u8>, answer: bool) -> bool {
    exists|t: InfoTap|
        t.source_bytes() == bytes && t.drawn() == Seq::<u8>::empty() && #[trigger] call_ensures(
            pred,
            (t,),
            answer,
        )
}

/// The cuts that shrinking by removal tries on a pool of `len` bytes,
/// starting at granularity `g` and chunk `chunk`: at granularity `g` the
/// pool is cut into `2^g` chunks of `len >> g` bytes, each removed in turn.
pub open spec fn removal_cuts(len: nat, g: nat, chunk: nat) -> Seq<(nat, nat)>
    decreases bit_length(len) - g, pow2(g) - chunk,
{
    if g >= bit_length(len) {
        Seq::empty()
    } else if chunk >= pow2(g) {
        removal_cuts(len, g + 1, 0)
    } else {
        let width = len / pow2(g);
        seq![(chunk * width, chunk * width + width)] + removal_cuts(len, g, chunk + 1)
    }
}

/// The bytes `p` with the bytes `cut.0 .. cut.1` removed.
pub open spec fn cut_out(p: Seq<u8>, cut: (nat, nat)) -> Seq<u8> {
    p.take(cut.0 as int) + p.skip(cut.1 as int)
}

/// The candidates, in order, that shrinking tries for the bytes `p`: each
/// removal cut, then each scalar shrink.
pub open spec fn tap_candidates(p: Seq<u8>) -> Seq<Seq<u8>> {
    removal_cuts(p.len(), 0, 0).map_values(|c: (nat, nat)| cut_out(p, c)) + scalar_shrinks(p, 0, 0)
}

/// Removal cuts never reach past the pool, and remove at least one byte.
proof fn lemma_removal_cut_bounds(len: nat, g: nat, chunk: nat)
    requires
        g < bit_length(len),
        chunk < pow2(g),
    ensures
        ({
            let width = len / pow2(g);
            &&& width >= 1
            &&& chunk * width + width <= len
        }),
{
    lemma_pow2_pos(g);
    lemma_bit_length_ge_inv(len, g);
    let width = len / pow2(g);
    let p = pow2(g);
    assert(width >= 1) by (nonlinear_arith)
        requires
            p <= len,
            p > 0,
            width == len / p,
    ;
    assert(chunk * width + width <= len) by (nonlinear_arith)
        requires
            chunk < p,
            p > 0,
            width == len / p,
    {
        assert(chunk * width + width == (chunk + 1) * width);
        assert((chunk + 1) * width <= p * width);
        assert(p * width <= len);
    }
}

/// A value needs more than `g` bits only if it is at least `2^g`.
proof fn lemma_bit_length_ge_inv(v: nat, g: nat)
    requires
        g < bit_length(v),
    ensures
        pow2(g) <= v,
{
    if v < pow2(g) {
        crate::data::shrinkers::lemma_bit_length_le(v, g);
    }
}

/// A power of two no larger than a `usize` has an exponent below the
/// width of `usize`.
proof fn lemma_exponent_fits_usize(g: nat, v: nat)
    requires
        pow2(g) <= v <= usize::MAX,
    ensures
        g < usize::BITS,
{
    lemma2_to64();
    if g >= usize::BITS {
        if g > usize::BITS {
            lemma_pow2_strictly_increases(usize::BITS as nat, g);
        }
    }
}

/// Shrinking by removal: tries each removal cut in turn.
fn minimize_via_removal<F: Fn(InfoTap) -> bool>(p: &InfoPool, pred: &F) -> (r: Option<InfoPool>)
    requires
        forall|t: InfoTap| call_requires(*pred, (t,)),
    ensures
        r matches Some(q) ==> smaller_pool(q@, p@) && shortlex_smaller(q@, p@) && answered(
            *pred,
            q@,
            true,
        ),
        r matches Some(q) ==> forall|j: int|
            0 <= j < tap_candidates(q@).len() ==> answered(
                *pred,
                #[trigger] tap_candidates(q@)[j],
                false,
            ),
        r is Some ==> exists|i: int| 0 <= i < removal_cuts(p@.len(), 0, 0).len() && answered(*pred, cut_out(p@, #[trigger] removal_cuts(p@.len(), 0, 0)[i]), true),
        r is None ==> forall|i: int|
            0 <= i < removal_cuts(p@.len(), 0, 0).len() ==> answered(
                *pred,
                cut_out(p@, #[trigger] removal_cuts(p@.len(), 0, 0)[i]),
                false,
            ),
    decreases p@.len(), byte_sum(p@), 0nat,
{
    let len = p.len();
    let pow = ulog2(len);
    let ghost all = removal_cuts(len as nat, 0, 0);
    let mut granularity: usize = 0;
    while granularity < pow
        invariant
            len == p@.len(),
            pow == bit_length(len as nat),
            granularity <= pow,
            forall|t: InfoTap| call_requires(*pred, (t,)),
            all == removal_cuts(len as nat, 0, 0),
            ({
                let rest = removal_cuts(len as nat, granularity as nat, 0);
                &&& rest.len() <= all.len()
                &&& all.skip(all.len() - rest.len()) == rest
                &&& forall|i: int|
                    0 <= i < all.len() - rest.len() ==> answered(
                        *pred,
                        cut_out(p@, #[trigger] all[i]),
                        false,
                    )
            }),
        decreases pow - granularity,
    {
        proof {
            lemma_bit_length_ge_inv(len as nat, granularity as nat);
            lemma_exponent_fits_usize(granularity as nat, len as nat);
            lemma_usize_shr_is_div(len, granularity);
            lemma_pow2_pos(granularity as nat);
            lemma_usize_shl_is_mul(1, granularity);
        }
        let width = len >> granularity;
        let chunks: usize = 1usize << granularity;
        let mut chunk: usize = 0;
        while chunk < chunks
            invariant
                len == p@.len(),
                pow == bit_length(len as nat),
                granularity < pow,
                chunks == pow2(granularity as nat),
                width == len as nat / pow2(granularity as nat),
                chunk <= chunks,
                forall|t: InfoTap| call_requires(*pred, (t,)),
                all == removal_cuts(len as nat, 0, 0),
                ({
                    let rest = removal_cuts(len as nat, granularity as nat, chunk as nat);
                    &&& rest.len() <= all.len()
                    &&& all.skip(all.len() - rest.len()) == rest
                    &&& forall|i: int|
                        0 <= i < all.len() - rest.len() ==> answered(
                            *pred,
                            cut_out(p@, #[trigger] all[i]),
                            false,
                        )
                }),
            decreases chunks - chunk,
        {
            proof {
                lemma_removal_cut_bounds(len as nat, granularity as nat, chunk as nat);
            }
            let ghost rest = removal_cuts(len as nat, granularity as nat, chunk as nat);
            let ghost next_rest = removal_cuts(len as nat, granularity as nat, (chunk + 1) as nat);
            let start = chunk * width;
            let end = start + width;
            assert(rest == seq![(start as nat, end as nat)] + next_rest);
            let candidate = p.without(start, end);
            proof {
                let k = all.len() - rest.len();
                assert(all[k] == (start as nat, end as nat)) by {
                    assert(all.skip(k)[0] == all[k]);
                }
                assert(cut_out(p@, (start as nat, end as nat)) =~= candidate@);
            }
            let tap = candidate.tap();
            let test = pred(tap);
            if test {
                assert(answered(*pred, candidate@, true));
                assert(answered(*pred, cut_out(p@, all[all.len() - rest.len()]), true));
                let shrunk = minimize(&candidate, pred);
                match shrunk {
                    Some(q) => {
                        return Some(q);
                    },
                    None => {
                        return Some(candidate);
                    },
                }
            }
            assert(answered(*pred, candidate@, false));
            proof {
                let k = all.len() - rest.len();
                assert(all[k] == (start as nat, end as nat)) by {
                    assert(all.skip(k)[0] == all[k]);
                }
                assert(all.skip(all.len() - next_rest.len()) =~= next_rest) by {
                    assert forall|j: int| 0 <= j < next_rest.len() implies all.skip(
                        all.len() - next_rest.len(),
                    )[j] == next_rest[j] by {
                        assert(all.skip(k)[j + 1] == rest[j + 1]);
                    }
                }
                assert(cut_out(p@, (start as nat, end as nat)) =~= candidate@);
            }
            chunk = chunk + 1;
        }
        proof {
            assert(removal_cuts(len as nat, granularity as nat, chunk as nat) == removal_cuts(
                len as nat,
                (granularity + 1) as nat,
                0,
            ));
        }
        granularity = granularity + 1;
    }
    proof {
        assert(removal_cuts(len as nat, granularity as nat, 0).len() == 0);
    }
    None
}

proof fn lemma_u8_shr_div(v: u8, b: u32)
    requires
        b < 8,
    ensures
        v >> b == v as nat / pow2(b as nat),
        v >> b <= v,
{
    lemma_u8_shr_is_div(v, b as u8);
    assert(v >> b == v >> (b as u8)) by (bit_vector)
        requires
            b < 8,
    ;
    lemma_pow2_pos(b as nat);
}

/// Shrinking by value: for each byte in turn, tries it reduced to zero,
/// then by a half, by a quarter, and so on.
fn minimize_via_scalar_shrink<F: Fn(InfoTap) -> bool>(p: &InfoPool, pred: &F) -> (r: Option<
    InfoPool,
>)
    requires
        forall|t: InfoTap| call_requires(*pred, (t,)),
    ensures
        r matches Some(q) ==> smaller_pool(q@, p@) && shortlex_smaller(q@, p@) && answered(
            *pred,
            q@,
            true,
        ),
        r matches Some(q) ==> forall|j: int|
            0 <= j < tap_candidates(q@).len() ==> answered(
                *pred,
                #[trigger] tap_candidates(q@)[j],
                false,
            ),
        r is Some ==> exists|i: int| 0 <= i < scalar_shrinks(p@, 0, 0).len() && answered(*pred, #[trigger] scalar_shrinks(p@, 0, 0)[i], true),
        r is None ==> forall|i: int|
            0 <= i < scalar_shrinks(p@, 0, 0).len() ==> answered(
                *pred,
                #[trigger] scalar_shrinks(p@, 0, 0)[i],
                false,
            ),
    decreases p@.len(), byte_sum(p@), 0nat,
{
    let len = p.len();
    let ghost all = scalar_shrinks(p@, 0, 0);
    let mut i: usize = 0;
    while i < len
        invariant
            len == p@.len(),
            i <= len,
            forall|t: InfoTap| call_requires(*pred, (t,)),
            all == scalar_shrinks(p@, 0, 0),
            ({
                let rest = scalar_shrinks(p@, i as nat, 0);
                &&& rest.len() <= all.len()
                &&& all.skip(all.len() - rest.len()) == rest
                &&& forall|k: int|
                    0 <= k < all.len() - rest.len() ==> answered(*pred, #[trigger] all[k], false)
            }),
        decreases len - i,
    {
        let orig = p.byte(i);
        let mut bitoff: u32 = 0;
        while bitoff < 8
            invariant
                len == p@.len(),
                i < len,
                orig == p@[i as int],
                bitoff <= 8,
                forall|t: InfoTap| call_requires(*pred, (t,)),
                all == scalar_shrinks(p@, 0, 0),
                ({
                    let rest = if bitoff < 8 {
                        scalar_shrinks(p@, i as nat, bitoff as nat)
                    } else {
                        scalar_shrinks(p@, (i + 1) as nat, 0)
                    };
                    &&& rest.len() <= all.len()
                    &&& all.skip(all.len() - rest.len()) == rest
                    &&& forall|k: int|
                        0 <= k < all.len() - rest.len() ==> answered(*pred, #[trigger] all[k], false)
                }),
            decreases 8 - bitoff,
        {
            proof {
                lemma_u8_shr_div(orig, bitoff);
            }
            let ghost rest = scalar_shrinks(p@, i as nat, bitoff as nat);
            let new_val = orig - (orig >> bitoff);
            assert(new_val == shrunk_byte(orig, bitoff as nat));
            if new_val == orig {
                proof {
                    if bitoff + 1 < 8 {
                        if bitoff >= bit_length(orig as nat) {
                            assert(rest == scalar_shrinks(p@, (i + 1) as nat, 0));
                            lemma_scalar_skip_tail(p@, i as nat, bitoff as nat);
                        } else {
                            assert(rest == scalar_shrinks(p@, i as nat, (bitoff + 1) as nat));
                        }
                    } else {
                        assert(scalar_shrinks(p@, i as nat, 8) == scalar_shrinks(
                            p@,
                            (i + 1) as nat,
                            0,
                        ));
                        assert(rest == scalar_shrinks(p@, (i + 1) as nat, 0));
                    }
                }
                bitoff = bitoff + 1;
                continue;
            }
            proof {
                lemma_scalar_change_means_small(orig, bitoff as nat);
                lemma_bit_length_ge(orig as nat, bitoff as nat);
            }
            let candidate = p.with_byte(i, new_val);
            let ghost next_rest = if bitoff + 1 < 8 {
                scalar_shrinks(p@, i as nat, (bitoff + 1) as nat)
            } else {
                scalar_shrinks(p@, (i + 1) as nat, 0)
            };
            proof {
                if bitoff + 1 >= 8 {
                    assert(scalar_shrinks(p@, i as nat, (bitoff + 1) as nat) == scalar_shrinks(
                        p@,
                        (i + 1) as nat,
                        0,
                    ));
                }
                assert(rest == seq![candidate@] + next_rest);
            }
            let tap = candidate.tap();
            let test = pred(tap);
            proof {
                lemma_byte_sum_update(p@, i as int, new_val);
                assert(candidate@.take(i as int) =~= p@.take(i as int));
                assert(candidate@[i as int] < p@[i as int]);
                assert(shortlex_smaller(candidate@, p@));
                let k = all.len() - rest.len();
                assert(all[k] == candidate@) by {
                    assert(all.skip(k)[0] == all[k]);
                }
            }
            if test {
                assert(answered(*pred, candidate@, true));
                assert(answered(*pred, all[all.len() - rest.len()], true));
                let shrunk = minimize(&candidate, pred);
                match shrunk {
                    Some(q) => {
                        proof {
                            lemma_shortlex_transitive(q@, candidate@, p@);
                        }
                        return Some(q);
                    },
                    None => {
                        return Some(candidate);
                    },
                }
            }
            assert(answered(*pred, candidate@, false));
            proof {
                let k = all.len() - rest.len();
                assert(all[k] == candidate@) by {
                    assert(all.skip(k)[0] == all[k]);
                }
                assert(all.skip(all.len() - next_rest.len()) =~= next_rest) by {
                    assert forall|j: int| 0 <= j < next_rest.len() implies all.skip(
                        all.len() - next_rest.len(),
                    )[j] == next_rest[j] by {
                        assert(all.skip(k)[j + 1] == rest[j + 1]);
                    }
                }
            }
            bitoff = bitoff + 1;
        }
        i = i + 1;
    }
    proof {
        assert(scalar_shrinks(p@, i as nat, 0).len() == 0);
    }
    None
}

/// Once the shift reaches the byte's bit length, no shift of the byte is
/// tried any more.
proof fn lemma_scalar_skip_tail(s: Seq<u8>, pos: nat, bitoff: nat)
    requires
        pos < s.len(),
        bitoff >= bit_length(s[pos as int] as nat),
        bitoff < 8,
    ensures
        scalar_shrinks(s, pos, bitoff + 1) == scalar_shrinks(s, pos + 1, 0),
{
}

/// A shift that changes a byte lowers it.
proof fn lemma_scalar_change_means_small(v: u8, bitoff: nat)
    requires
        shrunk_byte(v, bitoff) != v,
    ensures
        shrunk_byte(v, bitoff) < v,
        pow2(bitoff) <= v,
{
    if v < pow2(bitoff) {
        assert(v as nat / pow2(bitoff) == 0) by (nonlinear_arith)
            requires
                v < pow2(bitoff),
        ;
    }
    lemma_pow2_pos(bitoff);
    assert(v as nat / pow2(bitoff) <= v) by (nonlinear_arith)
        requires
            pow2(bitoff) >= 1,
    ;
}

/// Try to find the smallest pool `p` such that the predicate `pred` returns
/// true, by two heuristics: removing slices (each half, then each quarter,
/// eighth, and so on), and reducing individual values (to zero, then by a
/// half, a quarter, and so on). Each pool that `pred` accepts is shrunk
/// further in turn.
///
/// If we do not find any smaller pool that satisfies `pred`, we return
/// `None`.
pub fn minimize<F: Fn(InfoTap) -> bool>(p: &InfoPool, pred: &F) -> (r: Option<InfoPool>)
    requires
        forall|t: InfoTap| call_requires(*pred, (t,)),
    ensures
        r matches Some(q) ==> smaller_pool(q@, p@) && shortlex_smaller(q@, p@) && answered(
            *pred,
            q@,
            true,
        ),
        r matches Some(q) ==> forall|j: int|
            0 <= j < tap_candidates(q@).len() ==> answered(
                *pred,
                #[trigger] tap_candidates(q@)[j],
                false,
            ),
        r is Some ==> exists|i: int| 0 <= i < tap_candidates(p@).len() && answered(*pred, #[trigger] tap_candidates(p@)[i], true),
        r is None ==> forall|i: int|
            0 <= i < tap_candidates(p@).len() ==> answered(
                *pred,
                #[trigger] tap_candidates(p@)[i],
                false,
            ),
    decreases p@.len(), byte_sum(p@), 1nat,
{
    let ghost cuts = removal_cuts(p@.len(), 0, 0);
    let ghost removals = cuts.map_values(|c: (nat, nat)| cut_out(p@, c));
    let ghost scalars = scalar_shrinks(p@, 0, 0);
    assert(tap_candidates(p@) == removals + scalars);
    if let Some(res) = minimize_via_removal(p, pred) {
        proof {
            let i = choose|i: int|
                0 <= i < cuts.len() && answered(*pred, cut_out(p@, #[trigger] cuts[i]), true);
            assert(tap_candidates(p@)[i] == cut_out(p@, cuts[i]));
        }
        return Some(res);
    }
    if let Some(res) = minimize_via_scalar_shrink(p, pred) {
        proof {
            let i = choose|i: int|
                0 <= i < scalars.len() && answered(*pred, #[trigger] scalars[i], true);
            assert(tap_candidates(p@)[removals.len() + i] == scalars[i]);
        }
        return Some(res);
    }
    proof {
        assert forall|i: int| 0 <= i < tap_candidates(p@).len() implies answered(
            *pred,
            #[trigger] tap_candidates(p@)[i],
            false,
        ) by {
            if i < removals.len() {
                assert(tap_candidates(p@)[i] == cut_out(p@, cuts[i]));
            } else {
                assert(tap_candidates(p@)[i] == scalars[i - removals.len()]);
            }
        }
    }
    None
}

} // verus!
