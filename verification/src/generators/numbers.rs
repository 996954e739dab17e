use crate::data::source::{drawn_since, lemma_drawn_since_concat, regions_kept, DataError, InfoSource};
use crate::generators::base::{deterministic, lemma_prefix_same_len, Generator, Maybe};
use std::marker::PhantomData;
use vstd::arithmetic::power2::{
    lemma2_to64, lemma2_to64_rest, lemma_pow2_adds, lemma_pow2_strictly_increases, pow2,
};
use vstd::arithmetic::div_mod::{
    lemma_multiply_divide_lt, lemma_fundamental_div_mod, lemma_fundamental_div_mod_converse,
    lemma_mod_bound,
};
use vstd::bits::lemma_u128_shr_is_div;
use vstd::prelude::*;

verus! {

/// The big-endian value of the bytes `s`.
pub open spec fn be_value(s: Seq<u8>) -> nat
    decreases s.len(),
{
    if s.len() == 0 {
        0
    } else {
        be_value(s.drop_last()) * 256 + s.last() as nat
    }
}

/// The value of `n` bytes fits in `8 * n` bits.
pub proof fn lemma_be_value_bound(s: Seq<u8>)
    ensures
        be_value(s) < pow2(8 * s.len()),
    decreases s.len(),
{
    lemma2_to64();
    if s.len() > 0 {
        lemma_be_value_bound(s.drop_last());
        let k = 8 * (s.len() - 1);
        lemma_pow2_adds(k as nat, 8);
        assert(8 * s.len() == k + 8);
        let a = be_value(s.drop_last());
        let b = s.last() as nat;
        assert(a * 256 + b < pow2(k as nat) * 256) by (nonlinear_arith)
            requires
                a < pow2(k as nat),
                b < 256,
        ;
    }
}

/// Draws `nbytes` bytes from `src` and reads them as a big-endian number.
fn draw_big_endian<I: InfoSource>(src: &mut I, nbytes: usize) -> (r: u64)
    requires
        nbytes <= 8,
    ensures
        old(src).drawn().is_prefix_of((*final(src)).drawn()),
        (*final(src)).origin() == old(src).origin(),
        drawn_since(old(src).drawn(), (*final(src)).drawn()).len() == nbytes,
        r == be_value(drawn_since(old(src).drawn(), (*final(src)).drawn())),
        regions_kept(*old(src), *final(src)),
{
    let ghost d0 = src.drawn();
    let mut val: u64 = 0;
    let mut i: usize = 0;
    proof {
        lemma2_to64();
        lemma2_to64_rest();
        assert(drawn_since(d0, src.drawn()) =~= Seq::<u8>::empty());
    }
    while i < nbytes
        invariant
            i <= nbytes <= 8,
            d0.is_prefix_of(src.drawn()),
            src.origin() == old(src).origin(),
            drawn_since(d0, src.drawn()).len() == i,
            val == be_value(drawn_since(d0, src.drawn())),
            pow2(56) == 0x100_0000_0000_0000,
            regions_kept(*old(src), *src),
        decreases nbytes - i,
    {
        let ghost before = src.drawn();
        proof {
            lemma_be_value_bound(drawn_since(d0, before));
            if i < 7 {
                lemma_pow2_strictly_increases((8 * i) as nat, 56);
            }
        }
        let b = src.draw_u8();
        assert(val < 0x100_0000_0000_0000u64);
        assert((val << 8u64) | (b as u64) == val * 256 + b) by (bit_vector)
            requires
                val < 0x100_0000_0000_0000u64,
        ;
        val = (val << 8u64) | (b as u64);
        proof {
            assert(drawn_since(d0, src.drawn()) =~= drawn_since(d0, before).push(b));
            assert(drawn_since(d0, before).push(b).drop_last() =~= drawn_since(d0, before));
        }
        i = i + 1;
    }
    val
}

/// See [`u64s`](fn.u64s.html), [`i64s`](fn.i64s.html), etc.
#[derive(Debug)]
pub struct IntGenerator<N>(PhantomData<N>);

impl<N> Clone for IntGenerator<N> {
    fn clone(&self) -> (r: Self) {
        IntGenerator(PhantomData)
    }
}

/// Integer generators of one type are all the same generator.
pub proof fn lemma_int_generators_equal<N>(a: IntGenerator<N>, b: IntGenerator<N>)
    ensures
        a == b,
{
}

/// A generator that generates integers of type `u8`.
pub fn u8s() -> IntGenerator<u8> {
    IntGenerator(PhantomData)
}

/// A generator that generates integers of type `u16`.
pub fn u16s() -> IntGenerator<u16> {
    IntGenerator(PhantomData)
}

/// A generator that generates integers of type `u32`.
pub fn u32s() -> IntGenerator<u32> {
    IntGenerator(PhantomData)
}

/// A generator that generates integers of type `u64`.
pub fn u64s() -> IntGenerator<u64> {
    IntGenerator(PhantomData)
}

/// A generator that generates integers of type `usize`.
pub fn usizes() -> IntGenerator<usize> {
    IntGenerator(PhantomData)
}

/// A generator that generates the full range of `i8`.
pub fn i8s() -> IntGenerator<i8> {
    IntGenerator(PhantomData)
}

/// A generator that generates the full range of `i16`.
pub fn i16s() -> IntGenerator<i16> {
    IntGenerator(PhantomData)
}

/// A generator that generates the full range of `i32`.
pub fn i32s() -> IntGenerator<i32> {
    IntGenerator(PhantomData)
}

/// A generator that generates the full range of `i64`.
pub fn i64s() -> IntGenerator<i64> {
    IntGenerator(PhantomData)
}

/// A generator that generates the full range of `isize`.
pub fn isizes() -> IntGenerator<isize> {
    IntGenerator(PhantomData)
}

/// The number of bytes in a `usize`.
pub open spec fn usize_bytes() -> nat {
    (usize::BITS / 8) as nat
}

impl Generator for IntGenerator<u8> {
    type Item = u8;

    open spec fn wf(&self) -> bool {
        true
    }

    open spec fn generates(&self, d: Seq<u8>, r: Maybe<u8>) -> bool {
        d.len() == 1 && r == Ok::<u8, DataError>(be_value(d) as u8)
    }

    fn generate<I: InfoSource>(&self, src: &mut I) -> (r: Maybe<u8>) {
        let v = draw_big_endian(src, 1);
        proof {
            let d = drawn_since(old(src).drawn(), src.drawn());
            lemma2_to64();
            lemma_be_value_bound(d);
            assert(8 * d.len() == 8);
            assert(v < 0x100);
            assert(v as u8 == be_value(d) as u8);
            assert(self.generates(d, Ok(v as u8)));
        }
        Ok(v as u8)
    }
}

impl Generator for IntGenerator<u16> {
    type Item = u16;

    open spec fn wf(&self) -> bool {
        true
    }

    open spec fn generates(&self, d: Seq<u8>, r: Maybe<u16>) -> bool {
        d.len() == 2 && r == Ok::<u16, DataError>(be_value(d) as u16)
    }

    fn generate<I: InfoSource>(&self, src: &mut I) -> (r: Maybe<u16>) {
        let v = draw_big_endian(src, 2);
        proof {
            let d = drawn_since(old(src).drawn(), src.drawn());
            lemma2_to64();
            lemma_be_value_bound(d);
            assert(8 * d.len() == 16);
        }
        assert(v < 0x1_0000);
        Ok(v as u16)
    }
}

impl Generator for IntGenerator<u32> {
    type Item = u32;

    open spec fn wf(&self) -> bool {
        true
    }

    open spec fn generates(&self, d: Seq<u8>, r: Maybe<u32>) -> bool {
        d.len() == 4 && r == Ok::<u32, DataError>(be_value(d) as u32)
    }

    fn generate<I: InfoSource>(&self, src: &mut I) -> (r: Maybe<u32>) {
        let v = draw_big_endian(src, 4);
        proof {
            let d = drawn_since(old(src).drawn(), src.drawn());
            lemma2_to64();
            lemma_be_value_bound(d);
            assert(8 * d.len() == 32);
        }
        assert(v < 0x1_0000_0000);
        let r = v as u32;
        assert(r == v);
        proof {
            let d = drawn_since(old(src).drawn(), src.drawn());
            assert(be_value(d) as u32 == r);
            assert(d.len() == 4);
            assert(self.generates(d, Ok(r)));
        }
        Ok(r)
    }
}

impl Generator for IntGenerator<u64> {
    type Item = u64;

    open spec fn wf(&self) -> bool {
        true
    }

    open spec fn generates(&self, d: Seq<u8>, r: Maybe<u64>) -> bool {
        d.len() == 8 && r == Ok::<u64, DataError>(be_value(d) as u64)
    }

    fn generate<I: InfoSource>(&self, src: &mut I) -> (r: Maybe<u64>) {
        let v = draw_big_endian(src, 8);
        Ok(v)
    }
}

impl Generator for IntGenerator<usize> {
    type Item = usize;

    open spec fn wf(&self) -> bool {
        true
    }

    open spec fn generates(&self, d: Seq<u8>, r: Maybe<usize>) -> bool {
        d.len() == usize_bytes() && r == Ok::<usize, DataError>(be_value(d) as usize)
    }

    fn generate<I: InfoSource>(&self, src: &mut I) -> (r: Maybe<usize>) {
        let nbytes = (usize::BITS / 8) as usize;
        let v = draw_big_endian(src, nbytes);
        proof {
            lemma2_to64();
            lemma_be_value_bound(drawn_since(old(src).drawn(), src.drawn()));
        }
        Ok(v as usize)
    }
}

/// The signed value that the signed generators make of the unsigned value
/// `u`: half of `u`, negated when `u` is even.
pub open spec fn zigzag(u: nat) -> int {
    if u % 2 == 0 {
        -((u / 2) as int)
    } else {
        (u / 2) as int
    }
}

impl Generator for IntGenerator<i8> {
    type Item = i8;

    open spec fn wf(&self) -> bool {
        true
    }

    open spec fn generates(&self, d: Seq<u8>, r: Maybe<i8>) -> bool {
        d.len() == 1 && r == Ok::<i8, DataError>(zigzag(be_value(d)) as i8)
    }

    fn generate<I: InfoSource>(&self, src: &mut I) -> (r: Maybe<i8>) {
        let uval = match u8s().generate(src) {
            Ok(v) => v,
            Err(e) => {
                return Err(e);
            },
        };
        proof {
            lemma2_to64();
            lemma_be_value_bound(drawn_since(old(src).drawn(), src.drawn()));
        }
        assert(((uval & 1) == 0) == (uval % 2 == 0)) by (bit_vector);
        assert(uval >> 1 == uval / 2) by (bit_vector);
        let is_neg = (uval & 1) == 0;
        let uval = uval >> 1;
        if is_neg {
            Ok(-(uval as i8))
        } else {
            Ok(uval as i8)
        }
    }
}

impl Generator for IntGenerator<i16> {
    type Item = i16;

    open spec fn wf(&self) -> bool {
        true
    }

    open spec fn generates(&self, d: Seq<u8>, r: Maybe<i16>) -> bool {
        d.len() == 2 && r == Ok::<i16, DataError>(zigzag(be_value(d)) as i16)
    }

    fn generate<I: InfoSource>(&self, src: &mut I) -> (r: Maybe<i16>) {
        let uval = match u16s().generate(src) {
            Ok(v) => v,
            Err(e) => {
                return Err(e);
            },
        };
        proof {
            lemma2_to64();
            lemma_be_value_bound(drawn_since(old(src).drawn(), src.drawn()));
        }
        assert(((uval & 1) == 0) == (uval % 2 == 0)) by (bit_vector);
        assert(uval >> 1 == uval / 2) by (bit_vector);
        let is_neg = (uval & 1) == 0;
        let uval = uval >> 1;
        if is_neg {
            Ok(-(uval as i16))
        } else {
            Ok(uval as i16)
        }
    }
}

impl Generator for IntGenerator<i32> {
    type Item = i32;

    open spec fn wf(&self) -> bool {
        true
    }

    open spec fn generates(&self, d: Seq<u8>, r: Maybe<i32>) -> bool {
        d.len() == 4 && r == Ok::<i32, DataError>(zigzag(be_value(d)) as i32)
    }

    fn generate<I: InfoSource>(&self, src: &mut I) -> (r: Maybe<i32>) {
        let uval = match u32s().generate(src) {
            Ok(v) => v,
            Err(e) => {
                return Err(e);
            },
        };
        proof {
            lemma2_to64();
            lemma_be_value_bound(drawn_since(old(src).drawn(), src.drawn()));
        }
        assert(((uval & 1) == 0) == (uval % 2 == 0)) by (bit_vector);
        assert(uval >> 1 == uval / 2) by (bit_vector);
        let is_neg = (uval & 1) == 0;
        let uval = uval >> 1;
        if is_neg {
            Ok(-(uval as i32))
        } else {
            Ok(uval as i32)
        }
    }
}

impl Generator for IntGenerator<i64> {
    type Item = i64;

    open spec fn wf(&self) -> bool {
        true
    }

    open spec fn generates(&self, d: Seq<u8>, r: Maybe<i64>) -> bool {
        d.len() == 8 && r == Ok::<i64, DataError>(zigzag(be_value(d)) as i64)
    }

    fn generate<I: InfoSource>(&self, src: &mut I) -> (r: Maybe<i64>) {
        let uval = match u64s().generate(src) {
            Ok(v) => v,
            Err(e) => {
                return Err(e);
            },
        };
        proof {
            lemma2_to64();
            lemma_be_value_bound(drawn_since(old(src).drawn(), src.drawn()));
        }
        assert(((uval & 1) == 0) == (uval % 2 == 0)) by (bit_vector);
        assert(uval >> 1 == uval / 2) by (bit_vector);
        let is_neg = (uval & 1) == 0;
        let uval = uval >> 1;
        if is_neg {
            Ok(-(uval as i64))
        } else {
            Ok(uval as i64)
        }
    }
}

impl Generator for IntGenerator<isize> {
    type Item = isize;

    open spec fn wf(&self) -> bool {
        true
    }

    open spec fn generates(&self, d: Seq<u8>, r: Maybe<isize>) -> bool {
        d.len() == usize_bytes() && r == Ok::<isize, DataError>(zigzag(be_value(d)) as isize)
    }

    fn generate<I: InfoSource>(&self, src: &mut I) -> (r: Maybe<isize>) {
        let uval = match usizes().generate(src) {
            Ok(v) => v,
            Err(e) => {
                return Err(e);
            },
        };
        proof {
            lemma2_to64();
            lemma_be_value_bound(drawn_since(old(src).drawn(), src.drawn()));
        }
        assert(((uval & 1) == 0) == (uval % 2 == 0)) by (bit_vector);
        assert(uval >> 1 == uval / 2) by (bit_vector);
        let is_neg = (uval & 1) == 0;
        let uval = uval >> 1;
        if is_neg {
            Ok(-(uval as isize))
        } else {
            Ok(uval as isize)
        }
    }
}


/// Splits `x` into its low and high 32 bit halves.
proof fn lemma_halves_u64(x: u64)
    ensures
        (x >> 32u64) * 0x1_0000_0000 + (x & 0xffff_ffffu64) == x,
        x >> 32u64 < 0x1_0000_0000,
        x & 0xffff_ffffu64 < 0x1_0000_0000,
        (x << 32u64) == (x & 0xffff_ffffu64) * 0x1_0000_0000,
{
    assert((x >> 32u64) * 0x1_0000_0000 + (x & 0xffff_ffffu64) == x) by (bit_vector);
    assert(x >> 32u64 < 0x1_0000_0000) by (bit_vector);
    assert(x & 0xffff_ffffu64 < 0x1_0000_0000) by (bit_vector);
    assert((x << 32u64) == (x & 0xffff_ffffu64) * 0x1_0000_0000) by (bit_vector);
}

/// Adds two words, giving the sum modulo `2^64` and whether it carried.
fn add_with_carry(x: u64, y: u64) -> (r: (u64, bool))
    ensures
        r.0 + (if r.1 {
            0x1_0000_0000_0000_0000int
        } else {
            0int
        }) == x + y,
{
    let sum = x.wrapping_add(y);
    let carried = sum < x;
    assert(carried == (x + y > u64::MAX) && sum == (if x + y > u64::MAX {
        x + y - 0x1_0000_0000_0000_0000
    } else {
        x + y
    })) by (bit_vector)
        requires
            sum == x.wrapping_add(y),
            carried == (sum < x),
    ;
    (sum, carried)
}

/// Multiplies two words by their 32 bit halves, giving the high and the low
/// word of the product.
pub fn mul_u64s(a: u64, b: u64) -> (r: (u64, u64))
    ensures
        r.0 * 0x1_0000_0000_0000_0000int + r.1 == a * b,
{
    let mask: u64 = 0xffff_ffff;
    proof {
        lemma_halves_u64(a);
        lemma_halves_u64(b);
    }
    let al = a & mask;
    let ah = a >> 32u64;
    let bl = b & mask;
    let bh = b >> 32u64;
    assert(al * bl < 0x1_0000_0000_0000_0000) by (nonlinear_arith)
        requires
            al < 0x1_0000_0000,
            bl < 0x1_0000_0000,
    ;
    assert(al * bh < 0x1_0000_0000_0000_0000) by (nonlinear_arith)
        requires
            al < 0x1_0000_0000,
            bh < 0x1_0000_0000,
    ;
    assert(ah * bl < 0x1_0000_0000_0000_0000) by (nonlinear_arith)
        requires
            ah < 0x1_0000_0000,
            bl < 0x1_0000_0000,
    ;
    assert(ah * bh <= 0xffff_fffe_0000_0001) by (nonlinear_arith)
        requires
            ah < 0x1_0000_0000,
            bh < 0x1_0000_0000,
    ;
    let ll = al * bl;
    let lh = al * bh;
    let hl = ah * bl;
    let hh = ah * bh;
    proof {
        lemma_halves_u64(lh);
        lemma_halves_u64(hl);
    }
    let (lower, lov) = add_with_carry(ll, lh << 32u64);
    let (lower, lov2) = add_with_carry(lower, hl << 32u64);
    let c1: u64 = if lov {
        1
    } else {
        0
    };
    let c2: u64 = if lov2 {
        1
    } else {
        0
    };
    let lh_hi = lh >> 32u64;
    let hl_hi = hl >> 32u64;
    let lh_lo = lh & mask;
    let hl_lo = hl & mask;
    let ghost big: int = 0x1_0000_0000_0000_0000int;
    let ghost half: int = 0x1_0000_0000int;
    assert(a * b == hh * big + (lh + hl) * half + ll) by (nonlinear_arith)
        requires
            a == ah * half + al,
            b == bh * half + bl,
            ll == al * bl,
            lh == al * bh,
            hl == ah * bl,
            hh == ah * bh,
            big == half * half,
    ;
    assert(lh * half == lh_hi * big + lh_lo * half) by (nonlinear_arith)
        requires
            lh == lh_hi * half + lh_lo,
            big == half * half,
    ;
    assert(hl * half == hl_hi * big + hl_lo * half) by (nonlinear_arith)
        requires
            hl == hl_hi * half + hl_lo,
            big == half * half,
    ;
    let ghost total: int = hh + c1 + c2 + lh_hi + hl_hi;
    assert(total * big + lower == a * b);
    assert(total < big) by (nonlinear_arith)
        requires
            total * big + lower == a * b,
            lower >= 0,
            a < big,
            b < big,
            big > 0,
    {
        assert(a * b < big * big) by (nonlinear_arith)
            requires
                0 <= a < big,
                0 <= b < big,
        ;
    }
    let upper = hh + c1 + c2 + lh_hi + hl_hi;
    (upper, lower)
}

/// Multiplies two bytes by their 4 bit halves, giving the high and the low
/// byte of the product.
pub fn mul_u8(a: u8, b: u8) -> (r: (u8, u8))
    ensures
        r.0 * 0x100int + r.1 == a * b,
{
    let mask: u8 = 0xf;
    assert((a >> 4u8) * 0x10 + (a & 0xfu8) == a) by (bit_vector);
    assert((b >> 4u8) * 0x10 + (b & 0xfu8) == b) by (bit_vector);
    assert(a >> 4u8 < 0x10 && a & 0xfu8 < 0x10 && b >> 4u8 < 0x10 && b & 0xfu8 < 0x10)
        by (bit_vector);
    let al = a & mask;
    let ah = a >> 4u8;
    let bl = b & mask;
    let bh = b >> 4u8;
    assert(al * bl < 0x100 && al * bh < 0x100 && ah * bl < 0x100 && ah * bh <= 0xe1)
        by (nonlinear_arith)
        requires
            al < 0x10,
            ah < 0x10,
            bl < 0x10,
            bh < 0x10,
    ;
    let ll = al * bl;
    let lh = al * bh;
    let hl = ah * bl;
    let hh = ah * bh;
    assert((lh >> 4u8) * 0x10 + (lh & 0xfu8) == lh && (lh << 4u8) == (lh & 0xfu8) * 0x10)
        by (bit_vector);
    assert((hl >> 4u8) * 0x10 + (hl & 0xfu8) == hl && (hl << 4u8) == (hl & 0xfu8) * 0x10)
        by (bit_vector);
    let s1 = ll.wrapping_add(lh << 4u8);
    let lov = s1 < ll;
    assert(lov == (ll + (lh << 4u8) > 0xff) && s1 == (if ll + (lh << 4u8) > 0xff {
        ll + (lh << 4u8) - 0x100
    } else {
        ll + (lh << 4u8)
    })) by (bit_vector)
        requires
            s1 == ll.wrapping_add(lh << 4u8),
            lov == (s1 < ll),
    ;
    let lower = s1.wrapping_add(hl << 4u8);
    let lov2 = lower < s1;
    assert(lov2 == (s1 + (hl << 4u8) > 0xff) && lower == (if s1 + (hl << 4u8) > 0xff {
        s1 + (hl << 4u8) - 0x100
    } else {
        s1 + (hl << 4u8)
    })) by (bit_vector)
        requires
            lower == s1.wrapping_add(hl << 4u8),
            lov2 == (lower < s1),
    ;
    let c1: u8 = if lov {
        1
    } else {
        0
    };
    let c2: u8 = if lov2 {
        1
    } else {
        0
    };
    let lh_hi = lh >> 4u8;
    let hl_hi = hl >> 4u8;
    let lh_lo = lh & mask;
    let hl_lo = hl & mask;
    assert(a * b == hh * 0x100 + (lh + hl) * 0x10 + ll) by (nonlinear_arith)
        requires
            a == ah * 0x10 + al,
            b == bh * 0x10 + bl,
            ll == al * bl,
            lh == al * bh,
            hl == ah * bl,
            hh == ah * bh,
    ;
    let ghost total: int = hh + c1 + c2 + lh_hi + hl_hi;
    assert(total * 0x100 + lower == a * b);
    assert(total < 0x100) by (nonlinear_arith)
        requires
            total * 0x100 + lower == a * b,
            lower >= 0,
            a < 0x100,
            b < 0x100,
    {
        assert(a * b < 0x100 * 0x100) by (nonlinear_arith)
            requires
                0 <= a < 0x100,
                0 <= b < 0x100,
        ;
    }
    let upper = hh + c1 + c2 + lh_hi + hl_hi;
    (upper, lower)
}

/// Scales an unsigned integer `self` to the range from zero to `max`, by
/// multiplying it by `max` and keeping the high half of the product.
pub trait ScaleInt: Sized {
    /// `self * max`, shifted right by the width of the type.
    spec fn scaled(self, max: Self) -> Self;

    /// Scales `self` to the range from zero to `max`.
    fn scale(self, max: Self) -> (r: Self)
        ensures
            r == self.scaled(max),
    ;
}

impl ScaleInt for u8 {
    open spec fn scaled(self, max: u8) -> u8 {
        (self * max / 0x100) as u8
    }

    fn scale(self, max: u8) -> (r: u8) {
        assert(self as u16 * max as u16 <= 0xff * 0xff) by (nonlinear_arith)
            requires
                self <= 0xff,
                max <= 0xff,
        ;
        let prod: u16 = self as u16 * max as u16;
        assert(prod >> 8u16 == prod / 0x100) by (bit_vector);
        assert(prod / 0x100 <= 0xff);
        let res = prod >> 8u16;
        res as u8
    }
}

impl ScaleInt for u16 {
    open spec fn scaled(self, max: u16) -> u16 {
        (self * max / 0x1_0000) as u16
    }

    fn scale(self, max: u16) -> (r: u16) {
        assert(self as u32 * max as u32 <= 0xffff * 0xffff) by (nonlinear_arith)
            requires
                self <= 0xffff,
                max <= 0xffff,
        ;
        let prod: u32 = self as u32 * max as u32;
        assert(prod >> 16u32 == prod / 0x1_0000) by (bit_vector);
        assert(prod / 0x1_0000 <= 0xffff);
        let res = prod >> 16u32;
        res as u16
    }
}

impl ScaleInt for u32 {
    open spec fn scaled(self, max: u32) -> u32 {
        (self * max / 0x1_0000_0000) as u32
    }

    fn scale(self, max: u32) -> (r: u32) {
        assert(self as u64 * max as u64 <= 0xffff_ffff * 0xffff_ffff) by (nonlinear_arith)
            requires
                self <= 0xffff_ffff,
                max <= 0xffff_ffff,
        ;
        let prod: u64 = self as u64 * max as u64;
        assert(prod >> 32u64 == prod / 0x1_0000_0000) by (bit_vector);
        assert(prod / 0x1_0000_0000 <= 0xffff_ffff);
        let res = prod >> 32u64;
        res as u32
    }
}

impl ScaleInt for u64 {
    open spec fn scaled(self, max: u64) -> u64 {
        (self * max / 0x1_0000_0000_0000_0000int) as u64
    }

    fn scale(self, max: u64) -> (r: u64) {
        let (h, l) = mul_u64s(self, max);
        assert(h == self * max / 0x1_0000_0000_0000_0000int) by (nonlinear_arith)
            requires
                h * 0x1_0000_0000_0000_0000int + l == self * max,
                0 <= l < 0x1_0000_0000_0000_0000int,
        ;
        assert(h == self.scaled(max));
        h
    }
}

impl ScaleInt for usize {
    open spec fn scaled(self, max: usize) -> usize {
        (self * max / 0x1_0000_0000_0000_0000int) as usize
    }

    fn scale(self, max: usize) -> (r: usize) {
        let h = (self as u64).scale(max as u64);
        assert(self * max / 0x1_0000_0000_0000_0000int < 0x1_0000_0000_0000_0000int)
            by (nonlinear_arith)
            requires
                0 <= self < 0x1_0000_0000_0000_0000int,
                0 <= max < 0x1_0000_0000_0000_0000int,
        {
            assert(self * max < 0x1_0000_0000_0000_0000int * 0x1_0000_0000_0000_0000int)
                by (nonlinear_arith)
                requires
                    0 <= self < 0x1_0000_0000_0000_0000int,
                    0 <= max < 0x1_0000_0000_0000_0000int,
            ;
        }
        assert(h == self * max / 0x1_0000_0000_0000_0000int);
        assert(h <= max) by (nonlinear_arith)
            requires
                h == self * max / 0x1_0000_0000_0000_0000int,
                0 <= self < 0x1_0000_0000_0000_0000int,
                0 <= max,
        {
            assert(self * max <= 0x1_0000_0000_0000_0000int * max) by (nonlinear_arith)
                requires
                    0 <= self < 0x1_0000_0000_0000_0000int,
                    0 <= max,
            ;
        }
        h as usize
    }
}

/// See [`uptos`](fn.uptos.html)
#[derive(Debug, Clone)]
pub struct UptoGenerator<G: Generator>(G, G::Item);

impl<G: Generator> UptoGenerator<G> {
    /// The generator of the values that are scaled.
    pub closed spec fn source(&self) -> G {
        self.0
    }

    /// The largest value that may be generated.
    pub closed spec fn limit(&self) -> G::Item {
        self.1
    }
}

/// Scales the output of `g`, which generates an unsigned integer, to the
/// range from zero to `max`.
pub fn uptos<G: Generator>(g: G, max: G::Item) -> (r: UptoGenerator<G>)
    ensures
        r.source() == g,
        r.limit() == max,
{
    UptoGenerator(g, max)
}

impl<G: Generator> Generator for UptoGenerator<G> where G::Item: ScaleInt + Copy {
    type Item = G::Item;

    open spec fn wf(&self) -> bool {
        self.source().wf()
    }

    open spec fn generates(&self, d: Seq<u8>, r: Maybe<G::Item>) -> bool {
        match r {
            Ok(x) => exists|v: G::Item|
                #[trigger] self.source().generates(d, Ok(v)) && x == v.scaled(self.limit()),
            Err(e) => self.source().generates(d, Err(e)),
        }
    }

    fn generate<I: InfoSource>(&self, src: &mut I) -> (r: Maybe<G::Item>) {
        let v = match self.0.generate(src) {
            Ok(v) => v,
            Err(e) => {
                return Err(e);
            },
        };
        let limit = self.1;
        let x = v.scale(limit);
        proof {
            assert(self.source().generates(drawn_since(old(src).drawn(), src.drawn()), Ok(v)));
        }
        Ok(x)
    }
}

/// The value that the bytes `d` give on the range from `min` to
/// `min + diff`, both included: their big-endian value times `diff + 1`,
/// divided by the number of values that many bytes can hold.
pub open spec fn between_value(d: Seq<u8>, min: nat, diff: nat) -> nat {
    be_value(d) * (diff + 1) / pow2(8 * d.len()) + min
}

/// A value of the width of `nbytes` bytes (a `u8` up to a `u64`) fits in
/// those bytes, and those bytes fit in a `u64`.
proof fn lemma_width_bound(nbytes: nat, diff: nat)
    requires
        nbytes == 1 ==> diff <= u8::MAX,
        nbytes == 2 ==> diff <= u16::MAX,
        nbytes == 4 ==> diff <= u32::MAX,
        nbytes == 8 ==> diff <= u64::MAX,
        nbytes == 1 || nbytes == 2 || nbytes == 4 || nbytes == 8,
    ensures
        diff < pow2(8 * nbytes),
        pow2(8 * nbytes) <= 0x1_0000_0000_0000_0000int,
{
    lemma2_to64();
    lemma2_to64_rest();
}

/// Draws `nbytes` bytes and scales their big-endian value onto the range
/// from zero to `diff`, both included.
fn draw_inclusive<I: InfoSource>(src: &mut I, nbytes: usize, diff: u64) -> (r: u64)
    requires
        1 <= nbytes <= 8,
        diff < pow2(8 * nbytes as nat),
        pow2(8 * nbytes as nat) <= 0x1_0000_0000_0000_0000int,
    ensures
        old(src).drawn().is_prefix_of((*final(src)).drawn()),
        (*final(src)).origin() == old(src).origin(),
        drawn_since(old(src).drawn(), (*final(src)).drawn()).len() == nbytes,
        r == between_value(drawn_since(old(src).drawn(), (*final(src)).drawn()), 0, diff as nat),
        r <= diff,
        regions_kept(*old(src), *final(src)),
{
    let ghost d0 = src.drawn();
    let v = draw_big_endian(src, nbytes);
    let ghost big = pow2(8 * nbytes as nat);
    proof {
        lemma_be_value_bound(drawn_since(d0, src.drawn()));
    }
    let m: u128 = diff as u128 + 1;
    assert(v as u128 * m <= 0xffff_ffff_ffff_ffffu128 * 0x1_0000_0000_0000_0000u128)
        by (nonlinear_arith)
        requires
            v <= 0xffff_ffff_ffff_ffffu128,
            m <= 0x1_0000_0000_0000_0000u128,
    ;
    let prod: u128 = v as u128 * m;
    let shift: u128 = (8 * nbytes) as u128;
    proof {
        lemma_u128_shr_is_div(prod, shift);
        assert((prod as int) < (big as int) * (m as int)) by (nonlinear_arith)
            requires
                prod == v * m,
                0 <= v < big,
                m >= 1,
        ;
        lemma_multiply_divide_lt(prod as int, big as int, m as int);
    }
    let x = prod >> shift;
    x as u64
}

/// Bytes that hold the value `v` big-endian in `n` bytes.
pub open spec fn be_bytes(v: nat, n: nat) -> Seq<u8>
    decreases n,
{
    if n == 0 {
        Seq::empty()
    } else {
        be_bytes(v / 256, (n - 1) as nat).push((v % 256) as u8)
    }
}

/// A value that fits in `n` bytes is the big-endian value of its bytes.
pub proof fn lemma_be_bytes(v: nat, n: nat)
    requires
        v < pow2(8 * n),
    ensures
        be_bytes(v, n).len() == n,
        be_value(be_bytes(v, n)) == v,
    decreases n,
{
    lemma2_to64();
    if n > 0 {
        let k = (8 * (n - 1)) as nat;
        lemma_pow2_adds(k, 8);
        assert(8 * n == k + 8);
        let big = pow2(k);
        assert(v / 256 < big) by (nonlinear_arith)
            requires
                v < big * 256,
        ;
        lemma_be_bytes(v / 256, (n - 1) as nat);
        let s = be_bytes(v, n);
        assert(s.drop_last() =~= be_bytes(v / 256, (n - 1) as nat));
        assert(v == (v / 256) * 256 + v % 256) by (nonlinear_arith);
    }
}

/// Of `P` values scaled onto `m` (times `m`, divided by `P`), each of the
/// `m` results is reached.
proof fn lemma_scale_reaches(big: int, m: int, k: int) -> (v: int)
    requires
        1 <= m <= big,
        0 <= k < m,
    ensures
        0 <= v < big,
        v * m / big == k,
{
    let x = k * big + m - 1;
    let q = x / m;
    let rem = x % m;
    lemma_fundamental_div_mod(x, m);
    assert(q * m == x - rem) by (nonlinear_arith)
        requires
            x == m * q + rem,
    ;
    assert(0 <= rem < m) by {
        lemma_mod_bound(x, m);
    }
    assert(k * big <= q * m < k * big + big);
    lemma_fundamental_div_mod_converse(q * m, big, k, q * m - k * big);
    assert(q < big) by (nonlinear_arith)
        requires
            q * m < k * big + big,
            k + 1 <= m,
            m >= 1,
            big >= 1,
    {
        assert(k * big + big <= m * big) by (nonlinear_arith)
            requires
                k + 1 <= m,
                big >= 1,
        ;
    }
    assert(q >= 0) by (nonlinear_arith)
        requires
            q * m >= k * big,
            k >= 0,
            big >= 1,
            m >= 1,
    ;
    q
}

/// Whether some bytes of the width `n` give `t` on the range from `min` to
/// `min + diff`.
pub open spec fn between_reaches(n: nat, min: nat, diff: nat, t: nat) -> bool {
    exists|d: Seq<u8>| d.len() == n && #[trigger] between_value(d, min, diff) == t
}

/// On bytes of the width `n`, `between_value` gives a value from `min` to
/// `min + diff`, and each of those values for some bytes.
pub proof fn lemma_between_value_range(n: nat, min: nat, diff: nat)
    requires
        diff < pow2(8 * n),
    ensures
        forall|d: Seq<u8>|
            d.len() == n ==> min <= #[trigger] between_value(d, min, diff) <= min + diff,
        forall|t: nat| min <= t <= min + diff ==> #[trigger] between_reaches(n, min, diff, t),
{
    let big = pow2(8 * n);
    assert forall|d: Seq<u8>| d.len() == n implies min <= #[trigger] between_value(
        d,
        min,
        diff,
    ) <= min + diff by {
        lemma_be_value_bound(d);
        let v = be_value(d);
        assert(v * (diff + 1) / big <= diff) by {
            assert(v * (diff + 1) < big * (diff + 1)) by (nonlinear_arith)
                requires
                    0 <= v < big,
                    diff >= 0,
            ;
            lemma_multiply_divide_lt((v * (diff + 1)) as int, big as int, (diff + 1) as int);
        }
        assert(v * (diff + 1) / big >= 0) by (nonlinear_arith)
            requires
                v >= 0,
                diff >= 0,
                big > 0,
        ;
    }
    assert forall|t: nat| min <= t <= min + diff implies #[trigger] between_reaches(
        n,
        min,
        diff,
        t,
    ) by {
        let k = (t - min) as nat;
        let v = lemma_scale_reaches(big as int, (diff + 1) as int, k as int);
        lemma_be_bytes(v as nat, n);
        let d = be_bytes(v as nat, n);
        assert(between_value(d, min, diff) == min + k);
    }
}

/// See [`IntGenerator::between`](struct.IntGenerator.html#method.between)
#[derive(Debug, Clone)]
pub struct BetweenGenerator<N> {
    min: N,
    diff: N,
}

impl IntGenerator<u8> {
    /// Scales the output of this generator to the range from zero to
    /// `max`. See also [`uptos`](fn.uptos.html).
    pub fn upto(self, max: u8) -> (r: UptoGenerator<IntGenerator<u8>>)
        ensures
            r.source() == self,
            r.limit() == max,
    {
        uptos(self, max)
    }

    /// Yields a value between `min` and `max`, inclusive of both.
    pub fn between(self, min: u8, max: u8) -> (r: BetweenGenerator<u8>)
        requires
            min <= max,
        ensures
            r.low() == min,
            r.high() == max,
            r.wf(),
    {
        let diff = max - min;
        BetweenGenerator { min, diff }
    }
}

impl BetweenGenerator<u8> {
    /// The least value that may be generated.
    pub closed spec fn low(&self) -> u8 {
        self.min
    }

    /// The greatest value that may be generated.
    pub closed spec fn high(&self) -> u8 {
        (self.min + self.diff) as u8
    }
}

impl Generator for BetweenGenerator<u8> {
    type Item = u8;

    closed spec fn wf(&self) -> bool {
        self.min + self.diff <= u8::MAX
    }

    closed spec fn generates(&self, d: Seq<u8>, r: Maybe<u8>) -> bool {
        d.len() == 1 && r == Ok::<u8, DataError>(
            between_value(d, self.min as nat, self.diff as nat) as u8,
        )
    }

    fn generate<I: InfoSource>(&self, src: &mut I) -> (r: Maybe<u8>) {
        let nbytes: usize = 1;
        proof {
            lemma_width_bound(nbytes as nat, self.diff as nat);
        }
        let x = draw_inclusive(src, nbytes, self.diff as u64);
        Ok(x as u8 + self.min)
    }
}

impl IntGenerator<u16> {
    /// Scales the output of this generator to the range from zero to
    /// `max`. See also [`uptos`](fn.uptos.html).
    pub fn upto(self, max: u16) -> (r: UptoGenerator<IntGenerator<u16>>)
        ensures
            r.source() == self,
            r.limit() == max,
    {
        uptos(self, max)
    }

    /// Yields a value between `min` and `max`, inclusive of both.
    pub fn between(self, min: u16, max: u16) -> (r: BetweenGenerator<u16>)
        requires
            min <= max,
        ensures
            r.low() == min,
            r.high() == max,
            r.wf(),
    {
        let diff = max - min;
        BetweenGenerator { min, diff }
    }
}

impl BetweenGenerator<u16> {
    /// The least value that may be generated.
    pub closed spec fn low(&self) -> u16 {
        self.min
    }

    /// The greatest value that may be generated.
    pub closed spec fn high(&self) -> u16 {
        (self.min + self.diff) as u16
    }
}

impl Generator for BetweenGenerator<u16> {
    type Item = u16;

    closed spec fn wf(&self) -> bool {
        self.min + self.diff <= u16::MAX
    }

    closed spec fn generates(&self, d: Seq<u8>, r: Maybe<u16>) -> bool {
        d.len() == 2 && r == Ok::<u16, DataError>(
            between_value(d, self.min as nat, self.diff as nat) as u16,
        )
    }

    fn generate<I: InfoSource>(&self, src: &mut I) -> (r: Maybe<u16>) {
        let nbytes: usize = 2;
        proof {
            lemma_width_bound(nbytes as nat, self.diff as nat);
        }
        let x = draw_inclusive(src, nbytes, self.diff as u64);
        Ok(x as u16 + self.min)
    }
}

impl IntGenerator<u32> {
    /// Scales the output of this generator to the range from zero to
    /// `max`. See also [`uptos`](fn.uptos.html).
    pub fn upto(self, max: u32) -> (r: UptoGenerator<IntGenerator<u32>>)
        ensures
            r.source() == self,
            r.limit() == max,
    {
        uptos(self, max)
    }

    /// Yields a value between `min` and `max`, inclusive of both.
    pub fn between(self, min: u32, max: u32) -> (r: BetweenGenerator<u32>)
        requires
            min <= max,
        ensures
            r.low() == min,
            r.high() == max,
            r.wf(),
    {
        let diff = max - min;
        BetweenGenerator { min, diff }
    }
}

impl BetweenGenerator<u32> {
    /// The least value that may be generated.
    pub closed spec fn low(&self) -> u32 {
        self.min
    }

    /// The greatest value that may be generated.
    pub closed spec fn high(&self) -> u32 {
        (self.min + self.diff) as u32
    }
}

impl Generator for BetweenGenerator<u32> {
    type Item = u32;

    closed spec fn wf(&self) -> bool {
        self.min + self.diff <= u32::MAX
    }

    closed spec fn generates(&self, d: Seq<u8>, r: Maybe<u32>) -> bool {
        d.len() == 4 && r == Ok::<u32, DataError>(
            between_value(d, self.min as nat, self.diff as nat) as u32,
        )
    }

    fn generate<I: InfoSource>(&self, src: &mut I) -> (r: Maybe<u32>) {
        let nbytes: usize = 4;
        proof {
            lemma_width_bound(nbytes as nat, self.diff as nat);
        }
        let x = draw_inclusive(src, nbytes, self.diff as u64);
        Ok(x as u32 + self.min)
    }
}

impl IntGenerator<u64> {
    /// Scales the output of this generator to the range from zero to
    /// `max`. See also [`uptos`](fn.uptos.html).
    pub fn upto(self, max: u64) -> (r: UptoGenerator<IntGenerator<u64>>)
        ensures
            r.source() == self,
            r.limit() == max,
    {
        uptos(self, max)
    }

    /// Yields a value between `min` and `max`, inclusive of both.
    pub fn between(self, min: u64, max: u64) -> (r: BetweenGenerator<u64>)
        requires
            min <= max,
        ensures
            r.low() == min,
            r.high() == max,
            r.wf(),
    {
        let diff = max - min;
        BetweenGenerator { min, diff }
    }
}

impl BetweenGenerator<u64> {
    /// The least value that may be generated.
    pub closed spec fn low(&self) -> u64 {
        self.min
    }

    /// The greatest value that may be generated.
    pub closed spec fn high(&self) -> u64 {
        (self.min + self.diff) as u64
    }
}

impl Generator for BetweenGenerator<u64> {
    type Item = u64;

    closed spec fn wf(&self) -> bool {
        self.min + self.diff <= u64::MAX
    }

    closed spec fn generates(&self, d: Seq<u8>, r: Maybe<u64>) -> bool {
        d.len() == 8 && r == Ok::<u64, DataError>(
            between_value(d, self.min as nat, self.diff as nat) as u64,
        )
    }

    fn generate<I: InfoSource>(&self, src: &mut I) -> (r: Maybe<u64>) {
        let nbytes: usize = 8;
        proof {
            lemma_width_bound(nbytes as nat, self.diff as nat);
        }
        let x = draw_inclusive(src, nbytes, self.diff as u64);
        Ok(x as u64 + self.min)
    }
}

impl IntGenerator<usize> {
    /// Scales the output of this generator to the range from zero to
    /// `max`. See also [`uptos`](fn.uptos.html).
    pub fn upto(self, max: usize) -> (r: UptoGenerator<IntGenerator<usize>>)
        ensures
            r.source() == self,
            r.limit() == max,
    {
        uptos(self, max)
    }

    /// Yields a value between `min` and `max`, inclusive of both.
    pub fn between(self, min: usize, max: usize) -> (r: BetweenGenerator<usize>)
        requires
            min <= max,
        ensures
            r.low() == min,
            r.high() == max,
            r.wf(),
    {
        let diff = max - min;
        BetweenGenerator { min, diff }
    }
}

impl BetweenGenerator<usize> {
    /// The least value that may be generated.
    pub closed spec fn low(&self) -> usize {
        self.min
    }

    /// The greatest value that may be generated.
    pub closed spec fn high(&self) -> usize {
        (self.min + self.diff) as usize
    }
}

impl Generator for BetweenGenerator<usize> {
    type Item = usize;

    closed spec fn wf(&self) -> bool {
        self.min + self.diff <= usize::MAX
    }

    closed spec fn generates(&self, d: Seq<u8>, r: Maybe<usize>) -> bool {
        d.len() == usize_bytes() && r == Ok::<usize, DataError>(
            between_value(d, self.min as nat, self.diff as nat) as usize,
        )
    }

    fn generate<I: InfoSource>(&self, src: &mut I) -> (r: Maybe<usize>) {
        let nbytes: usize = (usize::BITS / 8) as usize;
        proof {
            lemma_width_bound(nbytes as nat, self.diff as nat);
        }
        let x = draw_inclusive(src, nbytes, self.diff as u64);
        Ok(x as usize + self.min)
    }
}

/// Whether `g` generates `v` from some bytes.
pub open spec fn can_generate<G: Generator>(g: G, v: G::Item) -> bool {
    exists|d: Seq<u8>| #[trigger] g.generates(d, Ok(v))
}

/// `u8` `between` gives every value from its least to its greatest,
/// both included, and no other.
pub proof fn law_between_u8_range(g: BetweenGenerator<u8>)
    requires
        g.wf(),
    ensures
        forall|d: Seq<u8>, n: u8| #[trigger] g.generates(d, Ok(n)) ==> g.low() <= n <= g.high(),
        forall|n: u8|
            g.low() <= n <= g.high() ==> #[trigger] can_generate(g, n),
{
    lemma_width_bound(1, g.diff as nat);
    lemma_between_value_range(1, g.min as nat, g.diff as nat);
    assert forall|d: Seq<u8>, n: u8| #[trigger] g.generates(d, Ok(n)) implies g.low() <= n
        <= g.high() by {
        assert(between_value(d, g.min as nat, g.diff as nat) <= g.min + g.diff);
    }
    assert forall|n: u8| g.low() <= n <= g.high() implies #[trigger] can_generate(g, n) by {
        assert(between_reaches(1, g.min as nat, g.diff as nat, n as nat));
        let d = choose|d: Seq<u8>|
            d.len() == 1 && #[trigger] between_value(d, g.min as nat, g.diff as nat) == n;
        assert(g.generates(d, Ok(n)));
    }
}

/// `u16` `between` gives every value from its least to its greatest,
/// both included, and no other.
pub proof fn law_between_u16_range(g: BetweenGenerator<u16>)
    requires
        g.wf(),
    ensures
        forall|d: Seq<u8>, n: u16| #[trigger] g.generates(d, Ok(n)) ==> g.low() <= n <= g.high(),
        forall|n: u16|
            g.low() <= n <= g.high() ==> #[trigger] can_generate(g, n),
{
    lemma_width_bound(2, g.diff as nat);
    lemma_between_value_range(2, g.min as nat, g.diff as nat);
    assert forall|d: Seq<u8>, n: u16| #[trigger] g.generates(d, Ok(n)) implies g.low() <= n
        <= g.high() by {
        assert(between_value(d, g.min as nat, g.diff as nat) <= g.min + g.diff);
    }
    assert forall|n: u16| g.low() <= n <= g.high() implies #[trigger] can_generate(g, n) by {
        assert(between_reaches(2, g.min as nat, g.diff as nat, n as nat));
        let d = choose|d: Seq<u8>|
            d.len() == 2 && #[trigger] between_value(d, g.min as nat, g.diff as nat) == n;
        assert(g.generates(d, Ok(n)));
    }
}

/// `u32` `between` gives every value from its least to its greatest,
/// both included, and no other.
pub proof fn law_between_u32_range(g: BetweenGenerator<u32>)
    requires
        g.wf(),
    ensures
        forall|d: Seq<u8>, n: u32| #[trigger] g.generates(d, Ok(n)) ==> g.low() <= n <= g.high(),
        forall|n: u32|
            g.low() <= n <= g.high() ==> #[trigger] can_generate(g, n),
{
    lemma_width_bound(4, g.diff as nat);
    lemma_between_value_range(4, g.min as nat, g.diff as nat);
    assert forall|d: Seq<u8>, n: u32| #[trigger] g.generates(d, Ok(n)) implies g.low() <= n
        <= g.high() by {
        assert(between_value(d, g.min as nat, g.diff as nat) <= g.min + g.diff);
    }
    assert forall|n: u32| g.low() <= n <= g.high() implies #[trigger] can_generate(g, n) by {
        assert(between_reaches(4, g.min as nat, g.diff as nat, n as nat));
        let d = choose|d: Seq<u8>|
            d.len() == 4 && #[trigger] between_value(d, g.min as nat, g.diff as nat) == n;
        assert(g.generates(d, Ok(n)));
    }
}

/// `u64` `between` gives every value from its least to its greatest,
/// both included, and no other.
pub proof fn law_between_u64_range(g: BetweenGenerator<u64>)
    requires
        g.wf(),
    ensures
        forall|d: Seq<u8>, n: u64| #[trigger] g.generates(d, Ok(n)) ==> g.low() <= n <= g.high(),
        forall|n: u64|
            g.low() <= n <= g.high() ==> #[trigger] can_generate(g, n),
{
    lemma_width_bound(8, g.diff as nat);
    lemma_between_value_range(8, g.min as nat, g.diff as nat);
    assert forall|d: Seq<u8>, n: u64| #[trigger] g.generates(d, Ok(n)) implies g.low() <= n
        <= g.high() by {
        assert(between_value(d, g.min as nat, g.diff as nat) <= g.min + g.diff);
    }
    assert forall|n: u64| g.low() <= n <= g.high() implies #[trigger] can_generate(g, n) by {
        assert(between_reaches(8, g.min as nat, g.diff as nat, n as nat));
        let d = choose|d: Seq<u8>|
            d.len() == 8 && #[trigger] between_value(d, g.min as nat, g.diff as nat) == n;
        assert(g.generates(d, Ok(n)));
    }
}

/// `usize` `between` gives every value from its least to its greatest,
/// both included, and no other.
pub proof fn law_between_usize_range(g: BetweenGenerator<usize>)
    requires
        g.wf(),
    ensures
        forall|d: Seq<u8>, n: usize| #[trigger] g.generates(d, Ok(n)) ==> g.low() <= n <= g.high(),
        forall|n: usize|
            g.low() <= n <= g.high() ==> #[trigger] can_generate(g, n),
{
    assert(usize::BITS == 32 || usize::BITS == 64);
    lemma_width_bound(usize_bytes(), g.diff as nat);
    lemma_between_value_range(usize_bytes(), g.min as nat, g.diff as nat);
    assert forall|d: Seq<u8>, n: usize| #[trigger] g.generates(d, Ok(n)) implies g.low() <= n
        <= g.high() by {
        assert(between_value(d, g.min as nat, g.diff as nat) <= g.min + g.diff);
    }
    assert forall|n: usize| g.low() <= n <= g.high() implies #[trigger] can_generate(g, n) by {
        assert(between_reaches(usize_bytes(), g.min as nat, g.diff as nat, n as nat));
        let d = choose|d: Seq<u8>|
            d.len() == usize_bytes() && #[trigger] between_value(d, g.min as nat, g.diff as nat) == n;
        assert(g.generates(d, Ok(n)));
    }
}

/// A `u8` is drawn from 1 byte, read big-endian: the first byte
/// is the most significant.
pub proof fn law_u8s_value(g: IntGenerator<u8>, d: Seq<u8>, v: u8)
    requires
        g.generates(d, Ok(v)),
    ensures
        d.len() == 1,
        v == d[0] as int,
{
    lemma_be_value_bytes(d);
    lemma_be_value_bound(d);
    lemma2_to64();
    lemma2_to64_rest();
}

/// A `u16` is drawn from 2 bytes, read big-endian: the first byte
/// is the most significant.
pub proof fn law_u16s_value(g: IntGenerator<u16>, d: Seq<u8>, v: u16)
    requires
        g.generates(d, Ok(v)),
    ensures
        d.len() == 2,
        v == d[0] * 0x100 + d[1] as int,
{
    lemma_be_value_bytes(d);
    lemma_be_value_bound(d);
    lemma2_to64();
    lemma2_to64_rest();
}

/// A `u32` is drawn from 4 bytes, read big-endian: the first byte
/// is the most significant.
pub proof fn law_u32s_value(g: IntGenerator<u32>, d: Seq<u8>, v: u32)
    requires
        g.generates(d, Ok(v)),
    ensures
        d.len() == 4,
        v == d[0] * 0x1000000 + d[1] * 0x10000 + d[2] * 0x100 + d[3] as int,
{
    lemma_be_value_bytes(d);
    lemma_be_value_bound(d);
    lemma2_to64();
    lemma2_to64_rest();
}

/// A `u64` is drawn from 8 bytes, read big-endian: the first byte
/// is the most significant.
pub proof fn law_u64s_value(g: IntGenerator<u64>, d: Seq<u8>, v: u64)
    requires
        g.generates(d, Ok(v)),
    ensures
        d.len() == 8,
        v == d[0] * 0x100000000000000 + d[1] * 0x1000000000000 + d[2] * 0x10000000000 + d[3] * 0x100000000 + d[4] * 0x1000000 + d[5] * 0x10000 + d[6] * 0x100 + d[7] as int,
{
    lemma_be_value_bytes(d);
    lemma_be_value_bound(d);
    lemma2_to64();
    lemma2_to64_rest();
}

/// An `i8` is drawn from 1 byte, read big-endian as an unsigned
/// value `u`: it is half of `u`, rounded down, kept when `u` is odd and
/// negated when `u` is even. So its magnitude is at most half of `u`.
pub proof fn law_i8s_value(g: IntGenerator<i8>, d: Seq<u8>, v: i8)
    requires
        g.generates(d, Ok(v)),
    ensures
        d.len() == 1,
        (d[0] as int) % 2 == 1 ==> v == (d[0] as int) / 2,
        (d[0] as int) % 2 == 0 ==> v == -((d[0] as int) / 2),
        -(v as int) <= (d[0] as int) / 2,
        v as int <= (d[0] as int) / 2,
{
    lemma_be_value_bytes(d);
    lemma_be_value_bound(d);
    lemma2_to64();
    lemma2_to64_rest();
}

/// An `i16` is drawn from 2 bytes, read big-endian as an unsigned
/// value `u`: it is half of `u`, rounded down, kept when `u` is odd and
/// negated when `u` is even. So its magnitude is at most half of `u`.
pub proof fn law_i16s_value(g: IntGenerator<i16>, d: Seq<u8>, v: i16)
    requires
        g.generates(d, Ok(v)),
    ensures
        d.len() == 2,
        (d[0] * 0x100 + d[1] as int) % 2 == 1 ==> v == (d[0] * 0x100 + d[1] as int) / 2,
        (d[0] * 0x100 + d[1] as int) % 2 == 0 ==> v == -((d[0] * 0x100 + d[1] as int) / 2),
        -(v as int) <= (d[0] * 0x100 + d[1] as int) / 2,
        v as int <= (d[0] * 0x100 + d[1] as int) / 2,
{
    lemma_be_value_bytes(d);
    lemma_be_value_bound(d);
    lemma2_to64();
    lemma2_to64_rest();
}

/// An `i32` is drawn from 4 bytes, read big-endian as an unsigned
/// value `u`: it is half of `u`, rounded down, kept when `u` is odd and
/// negated when `u` is even. So its magnitude is at most half of `u`.
pub proof fn law_i32s_value(g: IntGenerator<i32>, d: Seq<u8>, v: i32)
    requires
        g.generates(d, Ok(v)),
    ensures
        d.len() == 4,
        (d[0] * 0x1000000 + d[1] * 0x10000 + d[2] * 0x100 + d[3] as int) % 2 == 1 ==> v == (d[0] * 0x1000000 + d[1] * 0x10000 + d[2] * 0x100 + d[3] as int) / 2,
        (d[0] * 0x1000000 + d[1] * 0x10000 + d[2] * 0x100 + d[3] as int) % 2 == 0 ==> v == -((d[0] * 0x1000000 + d[1] * 0x10000 + d[2] * 0x100 + d[3] as int) / 2),
        -(v as int) <= (d[0] * 0x1000000 + d[1] * 0x10000 + d[2] * 0x100 + d[3] as int) / 2,
        v as int <= (d[0] * 0x1000000 + d[1] * 0x10000 + d[2] * 0x100 + d[3] as int) / 2,
{
    lemma_be_value_bytes(d);
    lemma_be_value_bound(d);
    lemma2_to64();
    lemma2_to64_rest();
}

/// An `i64` is drawn from 8 bytes, read big-endian as an unsigned
/// value `u`: it is half of `u`, rounded down, kept when `u` is odd and
/// negated when `u` is even. So its magnitude is at most half of `u`.
pub proof fn law_i64s_value(g: IntGenerator<i64>, d: Seq<u8>, v: i64)
    requires
        g.generates(d, Ok(v)),
    ensures
        d.len() == 8,
        (d[0] * 0x100000000000000 + d[1] * 0x1000000000000 + d[2] * 0x10000000000 + d[3] * 0x100000000 + d[4] * 0x1000000 + d[5] * 0x10000 + d[6] * 0x100 + d[7] as int) % 2 == 1 ==> v == (d[0] * 0x100000000000000 + d[1] * 0x1000000000000 + d[2] * 0x10000000000 + d[3] * 0x100000000 + d[4] * 0x1000000 + d[5] * 0x10000 + d[6] * 0x100 + d[7] as int) / 2,
        (d[0] * 0x100000000000000 + d[1] * 0x1000000000000 + d[2] * 0x10000000000 + d[3] * 0x100000000 + d[4] * 0x1000000 + d[5] * 0x10000 + d[6] * 0x100 + d[7] as int) % 2 == 0 ==> v == -((d[0] * 0x100000000000000 + d[1] * 0x1000000000000 + d[2] * 0x10000000000 + d[3] * 0x100000000 + d[4] * 0x1000000 + d[5] * 0x10000 + d[6] * 0x100 + d[7] as int) / 2),
        -(v as int) <= (d[0] * 0x100000000000000 + d[1] * 0x1000000000000 + d[2] * 0x10000000000 + d[3] * 0x100000000 + d[4] * 0x1000000 + d[5] * 0x10000 + d[6] * 0x100 + d[7] as int) / 2,
        v as int <= (d[0] * 0x100000000000000 + d[1] * 0x1000000000000 + d[2] * 0x10000000000 + d[3] * 0x100000000 + d[4] * 0x1000000 + d[5] * 0x10000 + d[6] * 0x100 + d[7] as int) / 2,
{
    lemma_be_value_bytes(d);
    lemma_be_value_bound(d);
    lemma2_to64();
    lemma2_to64_rest();
}

/// `i8`s preserve, in their magnitude, the order of the bytes they are
/// drawn from.
pub proof fn law_i8s_monotone_in_magnitude(
    g: IntGenerator<i8>,
    d0: Seq<u8>,
    d1: Seq<u8>,
    v0: i8,
    v1: i8,
)
    requires
        g.generates(d0, Ok(v0)),
        g.generates(d1, Ok(v1)),
        bytes_le(d0, d1),
    ensures
        magnitude(v0 as int) <= magnitude(v1 as int),
{
    lemma_be_value_monotone(d0, d1);
    lemma_be_value_bound(d0);
    lemma_be_value_bound(d1);
    lemma2_to64();
    let u0 = be_value(d0);
    let u1 = be_value(d1);
    assert(u0 / 2 <= u1 / 2);
    assert(magnitude(zigzag(u0)) == u0 / 2);
    assert(magnitude(zigzag(u1)) == u1 / 2);
}

/// `i16`s preserve, in their magnitude, the order of the bytes they are
/// drawn from.
pub proof fn law_i16s_monotone_in_magnitude(
    g: IntGenerator<i16>,
    d0: Seq<u8>,
    d1: Seq<u8>,
    v0: i16,
    v1: i16,
)
    requires
        g.generates(d0, Ok(v0)),
        g.generates(d1, Ok(v1)),
        bytes_le(d0, d1),
    ensures
        magnitude(v0 as int) <= magnitude(v1 as int),
{
    lemma_be_value_monotone(d0, d1);
    lemma_be_value_bound(d0);
    lemma_be_value_bound(d1);
    lemma2_to64();
    let u0 = be_value(d0);
    let u1 = be_value(d1);
    assert(u0 / 2 <= u1 / 2);
    assert(magnitude(zigzag(u0)) == u0 / 2);
    assert(magnitude(zigzag(u1)) == u1 / 2);
}

/// `i32`s preserve, in their magnitude, the order of the bytes they are
/// drawn from.
pub proof fn law_i32s_monotone_in_magnitude(
    g: IntGenerator<i32>,
    d0: Seq<u8>,
    d1: Seq<u8>,
    v0: i32,
    v1: i32,
)
    requires
        g.generates(d0, Ok(v0)),
        g.generates(d1, Ok(v1)),
        bytes_le(d0, d1),
    ensures
        magnitude(v0 as int) <= magnitude(v1 as int),
{
    lemma_be_value_monotone(d0, d1);
    lemma_be_value_bound(d0);
    lemma_be_value_bound(d1);
    lemma2_to64();
    let u0 = be_value(d0);
    let u1 = be_value(d1);
    assert(u0 / 2 <= u1 / 2);
    assert(magnitude(zigzag(u0)) == u0 / 2);
    assert(magnitude(zigzag(u1)) == u1 / 2);
}

/// An `isize` is drawn from the bytes of a `usize`, read big-endian as an
/// unsigned value `u`: it is half of `u`, rounded down, kept when `u` is odd
/// and negated when `u` is even.
pub proof fn law_isizes_value(g: IntGenerator<isize>, d: Seq<u8>, v: isize)
    requires
        g.generates(d, Ok(v)),
    ensures
        d.len() == usize::BITS / 8,
        be_value(d) % 2 == 1 ==> v == be_value(d) / 2,
        be_value(d) % 2 == 0 ==> v == -((be_value(d) / 2) as int),
{
    lemma_be_value_bound(d);
    lemma2_to64();
    lemma2_to64_rest();
    assert(usize::BITS == 32 || usize::BITS == 64);
}

/// A `usize` is the big-endian value of the bytes of a `usize`.
pub proof fn law_usizes_value(g: IntGenerator<usize>, d: Seq<u8>, v: usize)
    requires
        g.generates(d, Ok(v)),
    ensures
        d.len() == usize::BITS / 8,
        v == be_value(d),
{
    lemma_be_value_bound(d);
    lemma2_to64();
    lemma2_to64_rest();
    assert(usize::BITS == 32 || usize::BITS == 64);
}

/// The big-endian value of up to eight bytes, byte by byte.
pub proof fn lemma_be_value_bytes(d: Seq<u8>)
    ensures
        d.len() == 1 ==> be_value(d) == d[0] as int,
        d.len() == 2 ==> be_value(d) == d[0] * 0x100 + d[1],
        d.len() == 4 ==> be_value(d) == d[0] * 0x1000000 + d[1] * 0x10000 + d[2] * 0x100 + d[3],
        d.len() == 8 ==> be_value(d) == d[0] * 0x100000000000000 + d[1] * 0x1000000000000 + d[2]
            * 0x10000000000 + d[3] * 0x100000000 + d[4] * 0x1000000 + d[5] * 0x10000 + d[6]
            * 0x100 + d[7],
{
    if d.len() == 1 || d.len() == 2 || d.len() == 4 || d.len() == 8 {
        assert(d.take(0) =~= Seq::<u8>::empty());
        if d.len() >= 1 {
            lemma_be_value_prefixes(d, 1);
        }
        if d.len() >= 2 {
            lemma_be_value_prefixes(d, 2);
        }
        if d.len() >= 3 {
            lemma_be_value_prefixes(d, 3);
        }
        if d.len() >= 4 {
            lemma_be_value_prefixes(d, 4);
        }
        if d.len() >= 5 {
            lemma_be_value_prefixes(d, 5);
        }
        if d.len() >= 6 {
            lemma_be_value_prefixes(d, 6);
        }
        if d.len() >= 7 {
            lemma_be_value_prefixes(d, 7);
        }
        if d.len() >= 8 {
            lemma_be_value_prefixes(d, 8);
        }
        lemma_be_value_prefixes(d, d.len());
        let b0 = be_value(d.take(0));
        assert(be_value(d.take(1)) == b0 * 256 + d[0]);
        if d.len() >= 2 {
            assert(be_value(d.take(2)) == be_value(d.take(1)) * 256 + d[1]);
        }
        if d.len() >= 4 {
            assert(be_value(d.take(3)) == be_value(d.take(2)) * 256 + d[2]);
            assert(be_value(d.take(4)) == be_value(d.take(3)) * 256 + d[3]);
        }
        if d.len() >= 8 {
            assert(be_value(d.take(5)) == be_value(d.take(4)) * 256 + d[4]);
            assert(be_value(d.take(6)) == be_value(d.take(5)) * 256 + d[5]);
            assert(be_value(d.take(7)) == be_value(d.take(6)) * 256 + d[6]);
            assert(be_value(d.take(8)) == be_value(d.take(7)) * 256 + d[7]);
        }
    }
}

/// The big-endian value of the first `k` bytes, one byte at a time.
proof fn lemma_be_value_prefixes(d: Seq<u8>, k: nat)
    requires
        k <= d.len(),
    ensures
        be_value(d.take(k as int)) == if k == 0 {
            0
        } else {
            be_value(d.take(k - 1)) * 256 + d[k - 1]
        },
        k == d.len() ==> d.take(k as int) == d,
{
    if k > 0 {
        assert(d.take(k as int).drop_last() =~= d.take(k - 1));
    }
    assert(k == d.len() ==> d.take(k as int) =~= d);
}

/// `u8`s are the same for the same bytes.
pub proof fn law_u8s_deterministic(g: IntGenerator<u8>)
    ensures
        deterministic(g),
{
    assert forall|d1: Seq<u8>, d2: Seq<u8>, r1: Maybe<u8>, r2: Maybe<u8>|
        g.generates(d1, r1) && g.generates(d2, r2) && d1.is_prefix_of(d2) implies d1 == d2 && r1
        == r2 by {
        lemma_prefix_same_len(d1, d2);
    }
}

/// `u16`s are the same for the same bytes.
pub proof fn law_u16s_deterministic(g: IntGenerator<u16>)
    ensures
        deterministic(g),
{
    assert forall|d1: Seq<u8>, d2: Seq<u8>, r1: Maybe<u16>, r2: Maybe<u16>|
        g.generates(d1, r1) && g.generates(d2, r2) && d1.is_prefix_of(d2) implies d1 == d2 && r1
        == r2 by {
        lemma_prefix_same_len(d1, d2);
    }
}

/// `u32`s are the same for the same bytes.
pub proof fn law_u32s_deterministic(g: IntGenerator<u32>)
    ensures
        deterministic(g),
{
    assert forall|d1: Seq<u8>, d2: Seq<u8>, r1: Maybe<u32>, r2: Maybe<u32>|
        g.generates(d1, r1) && g.generates(d2, r2) && d1.is_prefix_of(d2) implies d1 == d2 && r1
        == r2 by {
        lemma_prefix_same_len(d1, d2);
    }
}

/// `u64`s are the same for the same bytes.
pub proof fn law_u64s_deterministic(g: IntGenerator<u64>)
    ensures
        deterministic(g),
{
    assert forall|d1: Seq<u8>, d2: Seq<u8>, r1: Maybe<u64>, r2: Maybe<u64>|
        g.generates(d1, r1) && g.generates(d2, r2) && d1.is_prefix_of(d2) implies d1 == d2 && r1
        == r2 by {
        lemma_prefix_same_len(d1, d2);
    }
}

/// `usize`s are the same for the same bytes.
pub proof fn law_usizes_deterministic(g: IntGenerator<usize>)
    ensures
        deterministic(g),
{
    assert forall|d1: Seq<u8>, d2: Seq<u8>, r1: Maybe<usize>, r2: Maybe<usize>|
        g.generates(d1, r1) && g.generates(d2, r2) && d1.is_prefix_of(d2) implies d1 == d2 && r1
        == r2 by {
        lemma_prefix_same_len(d1, d2);
    }
}

/// `i8`s are the same for the same bytes.
pub proof fn law_i8s_deterministic(g: IntGenerator<i8>)
    ensures
        deterministic(g),
{
    assert forall|d1: Seq<u8>, d2: Seq<u8>, r1: Maybe<i8>, r2: Maybe<i8>|
        g.generates(d1, r1) && g.generates(d2, r2) && d1.is_prefix_of(d2) implies d1 == d2 && r1
        == r2 by {
        lemma_prefix_same_len(d1, d2);
    }
}

/// `i16`s are the same for the same bytes.
pub proof fn law_i16s_deterministic(g: IntGenerator<i16>)
    ensures
        deterministic(g),
{
    assert forall|d1: Seq<u8>, d2: Seq<u8>, r1: Maybe<i16>, r2: Maybe<i16>|
        g.generates(d1, r1) && g.generates(d2, r2) && d1.is_prefix_of(d2) implies d1 == d2 && r1
        == r2 by {
        lemma_prefix_same_len(d1, d2);
    }
}

/// `i32`s are the same for the same bytes.
pub proof fn law_i32s_deterministic(g: IntGenerator<i32>)
    ensures
        deterministic(g),
{
    assert forall|d1: Seq<u8>, d2: Seq<u8>, r1: Maybe<i32>, r2: Maybe<i32>|
        g.generates(d1, r1) && g.generates(d2, r2) && d1.is_prefix_of(d2) implies d1 == d2 && r1
        == r2 by {
        lemma_prefix_same_len(d1, d2);
    }
}

/// `i64`s are the same for the same bytes.
pub proof fn law_i64s_deterministic(g: IntGenerator<i64>)
    ensures
        deterministic(g),
{
    assert forall|d1: Seq<u8>, d2: Seq<u8>, r1: Maybe<i64>, r2: Maybe<i64>|
        g.generates(d1, r1) && g.generates(d2, r2) && d1.is_prefix_of(d2) implies d1 == d2 && r1
        == r2 by {
        lemma_prefix_same_len(d1, d2);
    }
}

/// `isize`s are the same for the same bytes.
pub proof fn law_isizes_deterministic(g: IntGenerator<isize>)
    ensures
        deterministic(g),
{
    assert forall|d1: Seq<u8>, d2: Seq<u8>, r1: Maybe<isize>, r2: Maybe<isize>|
        g.generates(d1, r1) && g.generates(d2, r2) && d1.is_prefix_of(d2) implies d1 == d2 && r1
        == r2 by {
        lemma_prefix_same_len(d1, d2);
    }
}

/// Whether the bytes `a` come before `b`, or are the same, in the order of
/// byte strings: compared byte by byte from the first, a string that is the
/// start of another coming first.
pub open spec fn bytes_le(a: Seq<u8>, b: Seq<u8>) -> bool {
    ||| a.is_prefix_of(b)
    ||| exists|i: int|
        0 <= i < a.len() && i < b.len() && a.take(i) == b.take(i) && #[trigger] a[i] < b[i]
}

/// The value of two strings of bytes, one after the other.
#[verifier::spinoff_prover]
pub proof fn lemma_be_value_concat(a: Seq<u8>, b: Seq<u8>)
    ensures
        be_value(a + b) == be_value(a) * pow2(8 * b.len()) + be_value(b),
    decreases b.len(),
{
    if b.len() == 0 {
        assert(a + b =~= a);
        lemma2_to64();
        assert(pow2(8 * b.len()) == 1);
        assert(be_value(a) * 1 == be_value(a));
    } else {
        let b1 = b.drop_last();
        assert((a + b).drop_last() =~= a + b1);
        assert((a + b).last() == b.last());
        lemma_be_value_concat(a, b1);
        lemma_pow2_adds(8 * b1.len(), 8);
        lemma2_to64();
        assert(8 * b.len() == 8 * b1.len() + 8);
        let x = be_value(a);
        let p = pow2(8 * b1.len());
        let y = be_value(b1);
        assert((x * p + y) * 256 + b.last() == x * (p * 256) + (y * 256 + b.last()))
            by (nonlinear_arith);
        assert(be_value(a + b) == be_value(a + b1) * 256 + b.last());
        assert(be_value(b) == y * 256 + b.last());
        assert(pow2(8 * b.len()) == p * 256);
    }
}

/// Byte strings of one length are ordered as their values are.
pub proof fn lemma_be_value_monotone(a: Seq<u8>, b: Seq<u8>)
    requires
        a.len() == b.len(),
        bytes_le(a, b),
    ensures
        be_value(a) <= be_value(b),
{
    if a.is_prefix_of(b) {
        assert(a =~= b);
    } else {
        let i = choose|i: int|
            0 <= i < a.len() && i < b.len() && a.take(i) == b.take(i) && #[trigger] a[i] < b[i];
        let n = a.len();
        let pa = a.take(i + 1);
        let pb = b.take(i + 1);
        let ta = a.skip(i + 1);
        let tb = b.skip(i + 1);
        assert(a =~= pa + ta);
        assert(b =~= pb + tb);
        lemma_be_value_concat(pa, ta);
        lemma_be_value_concat(pb, tb);
        assert(pa.drop_last() =~= a.take(i));
        assert(pb.drop_last() =~= b.take(i));
        assert(be_value(pa) == be_value(a.take(i)) * 256 + a[i]);
        assert(be_value(pb) == be_value(b.take(i)) * 256 + b[i]);
        assert(be_value(pa) + 1 <= be_value(pb));
        lemma_be_value_bound(ta);
        let m = pow2(8 * ta.len());
        assert(ta.len() == tb.len());
        let va = be_value(pa);
        let vb = be_value(pb);
        let xa = be_value(ta);
        let xb = be_value(tb);
        assert(va * m + xa <= vb * m + xb) by (nonlinear_arith)
            requires
                va + 1 <= vb,
                0 <= xa < m,
                0 <= xb,
        ;
    }
}

/// `u8`s preserve the order of the bytes they are drawn from.
pub proof fn law_u8s_monotone(g: IntGenerator<u8>, d0: Seq<u8>, d1: Seq<u8>, v0: u8, v1: u8)
    requires
        g.generates(d0, Ok(v0)),
        g.generates(d1, Ok(v1)),
        bytes_le(d0, d1),
    ensures
        v0 <= v1,
{
    lemma_be_value_monotone(d0, d1);
    lemma_be_value_bound(d0);
    lemma_be_value_bound(d1);
    lemma2_to64();
}

/// `u64`s preserve the order of the bytes they are drawn from.
pub proof fn law_u64s_monotone(g: IntGenerator<u64>, d0: Seq<u8>, d1: Seq<u8>, v0: u64, v1: u64)
    requires
        g.generates(d0, Ok(v0)),
        g.generates(d1, Ok(v1)),
        bytes_le(d0, d1),
    ensures
        v0 <= v1,
{
    lemma_be_value_monotone(d0, d1);
    lemma_be_value_bound(d0);
    lemma_be_value_bound(d1);
    lemma2_to64_rest();
}

/// The magnitude of an integer.
pub open spec fn magnitude(v: int) -> int {
    if v < 0 {
        -v
    } else {
        v
    }
}

/// `i64`s preserve, in their magnitude, the order of the bytes they are
/// drawn from.
pub proof fn law_i64s_monotone_in_magnitude(
    g: IntGenerator<i64>,
    d0: Seq<u8>,
    d1: Seq<u8>,
    v0: i64,
    v1: i64,
)
    requires
        g.generates(d0, Ok(v0)),
        g.generates(d1, Ok(v1)),
        bytes_le(d0, d1),
    ensures
        magnitude(v0 as int) <= magnitude(v1 as int),
{
    lemma_be_value_monotone(d0, d1);
    lemma_be_value_bound(d0);
    lemma_be_value_bound(d1);
    lemma2_to64_rest();
    let u0 = be_value(d0);
    let u1 = be_value(d1);
    assert(u0 / 2 <= u1 / 2);
    assert(magnitude(zigzag(u0)) == u0 / 2);
    assert(magnitude(zigzag(u1)) == u1 / 2);
}

/// A pair of `u8`s preserves, in the order of pairs (by the first, then by
/// the second), the order of the bytes it is drawn from.
pub proof fn law_u8_pairs_monotone(
    g: (IntGenerator<u8>, IntGenerator<u8>),
    d0: Seq<u8>,
    d1: Seq<u8>,
    v0: (u8, u8),
    v1: (u8, u8),
)
    requires
        g.generates(d0, Ok(v0)),
        g.generates(d1, Ok(v1)),
        bytes_le(d0, d1),
    ensures
        v0.0 < v1.0 || (v0.0 == v1.0 && v0.1 <= v1.1),
{
    let (k0, x0) = choose|k: int, x: u8|
        0 <= k <= d0.len() && #[trigger] g.0.generates(d0.take(k), Ok(x)) && x == v0.0
            && g.1.generates(d0.skip(k), Ok(v0.1));
    let (k1, x1) = choose|k: int, x: u8|
        0 <= k <= d1.len() && #[trigger] g.0.generates(d1.take(k), Ok(x)) && x == v1.0
            && g.1.generates(d1.skip(k), Ok(v1.1));
    assert(k0 == 1 && k1 == 1);
    assert(d0.len() == 2 && d1.len() == 2);
    lemma_be_value_bound(d0.take(1));
    lemma_be_value_bound(d1.take(1));
    lemma_be_value_bound(d0.skip(1));
    lemma_be_value_bound(d1.skip(1));
    lemma2_to64();
    assert(d0.take(1).drop_last() =~= Seq::<u8>::empty());
    assert(d1.take(1).drop_last() =~= Seq::<u8>::empty());
    assert(d0.skip(1).drop_last() =~= Seq::<u8>::empty());
    assert(d1.skip(1).drop_last() =~= Seq::<u8>::empty());
    assert(v0.0 == d0[0] && v1.0 == d1[0] && v0.1 == d0[1] && v1.1 == d1[1]);
    if d0.is_prefix_of(d1) {
        assert(d0 =~= d1);
    } else {
        let i = choose|i: int|
            0 <= i < d0.len() && i < d1.len() && d0.take(i) == d1.take(i) && #[trigger] d0[i]
                < d1[i];
        if i == 1 {
            assert(d0.take(1)[0] == d1.take(1)[0]);
        }
    }
}

/// An `upto` of `u8`s preserves the order of the bytes it is drawn from.
pub proof fn law_u8_uptos_monotone(
    g: UptoGenerator<IntGenerator<u8>>,
    d0: Seq<u8>,
    d1: Seq<u8>,
    v0: u8,
    v1: u8,
)
    requires
        g.generates(d0, Ok(v0)),
        g.generates(d1, Ok(v1)),
        bytes_le(d0, d1),
    ensures
        v0 <= v1,
{
    let w0 = choose|v: u8| #[trigger] g.source().generates(d0, Ok(v)) && v0 == v.scaled(g.limit());
    let w1 = choose|v: u8| #[trigger] g.source().generates(d1, Ok(v)) && v1 == v.scaled(g.limit());
    law_u8s_monotone(g.source(), d0, d1, w0, w1);
    let m = g.limit();
    assert(w0 * m / 0x100 <= w1 * m / 0x100) by (nonlinear_arith)
        requires
            w0 <= w1,
            0 <= m,
    ;
    assert(w0 * m / 0x100 <= m) by (nonlinear_arith)
        requires
            0 <= w0 < 0x100,
            0 <= m,
    ;
    assert(w1 * m / 0x100 <= m) by (nonlinear_arith)
        requires
            0 <= w1 < 0x100,
            0 <= m,
    ;
}

/// An `upto` never goes past its limit.
pub proof fn law_u8_uptos_within_limit(g: UptoGenerator<IntGenerator<u8>>, d: Seq<u8>, v: u8)
    requires
        g.generates(d, Ok(v)),
    ensures
        v <= g.limit(),
{
    let w = choose|w: u8| #[trigger] g.source().generates(d, Ok(w)) && v == w.scaled(g.limit());
    let m = g.limit();
    assert(w * m / 0x100 <= m) by (nonlinear_arith)
        requires
            0 <= w < 0x100,
            0 <= m,
    ;
}

/// An `upto` of a generator that is the same for the same bytes is so too.
pub proof fn law_uptos_deterministic<G: Generator>(g: UptoGenerator<G>) where G::Item: ScaleInt + Copy
    requires
        deterministic(g.source()),
    ensures
        deterministic(g),
{
    assert forall|d1: Seq<u8>, d2: Seq<u8>, r1: Maybe<G::Item>, r2: Maybe<G::Item>|
        g.generates(d1, r1) && g.generates(d2, r2) && d1.is_prefix_of(d2) implies d1 == d2 && r1
        == r2 by {
        let s1: Maybe<G::Item> = match r1 {
            Ok(_) => Ok(choose|v: G::Item| #[trigger] g.source().generates(d1, Ok(v)) && r1->Ok_0
                == v.scaled(g.limit())),
            Err(e) => Err(e),
        };
        let s2: Maybe<G::Item> = match r2 {
            Ok(_) => Ok(choose|v: G::Item| #[trigger] g.source().generates(d2, Ok(v)) && r2->Ok_0
                == v.scaled(g.limit())),
            Err(e) => Err(e),
        };
        assert(g.source().generates(d1, s1));
        assert(g.source().generates(d2, s2));
    }
}

/// An `upto` of `u16`s never goes past its limit.
pub proof fn law_u16_uptos_within_limit(g: UptoGenerator<IntGenerator<u16>>, d: Seq<u8>, v: u16)
    requires
        g.generates(d, Ok(v)),
    ensures
        v <= g.limit(),
{
    let w = choose|w: u16| #[trigger] g.source().generates(d, Ok(w)) && v == w.scaled(g.limit());
    let m = g.limit();
    assert(w * m / 0x1_0000 <= m) by (nonlinear_arith)
        requires
            0 <= w < 0x1_0000,
            0 <= m,
    ;
}

/// An `upto` of `u32`s never goes past its limit.
pub proof fn law_u32_uptos_within_limit(g: UptoGenerator<IntGenerator<u32>>, d: Seq<u8>, v: u32)
    requires
        g.generates(d, Ok(v)),
    ensures
        v <= g.limit(),
{
    let w = choose|w: u32| #[trigger] g.source().generates(d, Ok(w)) && v == w.scaled(g.limit());
    let m = g.limit();
    assert(w * m / 0x1_0000_0000 <= m) by (nonlinear_arith)
        requires
            0 <= w < 0x1_0000_0000,
            0 <= m,
    ;
}

/// An `upto` of `u64`s never goes past its limit.
pub proof fn law_u64_uptos_within_limit(g: UptoGenerator<IntGenerator<u64>>, d: Seq<u8>, v: u64)
    requires
        g.generates(d, Ok(v)),
    ensures
        v <= g.limit(),
{
    let w = choose|w: u64| #[trigger] g.source().generates(d, Ok(w)) && v == w.scaled(g.limit());
    let m = g.limit();
    assert(w * m / 0x1_0000_0000_0000_0000int <= m) by (nonlinear_arith)
        requires
            0 <= w < 0x1_0000_0000_0000_0000int,
            0 <= m,
    ;
}

} // verus!
