use crate::data::source::{span_fits, InfoPool, InfoRecorder, InfoReplay, InfoSource, Span};
use vstd::arithmetic::div_mod::{lemma_div_denominator, lemma_div_is_strictly_smaller};
use vstd::arithmetic::power2::{
    lemma2_to64, lemma_pow2_adds, lemma_pow2_pos, lemma_pow2_strictly_increases,
    lemma_pow2_unfold, pow2,
};
use vstd::bits::lemma_u8_shr_is_div;
use vstd::prelude::*;

verus! {

/// The number of bits needed to write `v`: zero for zero.
pub open spec fn bit_length(v: nat) -> nat
    decreases v,
{
    if v == 0 {
        0
    } else {
        1 + bit_length(v / 2)
    }
}

/// A value below `2^k` needs at most `k` bits.
pub proof fn lemma_bit_length_le(v: nat, k: nat)
    requires
        v < pow2(k),
    ensures
        bit_length(v) <= k,
    decreases k,
{
    if v != 0 {
        lemma_pow2_pos(k);
        if k == 0 {
            assert(pow2(0) == 1) by {
                lemma2_to64();
            }
        } else {
            lemma_pow2_unfold(k);
            lemma_bit_length_le(v / 2, (k - 1) as nat);
        }
    }
}

/// A value needs at least `k + 1` bits when it is at least `2^k`.
pub proof fn lemma_bit_length_ge(v: nat, k: nat)
    requires
        pow2(k) <= v,
    ensures
        k < bit_length(v),
    decreases k,
{
    lemma_pow2_pos(k);
    if k > 0 {
        lemma_pow2_unfold(k);
        lemma_bit_length_ge(v / 2, (k - 1) as nat);
    }
}

/// Number of bits needed to write `val`.
pub(crate) fn ulog2(val: usize) -> (r: usize)
    ensures
        r == bit_length(val as nat),
        r <= 64,
{
    proof {
        lemma2_to64();
        lemma_bit_length_le(val as nat, 64);
    }
    let mut v = val;
    let mut n: usize = 0;
    while v > 0
        invariant
            n + bit_length(v as nat) == bit_length(val as nat),
            bit_length(val as nat) <= 64,
        decreases v,
    {
        v = v / 2;
        n = n + 1;
    }
    n
}

/// Number of bits needed to write the byte `val`.
fn byte_bit_length(val: u8) -> (r: u32)
    ensures
        r == bit_length(val as nat),
        r <= 8,
{
    proof {
        lemma2_to64();
        lemma_bit_length_le(val as nat, 8);
    }
    let mut v = val;
    let mut n: u32 = 0;
    while v > 0
        invariant
            n + bit_length(v as nat) == bit_length(val as nat),
            bit_length(val as nat) <= 8,
        decreases v,
    {
        v = v / 2;
        n = n + 1;
    }
    n
}

/// `2^e`, for `e` up to 64.
fn power_of_two(e: usize) -> (r: u128)
    requires
        e <= 64,
    ensures
        r == pow2(e as nat),
        1 <= r <= 0x1_0000_0000_0000_0000u128,
{
    let mut r: u128 = 1;
    let mut k: usize = 0;
    proof {
        lemma2_to64();
    }
    while k < e
        invariant
            k <= e <= 64,
            r == pow2(k as nat),
            pow2(64) == 0x1_0000_0000_0000_0000,
        decreases e - k,
    {
        proof {
            lemma_pow2_unfold((k + 1) as nat);
            lemma_pow2_strictly_increases(k as nat, 64);
        }
        r = r * 2;
        k = k + 1;
    }
    proof {
        lemma_pow2_pos(e as nat);
        if e < 64 {
            lemma_pow2_strictly_increases(e as nat, 64);
        }
    }
    r
}

/// Something that hands out spans, one at a time, from a fixed sequence.
pub trait SpanSource {
    /// The spans still to come, in order.
    spec fn upcoming(&self) -> Seq<Span>;

    /// Whether the source's state is consistent.
    spec fn ready(&self) -> bool;

    /// Hands out the next span, if any is left.
    fn next_span(&mut self) -> (r: Option<Span>)
        requires
            old(self).ready(),
        ensures
            final(self).ready(),
            match r {
                Some(s) => old(self).upcoming() == seq![s] + final(self).upcoming(),
                None => old(self).upcoming().len() == 0 && final(self).upcoming().len() == 0,
            },
    ;
}

/// The regions recorded with a pool, handed out most recently closed first.
pub struct InfoPoolIntervalsIter {
    spans: Vec<Span>,
    remaining: usize,
}

impl InfoPoolIntervalsIter {
    /// Hands out the spans of `spans`, last first.
    pub fn new(spans: Vec<Span>) -> (r: Self)
        ensures
            r.ready(),
            r.upcoming() == spans@.reverse(),
    {
        let remaining = spans.len();
        let r = InfoPoolIntervalsIter { spans, remaining };
        assert(r.spans@.take(remaining as int) =~= r.spans@);
        r
    }
}

impl SpanSource for InfoPoolIntervalsIter {
    closed spec fn upcoming(&self) -> Seq<Span> {
        self.spans@.take(self.remaining as int).reverse()
    }

    closed spec fn ready(&self) -> bool {
        self.remaining <= self.spans@.len()
    }

    fn next_span(&mut self) -> (r: Option<Span>) {
        if self.remaining == 0 {
            assert(self.upcoming() =~= Seq::<Span>::empty());
            None
        } else {
            let ghost before = self.upcoming();
            self.remaining = self.remaining - 1;
            let s = self.spans[self.remaining];
            assert(before =~= seq![s] + self.upcoming());
            Some(s)
        }
    }
}

/// The spans that delta debugging cuts out of a buffer of `size` bytes,
/// starting with chunk number `chunk` at level `level`: at each level the
/// buffer is cut into chunks of `2^(log2sz - level)` bytes (the last one
/// clipped to the buffer).
pub open spec fn delta_debug_spans(size: nat, log2sz: nat, level: nat, chunk: nat) -> Seq<Span>
    decreases log2sz + 1 - level, size + 1 - chunk,
{
    if level > log2sz {
        Seq::empty()
    } else {
        let width = pow2((log2sz - level) as nat);
        let start = chunk * width;
        if start >= size {
            delta_debug_spans(size, log2sz, level + 1, 0)
        } else {
            proof {
                lemma_pow2_pos((log2sz - level) as nat);
                assert(chunk <= chunk * width) by (nonlinear_arith)
                    requires
                        width >= 1,
                ;
            }
            let end = if start + width <= size {
                start + width
            } else {
                size
            };
            seq![Span { start: start as usize, end: end as usize, level: 0 }] + delta_debug_spans(
                size,
                log2sz,
                level,
                chunk + 1,
            )
        }
    }
}

/// Each delta debugging span of a buffer is a non-empty range of it.
pub proof fn lemma_delta_debug_spans_fit(size: nat, log2sz: nat, level: nat, chunk: nat)
    requires
        size <= usize::MAX,
    ensures
        forall|i: int|
            0 <= i < delta_debug_spans(size, log2sz, level, chunk).len() ==> {
                let s = #[trigger] delta_debug_spans(size, log2sz, level, chunk)[i];
                s.start < s.end <= size
            },
    decreases log2sz + 1 - level, size + 1 - chunk,
{
    if level <= log2sz {
        let width = pow2((log2sz - level) as nat);
        let start = chunk * width;
        lemma_pow2_pos((log2sz - level) as nat);
        if start >= size {
            lemma_delta_debug_spans_fit(size, log2sz, level + 1, 0);
            assert(delta_debug_spans(size, log2sz, level, chunk) == delta_debug_spans(
                size,
                log2sz,
                level + 1,
                0,
            ));
        } else {
            assert(chunk <= chunk * width) by (nonlinear_arith)
                requires
                    width >= 1,
            ;
            lemma_delta_debug_spans_fit(size, log2sz, level, chunk + 1);
            let all = delta_debug_spans(size, log2sz, level, chunk);
            let rest = delta_debug_spans(size, log2sz, level, chunk + 1);
            let end = if start + width <= size {
                start + width
            } else {
                size
            };
            let s0 = Span { start: start as usize, end: end as usize, level: 0 };
            assert(all == seq![s0] + rest);
            assert(s0.start < s0.end <= size);
            assert forall|i: int| 0 <= i < all.len() implies {
                let s = #[trigger] all[i];
                s.start < s.end <= size
            } by {
                if i > 0 {
                    assert(all[i] == rest[i - 1]);
                }
            }
        }
    }
}

/// Iterates over the spans that delta debugging cuts out of a buffer. If
/// the buffer's size `sz` is such that `2^(log2sz-1) < sz <= 2^log2sz`,
/// then with `f(x) = 2^(log2sz-x)` it hands out
/// `0..f(0)`, then `0..f(1)`, `f(1)..2f(1)`, then `0..f(2)`, `f(2)..2f(2)`,
/// `2f(2)..3f(2)`, `3f(2)..4f(2)`, and so on, each clipped to the buffer.
///
/// In other words, we remove the whole lot, then first half, second half,
/// first quarter, second quarter, etc.
#[derive(Debug)]
pub struct DeltaDebugSegmentIterator {
    size: usize,
    log2sz: usize,
    level: usize,
    chunk: usize,
}

impl DeltaDebugSegmentIterator {
    /// The size of the buffer being cut.
    pub closed spec fn buffer_size(&self) -> nat {
        self.size as nat
    }

    /// The iterator for a buffer of `size` bytes.
    pub fn new(size: usize) -> (r: Self)
        ensures
            r.ready(),
            r.buffer_size() == size,
            r.upcoming() == delta_debug_spans(
                size as nat,
                bit_length(if size == 0 { 0 } else { (size - 1) as nat }),
                0,
                0,
            ),
    {
        let log2sz = ulog2(size.saturating_sub(1));
        let level: usize = 0;
        let chunk: usize = 0;
        DeltaDebugSegmentIterator { size, log2sz, level, chunk }
    }
}

impl SpanSource for DeltaDebugSegmentIterator {
    closed spec fn upcoming(&self) -> Seq<Span> {
        delta_debug_spans(self.size as nat, self.log2sz as nat, self.level as nat, self.chunk as nat)
    }

    closed spec fn ready(&self) -> bool {
        &&& self.log2sz <= 64
        &&& self.level <= self.log2sz + 1
        &&& self.chunk <= self.size
    }

    fn next_span(&mut self) -> (r: Option<Span>) {
        loop
            invariant
                self.ready(),
                self.upcoming() == old(self).upcoming(),
                self.size == old(self).size,
            decreases self.log2sz + 1 - self.level,
        {
            if self.level > self.log2sz {
                return None;
            }
            let granularity = self.log2sz - self.level;
            let width = power_of_two(granularity);
            assert(self.chunk as u128 * width <= 0xffff_ffff_ffff_ffffu128 * 0x1_0000_0000_0000_0000u128)
                by (nonlinear_arith)
                requires
                    self.chunk <= 0xffff_ffff_ffff_ffffu128,
                    width <= 0x1_0000_0000_0000_0000u128,
            ;
            let start: u128 = self.chunk as u128 * width;
            if start >= self.size as u128 {
                self.chunk = 0;
                self.level = self.level + 1;
            } else {
                assert(self.chunk <= start) by (nonlinear_arith)
                    requires
                        width >= 1,
                        start == self.chunk * width,
                ;
                let ghost before = self.upcoming();
                self.chunk = self.chunk + 1;
                let end: u128 = start + width;
                let end = if end <= self.size as u128 {
                    end as usize
                } else {
                    self.size
                };
                let s = Span::of_pair((start as usize, end));
                assert(before == seq![s] + self.upcoming());
                return Some(s);
            }
        }
    }
}

/// Iterates over copies of a pool, each with one span of bytes cut out.
#[derive(Debug)]
pub struct RemovalShrinker<I> {
    seed: InfoPool,
    segments: I,
}

impl<I: SpanSource> RemovalShrinker<I> {
    /// The pool that is being cut.
    pub closed spec fn seed(&self) -> InfoPool {
        self.seed
    }

    /// The spans still to be cut, in order.
    pub closed spec fn upcoming(&self) -> Seq<Span> {
        self.segments.upcoming()
    }

    /// Whether every span still to come can be cut out of the seed.
    pub closed spec fn ready(&self) -> bool {
        &&& self.segments.ready()
        &&& forall|i: int|
            0 <= i < self.segments.upcoming().len() ==> span_fits(
                #[trigger] self.segments.upcoming()[i],
                self.seed@.len(),
            )
    }

    /// Cuts each span of `segments` out of `seed`, in turn.
    pub fn new(seed: InfoPool, segments: I) -> (r: Self)
        requires
            segments.ready(),
            forall|i: int|
                0 <= i < segments.upcoming().len() ==> span_fits(
                    #[trigger] segments.upcoming()[i],
                    seed@.len(),
                ),
        ensures
            r.ready(),
            r.seed() == seed,
            r.upcoming() == segments.upcoming(),
    {
        RemovalShrinker { seed, segments }
    }

    /// The seed with the next span cut out, if a span is left.
    pub fn next(&mut self) -> (r: Option<InfoPool>)
        requires
            old(self).ready(),
        ensures
            final(self).ready(),
            final(self).seed() == old(self).seed(),
            match r {
                Some(p) => {
                    let s = old(self).upcoming()[0];
                    &&& old(self).upcoming().len() > 0
                    &&& final(self).upcoming() == old(self).upcoming().drop_first()
                    &&& p@ == old(self).seed()@.take(s.start as int) + old(self).seed()@.skip(
                        s.end as int,
                    )
                    &&& p.span_list() == Seq::<Span>::empty()
                },
                None => old(self).upcoming().len() == 0,
            },
    {
        let ghost before = self.segments.upcoming();
        match self.segments.next_span() {
            Some(span) => {
                assert(before[0] == span);
                assert(self.segments.upcoming() =~= before.drop_first());
                assert(span_fits(before[0], self.seed@.len()));
                assert forall|i: int| 0 <= i < self.segments.upcoming().len() implies span_fits(
                    #[trigger] self.segments.upcoming()[i],
                    self.seed@.len(),
                ) by {
                    assert(self.segments.upcoming()[i] == before[i + 1]);
                }
                Some(self.seed.without(span.start, span.end))
            },
            None => None,
        }
    }
}

impl RemovalShrinker<InfoPoolIntervalsIter> {
    /// Cuts out each region recorded with `seed`, the most recently closed
    /// first.
    pub fn remove_recorded_intervals(seed: InfoPool) -> (r: Self)
        ensures
            r.ready(),
            r.seed() == seed,
            r.upcoming() == seed.span_list().reverse(),
    {
        let spans = seed.spans();
        let mut copy: Vec<Span> = Vec::new();
        let mut i: usize = 0;
        while i < spans.len()
            invariant
                i <= spans@.len(),
                copy@ == spans@.take(i as int),
            decreases spans@.len() - i,
        {
            copy.push(spans[i]);
            i = i + 1;
            assert(copy@ =~= spans@.take(i as int));
        }
        assert(copy@ =~= spans@);
        let segments = InfoPoolIntervalsIter::new(copy);
        assert forall|i: int| 0 <= i < segments.upcoming().len() implies span_fits(
            #[trigger] segments.upcoming()[i],
            seed@.len(),
        ) by {
            assert(segments.upcoming()[i] == spans@[spans@.len() - 1 - i]);
        }
        RemovalShrinker::new(seed, segments)
    }
}

impl RemovalShrinker<DeltaDebugSegmentIterator> {
    /// Cuts out the delta debugging spans of `seed`: the whole of it, each
    /// half, each quarter, and so on.
    pub fn delta_debug_of_pool(seed: InfoPool) -> (r: Self)
        ensures
            r.ready(),
            r.seed() == seed,
            r.upcoming() == delta_debug_spans(
                seed@.len(),
                bit_length(if seed@.len() == 0 { 0 } else { (seed@.len() - 1) as nat }),
                0,
                0,
            ),
    {
        let len = seed.len();
        let segments = DeltaDebugSegmentIterator::new(len);
        proof {
            lemma_delta_debug_spans_fit(
                len as nat,
                bit_length(if len == 0 { 0 } else { (len - 1) as nat }),
                0,
                0,
            );
        }
        RemovalShrinker::new(seed, segments)
    }
}

/// The byte `v` less `v` shifted right by `bitoff` bits.
pub open spec fn shrunk_byte(v: u8, bitoff: nat) -> u8 {
    (v - v as nat / pow2(bitoff)) as u8
}

/// The candidates that scalar shrinking makes of the bytes `s`, starting at
/// offset `pos` with shift `bitoff`: for each byte in turn, and each shift
/// below the byte's bit length, the bytes with that one byte replaced by
/// itself less itself shifted right (zero, then half, then a quarter less,
/// and so on), where that changes the byte.
pub open spec fn scalar_shrinks(s: Seq<u8>, pos: nat, bitoff: nat) -> Seq<Seq<u8>>
    decreases s.len() - pos, 8 - bitoff,
{
    if pos >= s.len() {
        Seq::empty()
    } else if bitoff >= bit_length(s[pos as int] as nat) || bitoff >= 8 {
        scalar_shrinks(s, pos + 1, 0)
    } else if shrunk_byte(s[pos as int], bitoff) == s[pos as int] {
        scalar_shrinks(s, pos, bitoff + 1)
    } else {
        seq![s.update(pos as int, shrunk_byte(s[pos as int], bitoff))] + scalar_shrinks(
            s,
            pos,
            bitoff + 1,
        )
    }
}

proof fn lemma_u8_shr(v: u8, b: u32)
    requires
        b < 8,
    ensures
        v >> b == v as nat / pow2(b as nat),
        v >> b <= v,
{
    lemma_u8_shr_is_div(v, b as u8);
    assert(v >> b == v >> (b as u8)) by (bit_vector)
        requires
            b < 8,
    ;
    lemma_pow2_pos(b as nat);
}

/// Iterates over copies of a pool, each with one byte made smaller.
#[derive(Debug)]
pub struct ScalarShrinker {
    seed: InfoPool,
    pos: usize,
    bitoff: u32,
}

impl ScalarShrinker {
    /// The pool whose bytes are being shrunk.
    pub closed spec fn seed(&self) -> InfoPool {
        self.seed
    }

    /// The candidates still to come, in order.
    pub closed spec fn upcoming(&self) -> Seq<Seq<u8>> {
        scalar_shrinks(self.seed@, self.pos as nat, self.bitoff as nat)
    }

    /// Whether the iterator's position is consistent.
    pub closed spec fn ready(&self) -> bool {
        self.bitoff <= 8
    }

    /// Shrinks each byte of `pool` in turn.
    pub fn new(pool: InfoPool) -> (r: Self)
        ensures
            r.ready(),
            r.seed() == pool,
            r.upcoming() == scalar_shrinks(pool@, 0, 0),
    {
        ScalarShrinker { seed: pool, pos: 0, bitoff: 0 }
    }

    /// The next candidate, if any is left. It keeps the seed's regions.
    pub fn next(&mut self) -> (r: Option<InfoPool>)
        requires
            old(self).ready(),
        ensures
            final(self).ready(),
            final(self).seed() == old(self).seed(),
            match r {
                Some(p) => {
                    &&& old(self).upcoming().len() > 0
                    &&& p@ == old(self).upcoming()[0]
                    &&& final(self).upcoming() == old(self).upcoming().drop_first()
                    &&& p.span_list() == old(self).seed().span_list()
                },
                None => old(self).upcoming().len() == 0,
            },
    {
        let len = self.seed.len();
        while self.pos < len
            invariant
                self.ready(),
                len == self.seed@.len(),
                self.seed == old(self).seed,
                self.upcoming() == old(self).upcoming(),
            decreases len - self.pos, 8 - self.bitoff,
        {
            let pos = self.pos;
            let bitoff = self.bitoff;
            let orig_val = self.seed.byte(pos);
            let log2val = byte_bit_length(orig_val);
            if bitoff >= log2val {
                self.pos = self.pos + 1;
                self.bitoff = 0;
            } else {
                proof {
                    lemma_u8_shr(orig_val, bitoff);
                }
                let new_val = orig_val - (orig_val >> bitoff);
                assert(new_val == shrunk_byte(orig_val, bitoff as nat));
                self.bitoff = self.bitoff + 1;
                if orig_val != new_val {
                    let candidate = self.seed.with_byte(pos, new_val);
                    assert(old(self).upcoming() == seq![candidate@] + self.upcoming());
                    return Some(candidate);
                }
            }
        }
        assert(self.upcoming() =~= Seq::<Seq<u8>>::empty());
        None
    }
}

/// Whether `rec` is a fresh recorder replaying the bytes `c`: nothing drawn
/// or recorded yet.
pub open spec fn starts_on(rec: InfoRecorder<InfoReplay<'_>>, c: Seq<u8>) -> bool {
    &&& rec.source().source_bytes() == c
    &&& rec.source().drawn() == Seq::<u8>::empty()
    &&& rec.recorded() == Seq::<u8>::empty()
    &&& rec.recorded_spans() == Seq::<Span>::empty()
    &&& rec.open_regions() == Seq::<usize>::empty()
}

/// Whether `pred` was run on a fresh recorder replaying the bytes `c`.
pub open spec fn offered<F: Fn(&mut InfoRecorder<InfoReplay>) -> bool>(pred: F, c: Seq<u8>) -> bool {
    exists|rec: &mut InfoRecorder<InfoReplay>, b: bool|
        starts_on(*rec, c) && #[trigger] call_ensures(pred, (rec,), b)
}

/// Whether `pred` returned false when run on a fresh recorder replaying
/// the bytes `c`.
pub open spec fn rejected<F: Fn(&mut InfoRecorder<InfoReplay>) -> bool>(pred: F, c: Seq<u8>) -> bool {
    exists|rec: &mut InfoRecorder<InfoReplay>|
        starts_on(*rec, c) && #[trigger] call_ensures(pred, (rec,), false)
}

/// Whether `hist` and `pools` are a run of shrinks from `orig` to `r`:
/// each `hist[k]` a shrink candidate of the pool before it (`orig` first),
/// and `pools[k]` what was recorded from it; `r` is the last of the pools,
/// or holds the bytes and regions of `orig` when there was no shrink.
pub open spec fn shrink_path(
    orig: InfoPool,
    hist: Seq<Seq<u8>>,
    pools: Seq<InfoPool>,
    r: InfoPool,
) -> bool {
    &&& hist.len() == pools.len()
    &&& hist.len() == 0 ==> r@ == orig@ && r.span_list() == orig.span_list()
    &&& hist.len() > 0 ==> r == pools.last() && shrink_candidates(orig).contains(hist[0])
    &&& forall|k: int|
        0 < k < hist.len() ==> shrink_candidates(pools[k - 1]).contains(#[trigger] hist[k])
}

/// Whether `pred` returned true when run on a fresh recorder replaying the
/// bytes `c`.
pub open spec fn accepted<F: Fn(&mut InfoRecorder<InfoReplay>) -> bool>(pred: F, c: Seq<u8>) -> bool {
    exists|rec: &mut InfoRecorder<InfoReplay>|
        starts_on(*rec, c) && #[trigger] call_ensures(pred, (rec,), true)
}

/// The steps of a run of shrinks: each accepted candidate with the pool
/// recorded from it.
pub open spec fn shrink_steps(hist: Seq<Seq<u8>>, pools: Seq<InfoPool>) -> Seq<(Seq<u8>, InfoPool)> {
    Seq::new(hist.len(), |k: int| (hist[k], pools[k]))
}

/// Whether one of the pools of `seen` holds the bytes `c`.
pub open spec fn was_seen(seen: Seq<InfoPool>, c: Seq<u8>) -> bool {
    exists|j: int| 0 <= j < seen.len() && #[trigger] seen[j]@ == c
}

/// The bytes `s` with each span of `spans` cut out, one span at a time.
pub open spec fn cuts(s: Seq<u8>, spans: Seq<Span>) -> Seq<Seq<u8>> {
    spans.map_values(|sp: Span| s.take(sp.start as int) + s.skip(sp.end as int))
}

/// The delta debugging spans of a buffer of `len` bytes.
pub open spec fn delta_spans_of(len: nat) -> Seq<Span> {
    delta_debug_spans(len, bit_length(if len == 0 { 0 } else { (len - 1) as nat }), 0, 0)
}

/// The shrink candidates of `best`, in the order they are offered: with one
/// recorded region cut out (most recently closed first), with each delta
/// debugging span cut out, then with one byte reduced.
pub open spec fn shrink_candidates(best: InfoPool) -> Seq<Seq<u8>> {
    cuts(best@, best.span_list().reverse()) + cuts(best@, delta_spans_of(best@.len()))
        + scalar_shrinks(best@, 0, 0)
}

/// What was seen stays seen as more is seen.
proof fn lemma_seen_grows(before: Seq<InfoPool>, after: Seq<InfoPool>)
    requires
        before.is_prefix_of(after),
    ensures
        forall|c: Seq<u8>| was_seen(before, c) ==> was_seen(after, c),
{
    assert forall|c: Seq<u8>| was_seen(before, c) implies was_seen(after, c) by {
        let j = choose|j: int| 0 <= j < before.len() && #[trigger] before[j]@ == c;
        assert(after[j] == before[j]);
    }
}

/// Offers each candidate in turn to `pred`, skipping those already in
/// `seen` and adding the others to it, and returns the recording of the
/// first one that `pred` accepts.
fn first_accepted<F: Fn(&mut InfoRecorder<InfoReplay>) -> bool>(
    seen: &mut Vec<InfoPool>,
    candidate: InfoPool,
    pred: &F,
) -> (r: Option<InfoPool>)
    requires
        forall|rec: &mut InfoRecorder<InfoReplay>| call_requires(*pred, (rec,)),
    ensures
        old(seen)@.is_prefix_of(final(seen)@),
        r is Some ==> final(seen)@.len() > old(seen)@.len(),
        final(seen)@ == old(seen)@ || final(seen)@ == old(seen)@.push(candidate),
        was_seen(final(seen)@, candidate@),
        final(seen)@.len() > old(seen)@.len() ==> offered(*pred, candidate@),
        r is Some ==> final(seen)@ == old(seen)@.push(candidate),
        r is None && final(seen)@.len() > old(seen)@.len() ==> rejected(*pred, candidate@),
        r matches Some(p) ==> exists|rec: &mut InfoRecorder<InfoReplay>|
            #[trigger] call_ensures(*pred, (rec,), true) && starts_on(*rec, candidate@)
                && p@ == final(rec).recorded() && p.span_list() == final(rec).recorded_spans(),
{
    let mut i: usize = 0;
    while i < seen.len()
        invariant
            i <= seen@.len(),
            seen@ == old(seen)@,
        decreases seen@.len() - i,
    {
        if seen[i].same_as(&candidate) {
            assert(seen@[i as int]@ == candidate@);
            return None;
        }
        i = i + 1;
    }
    let ghost bytes = candidate@;
    let mut rec = InfoRecorder::new(candidate.replay());
    let ghost start = rec;
    let accepted = pred(&mut rec);
    let ghost after = rec;
    proof {
        assert(starts_on(start, bytes));
        assert(exists|r: &mut InfoRecorder<InfoReplay>|
            *r == start && call_ensures(*pred, (r,), accepted) && *final(r) == after);
    }
    let recorded = rec.into_pool();
    seen.push(candidate);
    assert(seen@[seen@.len() - 1]@ == bytes);
    if accepted {
        proof {
            let w = choose|r: &mut InfoRecorder<InfoReplay>|
                *r == start && call_ensures(*pred, (r,), accepted) && *final(r) == after;
            assert(starts_on(*w, candidate@) && call_ensures(*pred, (w,), true));
            assert(recorded@ == final(w).recorded() && recorded.span_list() == final(w).recorded_spans());

        }
        Some(recorded)
    } else {
        proof {
            let w = choose|r: &mut InfoRecorder<InfoReplay>|
                *r == start && call_ensures(*pred, (r,), accepted) && *final(r) == after;
            assert(starts_on(*w, candidate@) && call_ensures(*pred, (w,), false));
        }
        None
    }
}

/// Offers the shrink candidates of `best` to `pred`, in order (cutting out
/// recorded regions, then delta debugging cuts, then scalar shrinks), and
/// returns the recording of the first unseen one that `pred` accepts. When
/// it accepts none, every candidate has been seen.
fn shrink_once<F: Fn(&mut InfoRecorder<InfoReplay>) -> bool>(
    best: &InfoPool,
    seen: &mut Vec<InfoPool>,
    pred: &F,
) -> (r: Option<InfoPool>)
    requires
        forall|rec: &mut InfoRecorder<InfoReplay>| call_requires(*pred, (rec,)),
        forall|j: int| 0 <= j < old(seen)@.len() ==> offered(*pred, #[trigger] old(seen)@[j]@),
    ensures
        old(seen)@.is_prefix_of(final(seen)@),
        r is Some ==> final(seen)@.len() > old(seen)@.len(),
        forall|j: int| 0 <= j < final(seen)@.len() ==> offered(*pred, #[trigger] final(seen)@[j]@),
        forall|j: int|
            old(seen)@.len() <= j < final(seen)@.len() ==> rejected(
                *pred,
                #[trigger] final(seen)@[j]@,
            ) || (r is Some && j == final(seen)@.len() - 1),
        r matches Some(p) ==> {
            &&& final(seen)@.len() > old(seen)@.len()
            &&& shrink_candidates(*best).contains(final(seen)@.last()@)
            &&& exists|rec: &mut InfoRecorder<InfoReplay>|
                #[trigger] call_ensures(*pred, (rec,), true) && starts_on(
                    *rec,
                    final(seen)@.last()@,
                ) && p@ == final(rec).recorded() && p.span_list() == final(rec).recorded_spans()
        },
        r is None ==> forall|i: int|
            0 <= i < shrink_candidates(*best).len() ==> was_seen(
                final(seen)@,
                #[trigger] shrink_candidates(*best)[i],
            ),
{
    let ghost all = shrink_candidates(*best);
    let ghost spans1 = best.span_list().reverse();
    let ghost part1 = cuts(best@, spans1);
    let ghost spans2 = delta_spans_of(best@.len());
    let ghost part2 = cuts(best@, spans2);
    let ghost part3 = scalar_shrinks(best@, 0, 0);
    assert(all == part1 + part2 + part3);
    assert(part1.len() == spans1.len());
    assert(part2.len() == spans2.len());
    let mut intervals = RemovalShrinker::remove_recorded_intervals(best.clone());
    let ghost mut k: int = 0;
    loop
        invariant_except_break
            intervals.ready(),
            intervals.upcoming() == spans1.skip(k),
        invariant
            forall|rec: &mut InfoRecorder<InfoReplay>| call_requires(*pred, (rec,)),
            old(seen)@.is_prefix_of(seen@),
            forall|j: int|
                old(seen)@.len() <= j < seen@.len() ==> rejected(*pred, #[trigger] seen@[j]@),
            forall|j: int| 0 <= j < seen@.len() ==> offered(*pred, #[trigger] seen@[j]@),
            intervals.seed()@ == best@,
            part1 == cuts(best@, spans1),
            part2 == cuts(best@, spans2),
            part1.len() == spans1.len(),
            part2.len() == spans2.len(),
            all == part1 + part2 + part3,
            all == shrink_candidates(*best),
            0 <= k <= spans1.len(),
            forall|i: int| 0 <= i < k ==> was_seen(seen@, #[trigger] part1[i]),
        ensures
            k == spans1.len(),
        decreases intervals.upcoming().len(),
    {
        let ghost before = intervals.upcoming();
        match intervals.next() {
            Some(c) => {
                let ghost mid = seen@;
                let ghost cb = c@;
                assert(before[0] == spans1[k]);
                assert(cb == part1[k]);
                if let Some(p) = first_accepted(seen, c, pred) {
                    proof {
                        assert(all[k] == part1[k]);
                        assert(all.contains(cb));
                        assert(seen@.last()@ == cb);
                        assert(shrink_candidates(*best).contains(cb));
                        assert forall|j: int|
                            old(seen)@.len() <= j < seen@.len() implies rejected(
                                *pred,
                                #[trigger] seen@[j]@,
                            ) || j == seen@.len() - 1 by {
                            if j < seen@.len() - 1 {
                                assert(seen@[j] == mid[j]);
                            }
                        }
                    }
                    return Some(p);
                }
                proof {
                    lemma_seen_grows(mid, seen@);
                    assert forall|j: int|
                        old(seen)@.len() <= j < seen@.len() implies rejected(
                            *pred,
                            #[trigger] seen@[j]@,
                        ) by {
                        if j < mid.len() {
                            assert(seen@[j] == mid[j]);
                        }
                    }
                    assert forall|j: int| 0 <= j < seen@.len() implies offered(
                        *pred,
                        #[trigger] seen@[j]@,
                    ) by {
                        if j < mid.len() {
                            assert(seen@[j] == mid[j]);
                        }
                    }
                    k = k + 1;
                    assert(spans1.skip(k - 1).drop_first() =~= spans1.skip(k));
                }
            },
            None => {
                assert(spans1.skip(k).len() == 0);
                break;
            },
        }
    }
    let mut cuts_left = RemovalShrinker::delta_debug_of_pool(best.clone());
    let ghost mut k2: int = 0;
    loop
        invariant_except_break
            cuts_left.ready(),
            cuts_left.upcoming() == spans2.skip(k2),
        invariant
            forall|rec: &mut InfoRecorder<InfoReplay>| call_requires(*pred, (rec,)),
            old(seen)@.is_prefix_of(seen@),
            forall|j: int|
                old(seen)@.len() <= j < seen@.len() ==> rejected(*pred, #[trigger] seen@[j]@),
            forall|j: int| 0 <= j < seen@.len() ==> offered(*pred, #[trigger] seen@[j]@),
            cuts_left.seed()@ == best@,
            part1 == cuts(best@, spans1),
            part2 == cuts(best@, spans2),
            part1.len() == spans1.len(),
            part2.len() == spans2.len(),
            all == part1 + part2 + part3,
            all == shrink_candidates(*best),
            0 <= k2 <= spans2.len(),
            forall|i: int| 0 <= i < part1.len() ==> was_seen(seen@, #[trigger] part1[i]),
            forall|i: int| 0 <= i < k2 ==> was_seen(seen@, #[trigger] part2[i]),
        ensures
            k2 == spans2.len(),
        decreases cuts_left.upcoming().len(),
    {
        let ghost before = cuts_left.upcoming();
        match cuts_left.next() {
            Some(c) => {
                let ghost mid = seen@;
                let ghost cb = c@;
                assert(before[0] == spans2[k2]);
                assert(cb == part2[k2]);
                if let Some(p) = first_accepted(seen, c, pred) {
                    proof {
                        assert(all[part1.len() + k2] == part2[k2]);
                        assert(all.contains(cb));
                        assert(seen@.last()@ == cb);
                        assert(shrink_candidates(*best).contains(cb));
                        assert forall|j: int|
                            old(seen)@.len() <= j < seen@.len() implies rejected(
                                *pred,
                                #[trigger] seen@[j]@,
                            ) || j == seen@.len() - 1 by {
                            if j < seen@.len() - 1 {
                                assert(seen@[j] == mid[j]);
                            }
                        }
                    }
                    return Some(p);
                }
                proof {
                    lemma_seen_grows(mid, seen@);
                    assert forall|j: int|
                        old(seen)@.len() <= j < seen@.len() implies rejected(
                            *pred,
                            #[trigger] seen@[j]@,
                        ) by {
                        if j < mid.len() {
                            assert(seen@[j] == mid[j]);
                        }
                    }
                    assert forall|j: int| 0 <= j < seen@.len() implies offered(
                        *pred,
                        #[trigger] seen@[j]@,
                    ) by {
                        if j < mid.len() {
                            assert(seen@[j] == mid[j]);
                        }
                    }
                    k2 = k2 + 1;
                    assert(spans2.skip(k2 - 1).drop_first() =~= spans2.skip(k2));
                }
            },
            None => {
                assert(spans2.skip(k2).len() == 0);
                break;
            },
        }
    }
    let mut scalars = ScalarShrinker::new(best.clone());
    let ghost mut k3: int = 0;
    loop
        invariant_except_break
            scalars.ready(),
            scalars.upcoming() == part3.skip(k3),
        invariant
            forall|rec: &mut InfoRecorder<InfoReplay>| call_requires(*pred, (rec,)),
            old(seen)@.is_prefix_of(seen@),
            forall|j: int|
                old(seen)@.len() <= j < seen@.len() ==> rejected(*pred, #[trigger] seen@[j]@),
            forall|j: int| 0 <= j < seen@.len() ==> offered(*pred, #[trigger] seen@[j]@),
            scalars.seed()@ == best@,
            part1 == cuts(best@, spans1),
            part2 == cuts(best@, spans2),
            part1.len() == spans1.len(),
            part2.len() == spans2.len(),
            all == part1 + part2 + part3,
            all == shrink_candidates(*best),
            0 <= k3 <= part3.len(),
            forall|i: int| 0 <= i < part1.len() ==> was_seen(seen@, #[trigger] part1[i]),
            forall|i: int| 0 <= i < part2.len() ==> was_seen(seen@, #[trigger] part2[i]),
            forall|i: int| 0 <= i < k3 ==> was_seen(seen@, #[trigger] part3[i]),
        ensures
            k3 == part3.len(),
        decreases scalars.upcoming().len(),
    {
        let ghost before = scalars.upcoming();
        match scalars.next() {
            Some(c) => {
                let ghost mid = seen@;
                let ghost cb = c@;
                assert(before[0] == part3[k3]);
                if let Some(p) = first_accepted(seen, c, pred) {
                    proof {
                        assert(all[part1.len() + part2.len() + k3] == part3[k3]);
                        assert(all.contains(cb));
                        assert(seen@.last()@ == cb);
                        assert(shrink_candidates(*best).contains(cb));
                        assert forall|j: int|
                            old(seen)@.len() <= j < seen@.len() implies rejected(
                                *pred,
                                #[trigger] seen@[j]@,
                            ) || j == seen@.len() - 1 by {
                            if j < seen@.len() - 1 {
                                assert(seen@[j] == mid[j]);
                            }
                        }
                    }
                    return Some(p);
                }
                proof {
                    lemma_seen_grows(mid, seen@);
                    assert forall|j: int|
                        old(seen)@.len() <= j < seen@.len() implies rejected(
                            *pred,
                            #[trigger] seen@[j]@,
                        ) by {
                        if j < mid.len() {
                            assert(seen@[j] == mid[j]);
                        }
                    }
                    assert forall|j: int| 0 <= j < seen@.len() implies offered(
                        *pred,
                        #[trigger] seen@[j]@,
                    ) by {
                        if j < mid.len() {
                            assert(seen@[j] == mid[j]);
                        }
                    }
                    k3 = k3 + 1;
                    assert(part3.skip(k3 - 1).drop_first() =~= part3.skip(k3));
                }
            },
            None => {
                assert(part3.skip(k3).len() == 0);
                break;
            },
        }
    }
    assert forall|i: int| 0 <= i < all.len() implies was_seen(seen@, #[trigger] all[i]) by {
        if i < part1.len() {
            assert(all[i] == part1[i]);
        } else if i < part1.len() + part2.len() {
            assert(all[i] == part2[i - part1.len()]);
        } else {
            assert(all[i] == part3[i - part1.len() - part2.len()]);
        }
    }
    None
}

/// Try to find the smallest pool `p` such that the predicate `pred` returns
/// true. Given that our generators tend to generate smaller outputs from
/// smaller inputs, by minimizing the source pool we can find the smallest
/// value that provokes a failure.
///
/// Each round offers `pred` the shrink candidates of the best pool so far,
/// each as a recorder replaying it: first the pool with one recorded region
/// cut out (most recently closed first), then with delta debugging cuts
/// (the whole, each half, each quarter, and so on), then with one byte
/// reduced (to zero, then by a half, by a quarter, and so on). A candidate
/// offered before is skipped. What `pred` drew from the first candidate it
/// accepts becomes the best pool; when it accepts none, the best pool is
/// returned.
///
/// So the pool returned is the original, or what `pred` recorded from a
/// shrink candidate that it accepted, at the end of a run of such shrinks.
/// `pred` has been offered every shrink candidate of it, and rejected each
/// one, but for those it accepted earlier in the run (which are skipped
/// when offered again).
pub fn minimize<F: Fn(&mut InfoRecorder<InfoReplay>) -> bool>(orig: &InfoPool, pred: &F) -> (r:
    InfoPool)
    requires
        forall|rec: &mut InfoRecorder<InfoReplay>| call_requires(*pred, (rec,)),
    ensures
        (r@ == orig@ && r.span_list() == orig.span_list()) || exists|
            rec: &mut InfoRecorder<InfoReplay>,
            c: Seq<u8>,
        |
            #![trigger call_ensures(*pred, (rec,), true), starts_on(*rec, c)]
            call_ensures(*pred, (rec,), true) && starts_on(*rec, c) && r@ == final(rec).recorded()
                && r.span_list() == final(rec).recorded_spans(),
        forall|i: int|
            0 <= i < shrink_candidates(r).len() ==> offered(
                *pred,
                #[trigger] shrink_candidates(r)[i],
            ),
        exists|hist: Seq<Seq<u8>>, pools: Seq<InfoPool>|
            #![trigger shrink_path(*orig, hist, pools, r)]
            {
                &&& shrink_path(*orig, hist, pools, r)
                &&& forall|st: (Seq<u8>, InfoPool)|
                    #[trigger] shrink_steps(hist, pools).contains(st) ==> exists|
                        rec: &mut InfoRecorder<InfoReplay>,
                    |
                        #[trigger] call_ensures(*pred, (rec,), true) && starts_on(*rec, st.0)
                            && st.1@ == final(rec).recorded()
                            && st.1.span_list() == final(rec).recorded_spans()
                &&& forall|i: int|
                    0 <= i < shrink_candidates(r).len() ==> rejected(
                        *pred,
                        #[trigger] shrink_candidates(r)[i],
                    ) || hist.contains(shrink_candidates(r)[i])
            },
{
    let mut best = orig.clone();
    let mut seen: Vec<InfoPool> = Vec::new();
    let ghost mut hist: Seq<Seq<u8>> = Seq::empty();
    let ghost mut pools: Seq<InfoPool> = Seq::empty();
    loop
        invariant
            forall|rec: &mut InfoRecorder<InfoReplay>| call_requires(*pred, (rec,)),
            forall|j: int| 0 <= j < seen@.len() ==> offered(*pred, #[trigger] seen@[j]@),
            shrink_path(*orig, hist, pools, best),
            forall|st: (Seq<u8>, InfoPool)|
                #[trigger] shrink_steps(hist, pools).contains(st) ==> exists|
                    rec: &mut InfoRecorder<InfoReplay>,
                |
                    #[trigger] call_ensures(*pred, (rec,), true) && starts_on(*rec, st.0)
                        && st.1@ == final(rec).recorded()
                        && st.1.span_list() == final(rec).recorded_spans(),
            forall|j: int|
                0 <= j < seen@.len() ==> rejected(*pred, #[trigger] seen@[j]@) || hist.contains(
                    seen@[j]@,
                ),
        ensures
            forall|i: int|
                0 <= i < shrink_candidates(best).len() ==> offered(
                    *pred,
                    #[trigger] shrink_candidates(best)[i],
                ),
            forall|i: int|
                0 <= i < shrink_candidates(best).len() ==> rejected(
                    *pred,
                    #[trigger] shrink_candidates(best)[i],
                ) || hist.contains(shrink_candidates(best)[i]),
        decreases usize::MAX - seen@.len(),
    {
        let ghost seen_before = seen@;
        let found = shrink_once(&best, &mut seen, pred);
        let _seen_len = seen.len();
        match found {
            Some(p) => {
                proof {
                    let c = seen@.last()@;
                    lemma_path_extends(*orig, hist, pools, best, c, p);
                    lemma_seen_extends(*pred, hist, seen_before, seen@, c);
                    let w = choose|rec: &mut InfoRecorder<InfoReplay>|
                        #[trigger] call_ensures(*pred, (rec,), true) && starts_on(*rec, c)
                            && p@ == final(rec).recorded()
                            && p.span_list() == final(rec).recorded_spans();
                    assert(call_ensures(*pred, (w,), true) && starts_on(*w, c));
                    let hist2 = hist.push(c);
                    let pools2 = pools.push(p);
                    assert(shrink_steps(hist2, pools2) =~= shrink_steps(hist, pools).push((c, p)));
                    assert forall|st: (Seq<u8>, InfoPool)|
                        #[trigger] shrink_steps(hist2, pools2).contains(st) implies exists|
                        rec: &mut InfoRecorder<InfoReplay>,
                    |
                        #[trigger] call_ensures(*pred, (rec,), true) && starts_on(*rec, st.0)
                            && st.1@ == final(rec).recorded()
                            && st.1.span_list() == final(rec).recorded_spans() by {
                        if st != (c, p) {
                            let j = choose|j: int|
                                0 <= j < shrink_steps(hist2, pools2).len()
                                    && shrink_steps(hist2, pools2)[j] == st;
                            assert(shrink_steps(hist, pools)[j] == st);
                            assert(shrink_steps(hist, pools).contains(st));
                        } else {
                            assert(call_ensures(*pred, (w,), true) && starts_on(*w, st.0));
                        }
                    }
                    hist = hist2;
                    pools = pools2;
                }
                best = p;
            },
            None => {
                proof {
                    lemma_seen_keeps(*pred, hist, seen_before, seen@);
                    lemma_all_seen(*pred, hist, seen@, shrink_candidates(best));
                }
                break;
            },
        }
    }
    proof {
        assert(shrink_path(*orig, hist, pools, best));
        if hist.len() > 0 {
            let k = hist.len() - 1;
            assert(pools[k] == best);
            let st = (hist[k], pools[k]);
            assert(shrink_steps(hist, pools)[k] == st);
            assert(shrink_steps(hist, pools).contains(st));
            let w = choose|rec: &mut InfoRecorder<InfoReplay>|
                #[trigger] call_ensures(*pred, (rec,), true) && starts_on(*rec, st.0)
                    && st.1@ == final(rec).recorded()
                    && st.1.span_list() == final(rec).recorded_spans();
            assert(call_ensures(*pred, (w,), true) && starts_on(*w, hist[k]));
        }
    }
    best
}

/// A run of shrinks to `best`, followed by a shrink candidate `c` of `best`
/// recorded as `p`, is a run of shrinks to `p`.
proof fn lemma_path_extends(
    orig: InfoPool,
    hist: Seq<Seq<u8>>,
    pools: Seq<InfoPool>,
    best: InfoPool,
    c: Seq<u8>,
    p: InfoPool,
)
    requires
        shrink_path(orig, hist, pools, best),
        shrink_candidates(best).contains(c),
    ensures
        shrink_path(orig, hist.push(c), pools.push(p), p),
{
    if hist.len() == 0 {
        assert(shrink_candidates(best) == shrink_candidates(orig));
    }
    let hist2 = hist.push(c);
    let pools2 = pools.push(p);
    assert forall|k: int| 0 < k < hist2.len() implies shrink_candidates(pools2[k - 1]).contains(
        #[trigger] hist2[k],
    ) by {
        if k < hist.len() {
            assert(hist2[k] == hist[k]);
            assert(pools2[k - 1] == pools[k - 1]);
        } else {
            assert(pools2[k - 1] == best);
        }
    }
}

/// After a round that accepted the candidate `c`, the last one seen, each
/// pool seen was rejected or is one of the accepted candidates.
proof fn lemma_seen_extends<F: Fn(&mut InfoRecorder<InfoReplay>) -> bool>(
    pred: F,
    hist: Seq<Seq<u8>>,
    before: Seq<InfoPool>,
    after: Seq<InfoPool>,
    c: Seq<u8>,
)
    requires
        before.is_prefix_of(after),
        after.len() > before.len(),
        after.last()@ == c,
        forall|j: int|
            0 <= j < before.len() ==> rejected(pred, #[trigger] before[j]@) || hist.contains(
                before[j]@,
            ),
        forall|j: int|
            before.len() <= j < after.len() ==> rejected(pred, #[trigger] after[j]@) || j
                == after.len() - 1,
    ensures
        forall|j: int|
            0 <= j < after.len() ==> rejected(pred, #[trigger] after[j]@) || hist.push(
                c,
            ).contains(after[j]@),
{
    let hist2 = hist.push(c);
    assert forall|j: int| 0 <= j < after.len() implies rejected(pred, #[trigger] after[j]@)
        || hist2.contains(after[j]@) by {
        if j < before.len() {
            assert(after[j] == before[j]);
            if hist.contains(after[j]@) {
                let m = choose|m: int| 0 <= m < hist.len() && hist[m] == after[j]@;
                assert(hist2[m] == hist[m]);
            }
        } else if j == after.len() - 1 {
            assert(hist2[hist.len() as int] == c);
        }
    }
}

/// After a round that accepted nothing, each pool seen was rejected or is
/// one of the accepted candidates.
proof fn lemma_seen_keeps<F: Fn(&mut InfoRecorder<InfoReplay>) -> bool>(
    pred: F,
    hist: Seq<Seq<u8>>,
    before: Seq<InfoPool>,
    after: Seq<InfoPool>,
)
    requires
        before.is_prefix_of(after),
        forall|j: int|
            0 <= j < before.len() ==> rejected(pred, #[trigger] before[j]@) || hist.contains(
                before[j]@,
            ),
        forall|j: int| before.len() <= j < after.len() ==> rejected(pred, #[trigger] after[j]@),
    ensures
        forall|j: int|
            0 <= j < after.len() ==> rejected(pred, #[trigger] after[j]@) || hist.contains(
                after[j]@,
            ),
{
    assert forall|j: int| 0 <= j < after.len() implies rejected(pred, #[trigger] after[j]@)
        || hist.contains(after[j]@) by {
        if j < before.len() {
            assert(after[j] == before[j]);
        }
    }
}

/// When each of `all` was seen, and each pool seen was offered, and was
/// rejected or accepted earlier, so was each of `all`.
proof fn lemma_all_seen<F: Fn(&mut InfoRecorder<InfoReplay>) -> bool>(
    pred: F,
    hist: Seq<Seq<u8>>,
    seen: Seq<InfoPool>,
    all: Seq<Seq<u8>>,
)
    requires
        forall|i: int| 0 <= i < all.len() ==> was_seen(seen, #[trigger] all[i]),
        forall|j: int| 0 <= j < seen.len() ==> offered(pred, #[trigger] seen[j]@),
        forall|j: int|
            0 <= j < seen.len() ==> rejected(pred, #[trigger] seen[j]@) || hist.contains(
                seen[j]@,
            ),
    ensures
        forall|i: int| 0 <= i < all.len() ==> offered(pred, #[trigger] all[i]),
        forall|i: int|
            0 <= i < all.len() ==> rejected(pred, #[trigger] all[i]) || hist.contains(all[i]),
{
    assert forall|i: int| 0 <= i < all.len() implies offered(pred, #[trigger] all[i]) && (rejected(
        pred,
        all[i],
    ) || hist.contains(all[i])) by {
        assert(was_seen(seen, all[i]));
        let j = choose|j: int| 0 <= j < seen.len() && #[trigger] seen[j]@ == all[i];
        assert(offered(pred, seen[j]@));
        assert(rejected(pred, seen[j]@) || hist.contains(seen[j]@));
    }
}

/// Whether `c` is `s` with exactly one byte made smaller.
pub open spec fn one_byte_smaller(c: Seq<u8>, s: Seq<u8>) -> bool {
    exists|k: int| 0 <= k < s.len() && #[trigger] c[k] < s[k] && c == s.update(k, c[k])
}

/// What each candidate of `scalar_shrinks(s, pos, bitoff)` is: the bytes
/// `s` with the byte at some `p` shrunk by some shift `b` below its bit
/// length, where `p` is `pos` or later, and `b` is `bitoff` or more at `pos`.
spec fn scalar_shape(s: Seq<u8>, pos: nat, bitoff: nat, c: Seq<u8>) -> bool {
    exists|p: int, b: nat|
        pos <= p < s.len() && b < 8 && b < bit_length(s[p] as nat) && (p == pos ==> b >= bitoff)
            && #[trigger] shrunk_byte(s[p], b) < s[p] && c == s.update(p, shrunk_byte(s[p], b))
}

/// A byte shrunk by a shift below its bit length is smaller.
proof fn lemma_shrunk_smaller(v: u8, b: nat)
    requires
        b < bit_length(v as nat),
    ensures
        shrunk_byte(v, b) < v,
        pow2(b) <= v,
{
    lemma_pow2_pos(b);
    if v < pow2(b) {
        lemma_bit_length_le(v as nat, b);
    }
    assert(v as nat / pow2(b) >= 1) by (nonlinear_arith)
        requires
            pow2(b) <= v,
            pow2(b) > 0,
    ;
    assert(v as nat / pow2(b) <= v) by (nonlinear_arith)
        requires
            pow2(b) >= 1,
    ;
}

/// Shrinking a byte by a larger shift, still below its bit length, takes
/// less off.
proof fn lemma_shrunk_increasing(v: u8, b1: nat, b2: nat)
    requires
        b1 < b2 < bit_length(v as nat),
    ensures
        shrunk_byte(v, b1) < shrunk_byte(v, b2),
{
    lemma_shrunk_smaller(v, b1);
    lemma_shrunk_smaller(v, b2);
    let d = (b2 - b1) as nat;
    lemma_pow2_adds(b1, d);
    lemma_pow2_pos(b1);
    lemma_pow2_pos(d);
    assert(b1 + d == b2);
    let q = v as nat / pow2(b1);
    lemma_div_denominator(v as int, pow2(b1) as int, pow2(d) as int);
    lemma_pow2_strictly_increases(0, d);
    lemma2_to64();
    lemma_div_is_strictly_smaller(q as int, pow2(d) as int);
    assert(v as nat / pow2(b2) < q);
}

/// Every candidate of `scalar_shrinks(s, pos, bitoff)` has the shape
/// `scalar_shape` gives, and no two of them are the same.
proof fn lemma_scalar_shrinks_shape(s: Seq<u8>, pos: nat, bitoff: nat)
    ensures
        forall|i: int|
            0 <= i < scalar_shrinks(s, pos, bitoff).len() ==> scalar_shape(
                s,
                pos,
                bitoff,
                #[trigger] scalar_shrinks(s, pos, bitoff)[i],
            ),
        forall|i: int, j: int|
            0 <= i < j < scalar_shrinks(s, pos, bitoff).len() ==> #[trigger] scalar_shrinks(
                s,
                pos,
                bitoff,
            )[i] != #[trigger] scalar_shrinks(s, pos, bitoff)[j],
    decreases s.len() - pos, 8 - bitoff,
{
    let ss = scalar_shrinks(s, pos, bitoff);
    if pos >= s.len() {
    } else if bitoff >= bit_length(s[pos as int] as nat) || bitoff >= 8 {
        lemma_scalar_shrinks_shape(s, pos + 1, 0);
        assert(ss == scalar_shrinks(s, pos + 1, 0));
        assert forall|i: int| 0 <= i < ss.len() implies scalar_shape(s, pos, bitoff, #[trigger] ss[i]) by {
            let c = ss[i];
            assert(c == scalar_shrinks(s, pos + 1, 0)[i]);
            assert(scalar_shape(s, pos + 1, 0, c));
            let (p, b) = choose|p: int, b: nat|
                pos + 1 <= p < s.len() && b < 8 && b < bit_length(s[p] as nat) && (p == pos + 1
                    ==> b >= 0) && #[trigger] shrunk_byte(s[p], b) < s[p] && c == s.update(
                    p,
                    shrunk_byte(s[p], b),
                );
            assert(shrunk_byte(s[p], b) < s[p]);
        }
    } else if shrunk_byte(s[pos as int], bitoff) == s[pos as int] {
        lemma_shrunk_smaller(s[pos as int], bitoff);
    } else {
        let v = s[pos as int];
        let h = s.update(pos as int, shrunk_byte(v, bitoff));
        let rest = scalar_shrinks(s, pos, bitoff + 1);
        lemma_scalar_shrinks_shape(s, pos, bitoff + 1);
        lemma_shrunk_smaller(v, bitoff);
        assert(ss == seq![h] + rest);
        assert forall|i: int| 0 <= i < ss.len() implies scalar_shape(s, pos, bitoff, #[trigger] ss[i]) by {
            if i == 0 {
                assert(shrunk_byte(s[pos as int], bitoff) < s[pos as int]);
            } else {
                let c = rest[i - 1];
                assert(scalar_shape(s, pos, bitoff + 1, c));
                let (p, b) = choose|p: int, b: nat|
                    pos <= p < s.len() && b < 8 && b < bit_length(s[p] as nat) && (p == pos ==> b
                        >= bitoff + 1) && #[trigger] shrunk_byte(s[p], b) < s[p] && c == s.update(
                        p,
                        shrunk_byte(s[p], b),
                    );
                assert(shrunk_byte(s[p], b) < s[p]);
            }
        }
        assert forall|i: int, j: int| 0 <= i < j < ss.len() implies #[trigger] ss[i] != #[trigger] ss[j] by {
            if i > 0 {
                assert(rest[i - 1] != rest[j - 1]);
            } else {
                let c = rest[j - 1];
                assert(scalar_shape(s, pos, bitoff + 1, c));
                let (p, b) = choose|p: int, b: nat|
                    pos <= p < s.len() && b < 8 && b < bit_length(s[p] as nat) && (p == pos ==> b
                        >= bitoff + 1) && #[trigger] shrunk_byte(s[p], b) < s[p] && c == s.update(
                        p,
                        shrunk_byte(s[p], b),
                    );
                if p == pos {
                    lemma_shrunk_increasing(v, bitoff, b);
                    assert(h[pos as int] != c[pos as int]);
                } else {
                    assert(h[pos as int] != c[pos as int]);
                }
            }
        }
    }
}

/// Each candidate that scalar shrinking makes is the pool with exactly one
/// byte made smaller, and no candidate is made twice.
pub proof fn law_scalar_shrinks_smaller_and_distinct(s: Seq<u8>)
    ensures
        forall|i: int|
            0 <= i < scalar_shrinks(s, 0, 0).len() ==> one_byte_smaller(
                #[trigger] scalar_shrinks(s, 0, 0)[i],
                s,
            ),
        forall|i: int, j: int|
            0 <= i < j < scalar_shrinks(s, 0, 0).len() ==> #[trigger] scalar_shrinks(s, 0, 0)[i]
                != #[trigger] scalar_shrinks(s, 0, 0)[j],
{
    lemma_scalar_shrinks_shape(s, 0, 0);
    let ss = scalar_shrinks(s, 0, 0);
    assert forall|i: int| 0 <= i < ss.len() implies one_byte_smaller(#[trigger] ss[i], s) by {
        let c = ss[i];
        assert(scalar_shape(s, 0, 0, c));
        let (p, b) = choose|p: int, b: nat|
            0 <= p < s.len() && b < 8 && b < bit_length(s[p] as nat) && (p == 0 ==> b >= 0)
                && #[trigger] shrunk_byte(s[p], b) < s[p] && c == s.update(p, shrunk_byte(s[p], b));
        assert(c[p] == shrunk_byte(s[p], b));
        assert(c[p] < s[p]);
    }
}

} // verus!
