use rand_xorshift::XorShiftRng;
use vstd::prelude::*;

verus! {

/// The first `n` bytes of the endless stream that plays `s` and then zeros.
pub open spec fn padded(s: Seq<u8>, n: nat) -> Seq<u8> {
    Seq::new(n, |i: int| if i < s.len() { s[i] } else { 0u8 })
}

/// The bytes that were appended to `before` to give `after`.
pub open spec fn drawn_since(before: Seq<u8>, after: Seq<u8>) -> Seq<u8> {
    after.skip(before.len() as int)
}

/// Bytes drawn in two steps are the bytes of the first step followed by
/// those of the second.
pub proof fn lemma_drawn_since_concat(a: Seq<u8>, b: Seq<u8>, c: Seq<u8>)
    requires
        a.is_prefix_of(b),
        b.is_prefix_of(c),
    ensures
        a.is_prefix_of(c),
        drawn_since(a, c) == drawn_since(a, b) + drawn_since(b, c),
        drawn_since(a, c).take(b.len() - a.len()) == drawn_since(a, b),
        drawn_since(a, c).skip(b.len() - a.len()) == drawn_since(b, c),
{
    assert(drawn_since(a, c) =~= drawn_since(a, b) + drawn_since(b, c));
    assert(drawn_since(a, c).take(b.len() - a.len()) =~= drawn_since(a, b));
    assert(drawn_since(a, c).skip(b.len() - a.len()) =~= drawn_since(b, c));
}

/// Something that can act as a source of test data.
///
/// A source hands out bytes one at a time. It may also be told where the
/// draws of one generator begin and end (`open_region` / `close_region`), so
/// that a recording source can remember the structure of what was drawn.
pub trait InfoSource {
    /// Every byte drawn from this source so far, in order.
    spec fn drawn(&self) -> Seq<u8>;

    /// The bytes that the source plays back, for a source that replays a
    /// fixed buffer; drawing never changes it.
    spec fn origin(&self) -> Seq<u8>;

    /// Whether this source records the regions drawn in: its log of closed
    /// regions and its stack of open ones follow the rules below. A source
    /// that does not record them says nothing of either.
    open spec fn keeps_regions(&self) -> bool {
        false
    }

    /// The regions closed so far, in the order they were closed.
    open spec fn region_log(&self) -> Seq<Span> {
        Seq::empty()
    }

    /// The offsets at which the regions still open began, outermost first.
    open spec fn region_stack(&self) -> Seq<usize> {
        Seq::empty()
    }

    /// Take a single byte from the source.
    fn draw_u8(&mut self) -> (b: u8)
        ensures
            (*final(self)).drawn() == old(self).drawn().push(b),
            (*final(self)).origin() == old(self).origin(),
            (*final(self)).keeps_regions() == old(self).keeps_regions(),
            old(self).keeps_regions() ==> (*final(self)).region_log() == old(self).region_log()
                && (*final(self)).region_stack() == old(self).region_stack(),
    ;

    /// Marks the start of a region of draws that belong together.
    fn open_region(&mut self)
        ensures
            (*final(self)).drawn() == old(self).drawn(),
            (*final(self)).origin() == old(self).origin(),
            (*final(self)).keeps_regions() == old(self).keeps_regions(),
            old(self).keeps_regions() ==> {
                &&& (*final(self)).region_log() == old(self).region_log()
                &&& (*final(self)).region_stack() == old(self).region_stack().push(
                    old(self).drawn().len() as usize,
                )
                &&& (*final(self)).region_stack().len() <= usize::MAX
            },
    ;

    /// Marks the end of the innermost region that is still open.
    fn close_region(&mut self)
        ensures
            (*final(self)).drawn() == old(self).drawn(),
            (*final(self)).origin() == old(self).origin(),
            (*final(self)).keeps_regions() == old(self).keeps_regions(),
            old(self).keeps_regions() && old(self).region_stack().len() == 0 ==> {
                &&& (*final(self)).region_log() == old(self).region_log()
                &&& (*final(self)).region_stack() == old(self).region_stack()
            },
            old(self).keeps_regions() && old(self).region_stack().len() > 0 ==> {
                &&& (*final(self)).region_stack() == old(self).region_stack().drop_last()
                &&& (*final(self)).region_log() == old(self).region_log().push(
                    Span {
                        start: old(self).region_stack().last(),
                        end: old(self).drawn().len() as usize,
                        level: (old(self).region_stack().len() - 1) as usize,
                    },
                )
            },
    ;
}

/// Whether a source that records regions went from `before` to `after`
/// with its open regions as they were, closing no region it found open,
/// and losing no closed region.
pub open spec fn regions_kept<I: InfoSource>(before: I, after: I) -> bool {
    before.keeps_regions() ==> {
        &&& after.keeps_regions()
        &&& after.region_stack() == before.region_stack()
        &&& log_extends(before.region_log(), after.region_log(), before.region_stack().len())
    }
}

/// Whether the log of closed regions `after` is the log `before` followed
/// by regions closed at depth `depth` or deeper.
pub open spec fn log_extends(before: Seq<Span>, after: Seq<Span>, depth: nat) -> bool {
    &&& before.len() <= after.len()
    &&& forall|i: int| #![trigger after[i]] 0 <= i < before.len() ==> after[i] == before[i]
    &&& forall|i: int| #![trigger after[i]] before.len() <= i < after.len() ==> after[i].level >= depth
}

/// A log extended twice at the same depth is extended at that depth.
pub proof fn lemma_log_extends_trans(a: Seq<Span>, b: Seq<Span>, c: Seq<Span>, depth: nat)
    requires
        log_extends(a, b, depth),
        log_extends(b, c, depth),
    ensures
        log_extends(a, c, depth),
{
    assert forall|i: int| 0 <= i < a.len() implies #[trigger] c[i] == a[i] by {
        assert(c[i] == b[i]);
    }
    assert forall|i: int| a.len() <= i < c.len() implies #[trigger] c[i].level >= depth by {
        if i < b.len() {
            assert(c[i] == b[i]);
        }
    }
}

/// How many of the regions in `log` were closed at depth `depth`.
pub open spec fn count_at(log: Seq<Span>, depth: nat) -> nat
    decreases log.len(),
{
    if log.len() == 0 {
        0
    } else {
        count_at(log.drop_last(), depth) + if log.last().level == depth {
            1nat
        } else {
            0nat
        }
    }
}

/// Counting over two logs, one after the other, adds up.
pub proof fn lemma_count_at_concat(a: Seq<Span>, b: Seq<Span>, depth: nat)
    ensures
        count_at(a + b, depth) == count_at(a, depth) + count_at(b, depth),
    decreases b.len(),
{
    if b.len() == 0 {
        assert(a + b =~= a);
    } else {
        lemma_count_at_concat(a, b.drop_last(), depth);
        assert((a + b).drop_last() =~= a + b.drop_last());
    }
}

/// No region of a log closed deeper than `depth` is counted at `depth`.
pub proof fn lemma_count_at_deeper(log: Seq<Span>, depth: nat)
    requires
        forall|i: int| 0 <= i < log.len() ==> #[trigger] log[i].level > depth,
    ensures
        count_at(log, depth) == 0,
    decreases log.len(),
{
    if log.len() > 0 {
        lemma_count_at_deeper(log.drop_last(), depth);
    }
}

/// What one draw by a balanced sink adds to the log of a source that
/// records regions holds one region at the depth of the draw.
pub proof fn lemma_draw_adds_one(before: Seq<Span>, after: Seq<Span>, depth: nat)
    requires
        after.len() > before.len(),
        log_extends(before, after.drop_last(), depth + 1),
        after.last().level == depth,
    ensures
        count_at(after.skip(before.len() as int), depth) == 1,
        log_extends(before, after, depth),
{
    let nested = after.drop_last().skip(before.len() as int);
    assert forall|i: int| 0 <= i < nested.len() implies #[trigger] nested[i].level > depth by {
        assert(nested[i] == after.drop_last()[before.len() + i]);
    }
    lemma_count_at_deeper(nested, depth);
    assert(after.skip(before.len() as int) =~= nested.push(after.last()));
    assert(nested.push(after.last()).drop_last() =~= nested);
    assert forall|i: int| 0 <= i < before.len() implies #[trigger] after[i] == before[i] by {
        assert(after[i] == after.drop_last()[i]);
    }
    assert forall|i: int| before.len() <= i < after.len() implies #[trigger] after[i].level >= depth by {
        if i < after.len() - 1 {
            assert(after[i] == after.drop_last()[i]);
        }
    }
}

/// Counting what was added over two steps adds up.
pub proof fn lemma_count_added(a: Seq<Span>, b: Seq<Span>, c: Seq<Span>, depth: nat, d2: nat)
    requires
        log_extends(a, b, depth),
        log_extends(b, c, d2),
    ensures
        count_at(c.skip(a.len() as int), depth) == count_at(b.skip(a.len() as int), depth)
            + count_at(c.skip(b.len() as int), depth),
{
    assert(c.skip(a.len() as int) =~= b.skip(a.len() as int) + c.skip(b.len() as int)) by {
        assert forall|i: int| 0 <= i < c.len() - a.len() implies #[trigger] c.skip(
            a.len() as int,
        )[i] == (b.skip(a.len() as int) + c.skip(b.len() as int))[i] by {
            if a.len() + i < b.len() {
                assert(c[a.len() + i] == b[a.len() + i]);
            }
        }
    }
    lemma_count_at_concat(b.skip(a.len() as int), c.skip(b.len() as int), depth);
}

/// Something that can extract information from an `InfoSource`.
pub trait InfoSink {
    /// The output data.
    type Out;

    /// Whether the sink can be run.
    spec fn ready(&self) -> bool;

    /// Whether drawing exactly the bytes `d` may give `out`.
    spec fn sinks(&self, d: Seq<u8>, out: Self::Out) -> bool;

    /// Whether the sink leaves the regions of a source that records them as
    /// it found them: it closes each region it opens, and closes no other.
    open spec fn balanced(&self) -> bool {
        false
    }

    /// Draws what it needs from `i`. Called by [`Draw::draw`].
    fn sink<I: InfoSource>(&mut self, i: &mut I) -> (out: Self::Out)
        requires
            old(self).ready(),
        ensures
            old(i).drawn().is_prefix_of((*final(i)).drawn()),
            (*final(i)).origin() == old(i).origin(),
            old(self).sinks(drawn_since(old(i).drawn(), (*final(i)).drawn()), out),
            old(self).balanced() ==> regions_kept(*old(i), *final(i)),
    ;
}

/// Lets a sink draw from a source, as one region of the source.
pub trait Draw: InfoSource + Sized {
    /// Calls `sink` with access to this source, inside a region of its own.
    /// A source that records regions, drawn from by a balanced sink (a
    /// generator is one), closes that region last: from where the draw
    /// began to where it ended, at the depth of the regions open before it.
    fn draw<S: InfoSink>(&mut self, sink: S) -> (out: S::Out)
        requires
            sink.ready(),
        ensures
            old(self).drawn().is_prefix_of((*final(self)).drawn()),
            (*final(self)).origin() == old(self).origin(),
            sink.sinks(drawn_since(old(self).drawn(), (*final(self)).drawn()), out),
            sink.balanced() ==> regions_kept(*old(self), *final(self)),
            old(self).keeps_regions() && sink.balanced() ==> {
                &&& (*final(self)).keeps_regions()
                &&& (*final(self)).region_stack() == old(self).region_stack()
                &&& (*final(self)).region_log().len() > old(self).region_log().len()
                &&& log_extends(
                    old(self).region_log(),
                    (*final(self)).region_log().drop_last(),
                    old(self).region_stack().len() + 1,
                )
                &&& (*final(self)).region_log().last() == (Span {
                    start: old(self).drawn().len() as usize,
                    end: (*final(self)).drawn().len() as usize,
                    level: old(self).region_stack().len() as usize,
                })
            },
    ;
}

impl<I: InfoSource> Draw for I {
    fn draw<S: InfoSink>(&mut self, sink: S) -> (out: S::Out) {
        let mut sink = sink;
        self.open_region();
        let ghost opened = self.region_stack();
        let ghost balanced = sink.balanced();
        let out = sink.sink(self);
        proof {
            if old(self).keeps_regions() && balanced {
                assert(self.region_stack() == opened);
                assert(opened.drop_last() =~= old(self).region_stack());
            }
        }
        let ghost mid = self.region_log();
        self.close_region();
        proof {
            if old(self).keeps_regions() && balanced {
                let fin = self.region_log();
                assert(fin.drop_last() =~= mid);
                let d = old(self).region_stack().len();
                assert forall|i: int| 0 <= i < old(self).region_log().len() implies #[trigger] fin[i]
                    == old(self).region_log()[i] by {
                    assert(fin[i] == mid[i]);
                }
                assert forall|i: int| old(self).region_log().len() <= i < fin.len() implies #[trigger] fin[i].level
                    >= d by {
                    if i < fin.len() - 1 {
                        assert(fin[i] == mid[i]);
                    } else {
                        assert(opened.len() == d + 1);
                        assert(fin[i].level == d);
                    }
                }
            }
        }
        out
    }
}

/// The reasons why drawing data from a pool can fail.
#[derive(Debug, Clone, Eq, PartialEq, Structural)]
pub enum DataError {
    /// Not enough data to generate a value
    PoolExhausted,
    /// One of our combinators said that we should not test this value.
    SkipItem,
}

/// A region of recorded data: the bytes `start..end`, drawn at nesting
/// depth `level`.
#[derive(Debug, Ord, PartialOrd, Eq, PartialEq, Hash, Copy, Clone, Default, Structural)]
pub struct Span {
    /// Offset of the first byte of the region.
    pub start: usize,
    /// Offset one past the last byte of the region.
    pub end: usize,
    /// How many regions enclosed this one when it was drawn.
    pub level: usize,
}

/// Whether `s` denotes a range of a buffer of `len` bytes.
pub open spec fn span_fits(s: Span, len: nat) -> bool {
    s.start <= s.end && s.end <= len
}

/// Whether every span of `spans` fits a buffer of `len` bytes.
pub open spec fn spans_fit(spans: Seq<Span>, len: nat) -> bool {
    forall|i: int| 0 <= i < spans.len() ==> span_fits(#[trigger] spans[i], len)
}

impl Span {
    /// The bounds of this span as a pair.
    pub fn as_pair(&self) -> (r: (usize, usize))
        ensures
            r == (self.start, self.end),
    {
        (self.start, self.end)
    }

    /// A span of the given bounds, at level zero.
    pub fn of_pair(pair: (usize, usize)) -> (r: Self)
        ensures
            r == (Span { start: pair.0, end: pair.1, level: 0 }),
    {
        let (start, end) = pair;
        Span { start, end, level: 0 }
    }

    /// The bounds of this span as a range.
    pub fn range(&self) -> (r: std::ops::Range<usize>)
        ensures
            r.start == self.start,
            r.end == self.end,
    {
        self.start..self.end
    }
}

#[verifier::external_type_specification]
#[verifier::external_body]
pub struct ExXorShiftRng(XorShiftRng);

/// The byte that `Rng::gen::<u8>` gives for a xorshift generator in `state`,
/// with the state the generator is left in.
pub uninterp spec fn xorshift_gen_u8(state: XorShiftRng) -> (u8, XorShiftRng);

/// The generator that `XorShiftRng::from_seed` makes from `seed`.
pub uninterp spec fn xorshift_from_seed(seed: Seq<u8>) -> XorShiftRng;

/// Calls `rand::random::<u8>`: a byte from the thread-local generator, so
/// nothing is claimed of its value.
#[verifier::external_body]
fn random_byte() -> u8 {
    rand::random::<u8>()
}

/// Calls `<XorShiftRng as SeedableRng>::from_seed`. The generator is a
/// function of the seed alone, named `xorshift_from_seed`.
#[verifier::external_body]
fn seeded_xorshift(seed: [u8; 16]) -> (r: XorShiftRng)
    ensures
        r == xorshift_from_seed(seed@),
{
    <XorShiftRng as rand::SeedableRng>::from_seed(seed)
}

/// Calls `Rng::gen::<u8>` on a xorshift generator. Byte and next state are
/// a function of the generator's state alone, named `xorshift_gen_u8`.
#[verifier::external_body]
fn xorshift_next_u8(rng: &mut XorShiftRng) -> (b: u8)
    ensures
        (b, *final(rng)) == xorshift_gen_u8(*old(rng)),
{
    rand::Rng::gen::<u8>(rng)
}

/// The number that `Rng::gen::<u64>` gives for a xorshift generator in
/// `state`, with the state the generator is left in.
pub uninterp spec fn xorshift_gen_u64(state: XorShiftRng) -> (u64, XorShiftRng);

/// Calls `Rng::gen::<u64>` on a xorshift generator. Number and next state
/// are a function of the generator's state alone, named `xorshift_gen_u64`.
#[verifier::external_body]
fn xorshift_next_u64(rng: &mut XorShiftRng) -> (v: u64)
    ensures
        (v, *final(rng)) == xorshift_gen_u64(*old(rng)),
{
    rand::Rng::gen::<u64>(rng)
}

/// The top bytes of the first `n` numbers that a xorshift generator in
/// `state` gives, with the state it is left in.
pub open spec fn xorshift_top_bytes(state: XorShiftRng, n: nat) -> (Seq<u8>, XorShiftRng)
    decreases n,
{
    if n == 0 {
        (Seq::empty(), state)
    } else {
        let (prev, st) = xorshift_top_bytes(state, (n - 1) as nat);
        let (v, next) = xorshift_gen_u64(st);
        (prev.push((v >> 56u64) as u8), next)
    }
}

/// Generates data from an underlying random number generator.
pub struct RngSource<R> {
    rng: R,
    history: Ghost<Seq<u8>>,
}

impl<R> RngSource<R> {
    /// The state of the underlying generator.
    pub closed spec fn generator(&self) -> R {
        self.rng
    }

    /// Creates a source that draws from `rng`.
    pub fn of(rng: R) -> (r: Self)
        ensures
            r.generator() == rng,
    {
        RngSource { rng, history: Ghost(Seq::empty()) }
    }
}

impl RngSource<XorShiftRng> {
    /// Creates a source with a randomly seeded XorShift generator.
    pub fn new() -> (r: Self)
        ensures
            r.drawn() == Seq::<u8>::empty(),
            exists|seed: Seq<u8>| r.generator() == xorshift_from_seed(seed),
    {
        let mut seed: [u8; 16] = [0u8; 16];
        let mut i: usize = 0;
        while i < 16
            invariant
                i <= 16,
            decreases 16 - i,
        {
            seed.set(i, random_byte());
            i = i + 1;
        }
        let rng = seeded_xorshift(seed);
        RngSource { rng, history: Ghost(Seq::empty()) }
    }
}

impl InfoSource for RngSource<XorShiftRng> {
    closed spec fn drawn(&self) -> Seq<u8> {
        self.history@
    }

    /// A random source plays back no fixed buffer.
    closed spec fn origin(&self) -> Seq<u8> {
        Seq::empty()
    }

    fn draw_u8(&mut self) -> (b: u8)
        ensures
            (b, (*final(self)).generator()) == xorshift_gen_u8(old(self).generator()),
    {
        let b = xorshift_next_u8(&mut self.rng);
        proof {
            self.history@ = self.history@.push(b);
        }
        b
    }

    fn open_region(&mut self) {
    }

    fn close_region(&mut self) {
    }
}

/// What a recorder has recorded: the bytes drawn, the regions closed, and
/// the start offsets of the regions still open.
struct RecordLog {
    data: Vec<u8>,
    spans: Vec<Span>,
    open: Vec<usize>,
}

impl RecordLog {
    #[verifier::type_invariant]
    spec fn well_formed(&self) -> bool {
        &&& spans_fit(self.spans@, self.data@.len())
        &&& forall|i: int| 0 <= i < self.open@.len() ==> #[trigger] self.open@[i] <= self.data@.len()
    }

    fn empty() -> (r: Self)
        ensures
            r.data@ == Seq::<u8>::empty(),
            r.spans@ == Seq::<Span>::empty(),
            r.open@ == Seq::<usize>::empty(),
    {
        RecordLog { data: Vec::new(), spans: Vec::new(), open: Vec::new() }
    }

    fn with_byte(self, b: u8) -> (r: Self)
        ensures
            r.data@ == self.data@.push(b),
            r.spans@ == self.spans@,
            r.open@ == self.open@,
    {
        proof {
            use_type_invariant(&self);
        }
        let RecordLog { mut data, spans, open } = self;
        data.push(b);
        RecordLog { data, spans, open }
    }

    fn with_region_opened(self) -> (r: Self)
        ensures
            r.data@ == self.data@,
            r.spans@ == self.spans@,
            r.open@ == self.open@.push(self.data@.len() as usize),
    {
        proof {
            use_type_invariant(&self);
        }
        let RecordLog { data, spans, mut open } = self;
        open.push(data.len());
        RecordLog { data, spans, open }
    }

    fn with_region_closed(self) -> (r: Self)
        ensures
            r.data@ == self.data@,
            self.open@.len() == 0 ==> r.spans@ == self.spans@ && r.open@ == self.open@,
            self.open@.len() > 0 ==> {
                &&& r.open@ == self.open@.drop_last()
                &&& r.spans@ == self.spans@.push(
                    Span {
                        start: self.open@.last(),
                        end: self.data@.len() as usize,
                        level: (self.open@.len() - 1) as usize,
                    },
                )
            },
    {
        proof {
            use_type_invariant(&self);
        }
        let RecordLog { data, mut spans, mut open } = self;
        if let Some(start) = open.pop() {
            let end = data.len();
            let level = open.len();
            spans.push(Span { start, end, level });
        }
        RecordLog { data, spans, open }
    }
}

/// An adapter that records the data drawn from an underlying source, and
/// the regions it was drawn in.
pub struct InfoRecorder<I> {
    inner: I,
    log: RecordLog,
}

impl<I> InfoRecorder<I> {
    /// The source that this recorder draws from.
    pub closed spec fn source(&self) -> I {
        self.inner
    }

    /// The bytes recorded so far.
    pub closed spec fn recorded(&self) -> Seq<u8> {
        self.log.data@
    }

    /// The regions closed so far, in the order they were closed.
    pub closed spec fn recorded_spans(&self) -> Seq<Span> {
        self.log.spans@
    }

    /// The offsets at which the regions still open began, outermost first.
    pub closed spec fn open_regions(&self) -> Seq<usize> {
        self.log.open@
    }

    /// Creates a recording source that draws from `inner`.
    pub fn new(inner: I) -> (r: Self)
        ensures
            r.source() == inner,
            r.recorded() == Seq::<u8>::empty(),
            r.recorded_spans() == Seq::<Span>::empty(),
            r.open_regions() == Seq::<usize>::empty(),
    {
        InfoRecorder { inner, log: RecordLog::empty() }
    }

    /// Extracts the data recorded, with the regions closed so far.
    pub fn into_pool(self) -> (r: InfoPool)
        ensures
            r@ == self.recorded(),
            r.span_list() == self.recorded_spans(),
    {
        proof {
            use_type_invariant(&self.log);
        }
        let RecordLog { data, spans, open: _ } = self.log;
        InfoPool { data, spans }
    }

    /// The regions closed so far, the most recently closed first.
    pub fn spans_iter(&self) -> (r: Vec<Span>)
        ensures
            r@ == self.recorded_spans().reverse(),
    {
        reversed_spans(&self.log.spans)
    }

    fn take_log(&mut self) -> (r: RecordLog)
        ensures
            r == old(self).log,
            final(self).inner == old(self).inner,
            final(self).log.data@ == Seq::<u8>::empty(),
    {
        let mut log = RecordLog::empty();
        std::mem::swap(&mut self.log, &mut log);
        log
    }
}

/// The spans of `spans`, last first.
fn reversed_spans(spans: &Vec<Span>) -> (r: Vec<Span>)
    ensures
        r@ == spans@.reverse(),
{
    let mut r: Vec<Span> = Vec::new();
    let mut i: usize = spans.len();
    while i > 0
        invariant
            i <= spans.len(),
            r@ == spans@.subrange(i as int, spans@.len() as int).reverse(),
        decreases i,
    {
        i = i - 1;
        r.push(spans[i]);
        assert(spans@.subrange(i as int, spans@.len() as int) =~= seq![spans@[i as int]]
            + spans@.subrange(i + 1, spans@.len() as int));
        assert(r@ =~= spans@.subrange(i as int, spans@.len() as int).reverse());
    }
    assert(spans@.subrange(0, spans@.len() as int) =~= spans@);
    r
}

/// A recorder has drawn exactly the bytes it recorded.
pub proof fn lemma_recorder_drawn_is_recorded<I: InfoSource>(r: InfoRecorder<I>)
    ensures
        r.drawn() == r.recorded(),
{
}

impl<I: InfoSource> InfoSource for InfoRecorder<I> {
    closed spec fn drawn(&self) -> Seq<u8> {
        self.log.data@
    }

    /// A recorder records the regions drawn in.
    open spec fn keeps_regions(&self) -> bool {
        true
    }

    open spec fn region_log(&self) -> Seq<Span> {
        self.recorded_spans()
    }

    open spec fn region_stack(&self) -> Seq<usize> {
        self.open_regions()
    }

    /// A recorder plays back what its source plays back.
    closed spec fn origin(&self) -> Seq<u8> {
        self.inner.origin()
    }

    fn draw_u8(&mut self) -> (b: u8)
        ensures
            (*final(self)).source().drawn() == old(self).source().drawn().push(b),
            (*final(self)).recorded_spans() == old(self).recorded_spans(),
            (*final(self)).open_regions() == old(self).open_regions(),
    {
        let b = self.inner.draw_u8();
        let log = self.take_log();
        self.log = log.with_byte(b);
        b
    }

    fn open_region(&mut self)
        ensures
            (*final(self)).source() == old(self).source(),
            (*final(self)).recorded_spans() == old(self).recorded_spans(),
            (*final(self)).open_regions() == old(self).open_regions().push(
                old(self).recorded().len() as usize,
            ),
    {
        let log = self.take_log();
        let log = log.with_region_opened();
        let _depth = log.open.len();
        self.log = log;
    }

    fn close_region(&mut self)
        ensures
            (*final(self)).source() == old(self).source(),
            old(self).open_regions().len() == 0 ==> {
                &&& (*final(self)).recorded_spans() == old(self).recorded_spans()
                &&& (*final(self)).open_regions() == old(self).open_regions()
            },
            old(self).open_regions().len() > 0 ==> {
                &&& (*final(self)).open_regions() == old(self).open_regions().drop_last()
                &&& (*final(self)).recorded_spans() == old(self).recorded_spans().push(
                    Span {
                        start: old(self).open_regions().last(),
                        end: old(self).recorded().len() as usize,
                        level: (old(self).open_regions().len() - 1) as usize,
                    },
                )
            },
    {
        let log = self.take_log();
        self.log = log.with_region_closed();
    }
}

/// A pool of data that we can draw upon to generate other types of data.
#[derive(PartialEq, Eq, PartialOrd, Ord, Hash, Debug)]
pub struct InfoPool {
    data: Vec<u8>,
    spans: Vec<Span>,
}

impl View for InfoPool {
    type V = Seq<u8>;

    closed spec fn view(&self) -> Seq<u8> {
        self.data@
    }
}

impl Clone for InfoPool {
    fn clone(&self) -> (r: Self)
        ensures
            r@ == self@,
            r.span_list() == self.span_list(),
    {
        proof {
            use_type_invariant(self);
        }
        let data = self.data.clone();
        let spans = self.spans.clone();
        assert(data@ =~= self.data@);
        assert(spans@ =~= self.spans@);
        InfoPool { data, spans }
    }
}

impl InfoPool {
    #[verifier::type_invariant]
    spec fn well_formed(&self) -> bool {
        spans_fit(self.spans@, self.data@.len())
    }

    /// The regions recorded with this pool's data.
    pub closed spec fn span_list(&self) -> Seq<Span> {
        self.spans@
    }

    /// Create an `InfoPool` with a given vector of bytes.
    pub fn of_vec(data: Vec<u8>) -> (r: Self)
        ensures
            r@ == data@,
            r.span_list() == Seq::<Span>::empty(),
    {
        InfoPool { data, spans: Vec::new() }
    }

    /// Create an `InfoPool` with a `size` length vector of random bytes,
    /// each from `rand::random`. (Mostly used for testing).
    pub fn random_of_size(size: usize) -> (r: Self)
        ensures
            r@.len() == size,
            r.span_list() == Seq::<Span>::empty(),
    {
        let mut data: Vec<u8> = Vec::new();
        let mut i: usize = 0;
        while i < size
            invariant
                i <= size,
                data@.len() == i,
            decreases size - i,
        {
            data.push(random_byte());
            i = i + 1;
        }
        InfoPool::of_vec(data)
    }

    /// Create an `InfoPool` with a `size` length vector of random bytes
    /// using the generator `rng`: the top byte of each `u64` it gives.
    /// (Mostly used for testing).
    pub fn from_random_of_size(rng: &mut XorShiftRng, size: usize) -> (r: Self)
        ensures
            (r@, *final(rng)) == xorshift_top_bytes(*old(rng), size as nat),
            r.span_list() == Seq::<Span>::empty(),
    {
        let mut data: Vec<u8> = Vec::new();
        let mut i: usize = 0;
        while i < size
            invariant
                i <= size,
                (data@, *rng) == xorshift_top_bytes(*old(rng), i as nat),
            decreases size - i,
        {
            let v = xorshift_next_u64(rng);
            data.push((v >> 56u64) as u8);
            i = i + 1;
        }
        InfoPool::of_vec(data)
    }

    /// Create an empty `InfoPool`.
    pub fn new() -> (r: Self)
        ensures
            r@ == Seq::<u8>::empty(),
            r.span_list() == Seq::<Span>::empty(),
    {
        InfoPool { data: Vec::new(), spans: Vec::new() }
    }

    /// Allows access to the underlying buffer.
    pub fn buffer(&self) -> (r: &[u8])
        ensures
            r@ == self@,
    {
        self.data.as_slice()
    }

    /// The number of bytes in the pool.
    pub fn len(&self) -> (r: usize)
        ensures
            r == self@.len(),
    {
        self.data.len()
    }

    /// The byte at offset `i`.
    pub fn byte(&self, i: usize) -> (r: u8)
        requires
            i < self@.len(),
        ensures
            r == self@[i as int],
    {
        self.data[i]
    }

    /// The regions recorded with this pool.
    pub fn spans(&self) -> (r: &[Span])
        ensures
            r@ == self.span_list(),
            spans_fit(r@, self@.len()),
    {
        proof {
            use_type_invariant(self);
        }
        self.spans.as_slice()
    }

    /// The regions recorded with this pool, the most recently closed first.
    pub fn spans_iter(&self) -> (r: Vec<Span>)
        ensures
            r@ == self.span_list().reverse(),
    {
        reversed_spans(&self.spans)
    }

    /// Creates a source that replays this pool's bytes, then zeros.
    pub fn replay(&self) -> (r: InfoReplay)
        ensures
            r.source_bytes() == self@,
            r.drawn() == Seq::<u8>::empty(),
    {
        InfoReplay { data: self.data.as_slice(), off: 0, count: Ghost(0) }
    }

    /// A pool of this pool's bytes with the bytes `start..end` cut out, and
    /// no regions.
    pub fn without(&self, start: usize, end: usize) -> (r: InfoPool)
        requires
            start <= end <= self@.len(),
        ensures
            r@ == self@.take(start as int) + self@.skip(end as int),
            r.span_list() == Seq::<Span>::empty(),
    {
        let mut data: Vec<u8> = Vec::new();
        let mut i: usize = 0;
        while i < start
            invariant
                i <= start <= end <= self@.len(),
                data@ == self@.take(i as int),
            decreases start - i,
        {
            data.push(self.data[i]);
            i = i + 1;
            assert(data@ =~= self@.take(i as int));
        }
        let mut j: usize = end;
        let len = self.data.len();
        while j < len
            invariant
                start <= end <= j <= len,
                len == self@.len(),
                data@ == self@.take(start as int) + self@.subrange(end as int, j as int),
            decreases len - j,
        {
            data.push(self.data[j]);
            j = j + 1;
            assert(data@ =~= self@.take(start as int) + self@.subrange(end as int, j as int));
        }
        assert(self@.subrange(end as int, len as int) =~= self@.skip(end as int));
        InfoPool { data, spans: Vec::new() }
    }

    /// Whether this pool and `other` hold the same bytes and regions.
    pub fn same_as(&self, other: &InfoPool) -> (r: bool)
        ensures
            r == (self@ == other@ && self.span_list() == other.span_list()),
    {
        if self.data.len() != other.data.len() || self.spans.len() != other.spans.len() {
            return false;
        }
        let mut i: usize = 0;
        while i < self.data.len()
            invariant
                i <= self.data@.len() == other.data@.len(),
                forall|j: int| 0 <= j < i ==> self.data@[j] == other.data@[j],
            decreases self.data@.len() - i,
        {
            if self.data[i] != other.data[i] {
                return false;
            }
            i = i + 1;
        }
        assert(self.data@ =~= other.data@);
        let mut k: usize = 0;
        while k < self.spans.len()
            invariant
                k <= self.spans@.len() == other.spans@.len(),
                forall|j: int| 0 <= j < k ==> self.spans@[j] == other.spans@[j],
            decreases self.spans@.len() - k,
        {
            if self.spans[k] != other.spans[k] {
                return false;
            }
            k = k + 1;
        }
        assert(self.spans@ =~= other.spans@);
        true
    }

    /// A pool that equals this one but for the byte at `pos`, which is `val`.
    pub fn with_byte(&self, pos: usize, val: u8) -> (r: InfoPool)
        requires
            pos < self@.len(),
        ensures
            r@ == self@.update(pos as int, val),
            r.span_list() == self.span_list(),
    {
        proof {
            use_type_invariant(self);
        }
        let mut data = self.data.clone();
        assert(data@ =~= self.data@);
        data.set(pos, val);
        let spans = self.spans.clone();
        assert(spans@ =~= self.spans@);
        InfoPool { data, spans }
    }
}

/// A handle to an info pool that we can draw replayed bytes from, and zeros
/// after.
pub struct InfoReplay<'a> {
    data: &'a [u8],
    off: usize,
    count: Ghost<nat>,
}

impl<'a> InfoReplay<'a> {
    #[verifier::type_invariant]
    spec fn well_formed(&self) -> bool {
        &&& self.off <= self.data@.len()
        &&& self.count@ <= self.data@.len() ==> self.off == self.count@
        &&& self.count@ > self.data@.len() ==> self.off == self.data@.len()
    }

    /// The bytes being replayed.
    pub closed spec fn source_bytes(&self) -> Seq<u8> {
        self.data@
    }

    /// Consumes the next byte: the pool's next byte while there is one, and
    /// zero after.
    pub fn next_byte(&mut self) -> (b: u8)
        ensures
            (*final(self)).source_bytes() == old(self).source_bytes(),
            (*final(self)).drawn() == old(self).drawn().push(b),
    {
        proof {
            use_type_invariant(&*self);
        }
        let ghost old_drawn = self.drawn();
        if self.off < self.data.len() {
            let b = self.data[self.off];
            *self = InfoReplay { data: self.data, off: self.off + 1, count: Ghost(self.count@ + 1) };
            assert(self.drawn() =~= old_drawn.push(b));
            b
        } else {
            *self = InfoReplay { data: self.data, off: self.off, count: Ghost(self.count@ + 1) };
            assert(self.drawn() =~= old_drawn.push(0u8));
            0
        }
    }
}

/// Replaying a pool gives back its bytes, in order, as long as they last.
pub proof fn law_replay_gives_back_pool(s: Seq<u8>, n: nat)
    requires
        n <= s.len(),
    ensures
        padded(s, n) == s.take(n as int),
{
    assert(padded(s, n) =~= s.take(n as int));
}

/// A string of bytes, as the contracts of sources and generators speak of
/// them.
pub type Bytes = Seq<u8>;

/// A replay has drawn the first bytes of its pool, followed by zeros.
pub proof fn lemma_replay_drawn(r: &InfoReplay)
    ensures
        r.origin() == r.source_bytes(),
        r.drawn() == padded(r.source_bytes(), r.drawn().len()),
{
}

impl<'a> InfoSource for InfoReplay<'a> {
    closed spec fn drawn(&self) -> Seq<u8> {
        padded(self.data@, self.count@)
    }

    closed spec fn origin(&self) -> Seq<u8> {
        self.data@
    }

    fn draw_u8(&mut self) -> (b: u8)
        ensures
            (*final(self)).source_bytes() == old(self).source_bytes(),
    {
        self.next_byte()
    }

    fn open_region(&mut self) {
    }

    fn close_region(&mut self) {
    }
}

} // verus!
