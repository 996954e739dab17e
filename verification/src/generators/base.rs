use crate::data::shrinkers::{
    minimize, rejected, shrink_candidates, shrink_path, shrink_steps, starts_on,
};
use crate::data::source::{
    drawn_since, lemma_drawn_since_concat, lemma_recorder_drawn_is_recorded, lemma_replay_drawn,
    padded, regions_kept, count_at, lemma_draw_adds_one, lemma_count_added, DataError, Draw,
    InfoPool,
    InfoRecorder, InfoReplay, InfoSink, InfoSource,
};
use crate::generators::numbers::{
    be_value, bytes_le, lemma_be_value_bound, lemma_be_value_monotone, u32s,
};
use vstd::arithmetic::power2::lemma2_to64;
use vstd::prelude::*;

verus! {

/// A convenience alias for generators that use the pool.
pub type Maybe<T> = Result<T, DataError>;

/// An object that can generate test data from an underlying data source.
///
/// In order for shrinking to work correctly; we need to ensure that the
/// output values get smaller as the input bytes get smaller (usually by
/// input value).
pub trait Generator {
    /// The type of values that we can generate.
    type Item;

    /// Whether the generator can be run: each closure it holds accepts every
    /// argument it may be handed.
    spec fn wf(&self) -> bool;

    /// Whether drawing exactly the bytes `d` may generate `r`.
    spec fn generates(&self, d: Seq<u8>, r: Maybe<Self::Item>) -> bool;

    /// This consumes a stream of bytes given by `source`, and generates a
    /// value of type `Self::Item`.
    fn generate<I: InfoSource>(&self, src: &mut I) -> (r: Maybe<Self::Item>)
        requires
            self.wf(),
        ensures
            old(src).drawn().is_prefix_of((*final(src)).drawn()),
            (*final(src)).origin() == old(src).origin(),
            self.generates(drawn_since(old(src).drawn(), (*final(src)).drawn()), r),
            regions_kept(*old(src), *final(src)),
    ;

    /// A convenience function to generate a value directly from an
    /// `InfoPool`: what the generator makes of the pool's bytes followed by
    /// zeros.
    fn generate_from(&self, src: &InfoPool) -> (r: Maybe<Self::Item>)
        requires
            self.wf(),
        ensures
            exists|n: nat| self.generates(#[trigger] padded(src@, n), r),
    {
        let mut replay = src.replay();
        proof {
            lemma_replay_drawn(&replay);
        }
        let r = self.generate(&mut replay);
        proof {
            lemma_replay_drawn(&replay);
            assert(drawn_since(Seq::<u8>::empty(), replay.drawn()) =~= replay.drawn());
            assert(self.generates(padded(src@, replay.drawn().len()), r));
        }
        r
    }

    /// Returns a generator that will skip values generated by `self` when
    /// the predicate `pred` returns `false`.
    fn filter<F: Fn(&Self::Item) -> bool>(self, pred: F) -> (r: Filtered<Self, F>) where
        Self: Sized,

        ensures
            r.source() == self,
            r.predicate() == pred,
    {
        Filtered(self, pred)
    }

    /// A generator that takes the values generated by `self`; then allows
    /// `fun` to either Skip them (by returning `Err(DataError::SkipItem)` or
    /// transform (by returning `Ok(val)`).
    fn filter_map<R, F: Fn(Self::Item) -> Maybe<R>>(self, fun: F) -> (r: FilterMapped<Self, F>) where
        Self: Sized,

        ensures
            r.source() == self,
            r.function() == fun,
    {
        FilterMapped(self, fun)
    }

    /// A generator that takes the generated values of `self` and pipes them
    /// through `fun`.
    fn map<R, F: Fn(Self::Item) -> R>(self, fun: F) -> (r: Mapped<Self, F>) where Self: Sized
        ensures
            r.source() == self,
            r.function() == fun,
    {
        Mapped(self, fun)
    }

    /// A generator that allows creating a new generator based on the results
    /// of a previous generator.
    fn flat_map<H, F: Fn(Self::Item) -> H>(self, fun: F) -> (r: FlatMapped<Self, F>) where
        Self: Sized,

        ensures
            r.source() == self,
            r.function() == fun,
    {
        FlatMapped(self, fun)
    }
}

impl<'a, G: Generator> Generator for &'a G {
    type Item = G::Item;

    open spec fn wf(&self) -> bool {
        (**self).wf()
    }

    open spec fn generates(&self, d: Seq<u8>, r: Maybe<G::Item>) -> bool {
        (**self).generates(d, r)
    }

    fn generate<I: InfoSource>(&self, src: &mut I) -> (r: Maybe<G::Item>) {
        (**self).generate(src)
    }
}

impl<'a, G: Generator> InfoSink for &'a G {
    type Out = Maybe<G::Item>;

    open spec fn ready(&self) -> bool {
        (**self).wf()
    }

    open spec fn sinks(&self, d: Seq<u8>, out: Maybe<G::Item>) -> bool {
        (**self).generates(d, out)
    }

    /// A generator closes each region it opens.
    open spec fn balanced(&self) -> bool {
        true
    }

    fn sink<I: InfoSource>(&mut self, src: &mut I) -> (out: Maybe<G::Item>) {
        (**self).generate(src)
    }
}


/// See [`booleans`](fn.booleans.html).
#[derive(Debug, Clone)]
pub struct BoolGenerator;

/// Generates boolean value with a 50% chance of being true: true when the
/// byte drawn is at least `0x80`.
pub fn booleans() -> BoolGenerator {
    BoolGenerator
}

impl Generator for BoolGenerator {
    type Item = bool;

    open spec fn wf(&self) -> bool {
        true
    }

    open spec fn generates(&self, d: Seq<u8>, r: Maybe<bool>) -> bool {
        d.len() == 1 && r == Ok::<bool, DataError>(d[0] >= 0x80)
    }

    fn generate<I: InfoSource>(&self, src: &mut I) -> (r: Maybe<bool>) {
        let ghost d0 = src.drawn();
        let b = src.draw_u8();
        assert(drawn_since(d0, src.drawn()) =~= seq![b]);
        Ok(b >= 0x80)
    }
}

/// See [`consts`](fn.consts.html)
#[derive(Debug, Clone)]
pub struct Const<V>(V);

impl<V> Const<V> {
    /// The value that is generated.
    pub closed spec fn value(&self) -> V {
        self.0
    }
}

/// Always generates a clone of the given value, drawing nothing.
pub fn consts<V: Clone>(val: V) -> (r: Const<V>)
    ensures
        r.value() == val,
{
    Const(val)
}

impl<V: Clone> Generator for Const<V> {
    type Item = V;

    open spec fn wf(&self) -> bool {
        true
    }

    open spec fn generates(&self, d: Seq<u8>, r: Maybe<V>) -> bool {
        d.len() == 0 && match r {
            Ok(v) => cloned(self.value(), v),
            Err(_) => false,
        }
    }

    fn generate<I: InfoSource>(&self, src: &mut I) -> (r: Maybe<V>) {
        assert(drawn_since(src.drawn(), src.drawn()) =~= Seq::<u8>::empty());
        Ok(self.0.clone())
    }
}

/// Generates a boolean from a drawn `u32`: true when the number is at
/// least the generator's threshold. A threshold of `2^32` never gives true.
/// See also `weighted_coin`, which makes one from a probability.
#[derive(Debug, Clone, Copy)]
pub struct WeightedCoinGenerator(u64);

impl WeightedCoinGenerator {
    /// The least number drawn that gives true.
    pub closed spec fn threshold(&self) -> u64 {
        self.0
    }

    /// A coin that gives true when the `u32` drawn is at least `threshold`.
    pub fn with_threshold(threshold: u64) -> (r: Self)
        ensures
            r.threshold() == threshold,
    {
        WeightedCoinGenerator(threshold)
    }
}

impl Generator for WeightedCoinGenerator {
    type Item = bool;

    open spec fn wf(&self) -> bool {
        true
    }

    open spec fn generates(&self, d: Seq<u8>, r: Maybe<bool>) -> bool {
        d.len() == 4 && r == Ok::<bool, DataError>(be_value(d) >= self.threshold())
    }

    fn generate<I: InfoSource>(&self, src: &mut I) -> (r: Maybe<bool>) {
        let v = match u32s().generate(src) {
            Ok(v) => v,
            Err(e) => {
                return Err(e);
            },
        };
        proof {
            lemma2_to64();
            lemma_be_value_bound(drawn_since(old(src).drawn(), src.drawn()));
        }
        Ok(v as u64 >= self.0)
    }
}

/// See [`optional`](fn.optional.html)
#[derive(Debug, Clone)]
pub struct OptionalGenerator<B, G>(B, G);

impl<B, G> OptionalGenerator<B, G> {
    /// The generator that decides whether there is a value.
    pub closed spec fn coins(&self) -> B {
        self.0
    }

    /// The generator of the value.
    pub closed spec fn inner(&self) -> G {
        self.1
    }
}

/// Generates an Optional<_> value with a 50% chance of `Some(_)` from the
/// `inner` generator, otherwise None.
pub fn optional<G>(inner: G) -> (r: OptionalGenerator<BoolGenerator, G>)
    ensures
        r.inner() == inner,
{
    OptionalGenerator(booleans(), inner)
}

/// Generates an Optional<_> value using `bools` to decide whether to choose
/// `Some(_)` from the `inner` generator, otherwise None.
pub fn optional_by<B, G>(bools: B, inner: G) -> (r: OptionalGenerator<B, G>)
    ensures
        r.coins() == bools,
        r.inner() == inner,
{
    OptionalGenerator(bools, inner)
}

/// Whether an optional value drawn as `d1` (by `coins`) followed by `d2`
/// (by `inner`) may be `r`.
pub open spec fn optional_parts<B: Generator<Item = bool>, G: Generator>(
    coins: B,
    inner: G,
    d1: Seq<u8>,
    d2: Seq<u8>,
    r: Maybe<Option<G::Item>>,
) -> bool {
    match r {
        Ok(Some(v)) => coins.generates(d1, Ok(true)) && inner.generates(d2, Ok(v)),
        Ok(None) => coins.generates(d1, Ok(false)) && d2.len() == 0,
        Err(e) => (coins.generates(d1, Err(e)) && d2.len() == 0) || (coins.generates(d1, Ok(true))
            && inner.generates(d2, Err(e))),
    }
}

impl<B: Generator<Item = bool>, G: Generator> Generator for OptionalGenerator<B, G> {
    type Item = Option<G::Item>;

    open spec fn wf(&self) -> bool {
        self.coins().wf() && self.inner().wf()
    }

    open spec fn generates(&self, d: Seq<u8>, r: Maybe<Option<G::Item>>) -> bool {
        exists|k: int|
            0 <= k <= d.len() && #[trigger] optional_parts(
                self.coins(),
                self.inner(),
                d.take(k),
                d.skip(k),
                r,
            )
    }

    /// On a source that records regions, the coin is drawn in one region
    /// and the item, if any, in another, both at the depth of the call.
    fn generate<I: InfoSource>(&self, src: &mut I) -> (r: Maybe<Option<G::Item>>)
        ensures
            old(src).keeps_regions() ==> (r matches Ok(v) ==> count_at(
                (*final(src)).region_log().skip(old(src).region_log().len() as int),
                old(src).region_stack().len(),
            ) == if v is Some {
                2nat
            } else {
                1nat
            }),
    {
        let ghost d0 = src.drawn();
        let ghost log0 = src.region_log();
        let ghost depth = src.region_stack().len();
        let coin = src.draw(&self.0);
        let ghost d1 = src.drawn();
        let ghost log1 = src.region_log();
        proof {
            if old(src).keeps_regions() {
                lemma_draw_adds_one(log0, log1, depth);
            }
        }
        let r = match coin {
            Ok(true) => {
                let item = src.draw(&self.1);
                proof {
                    if old(src).keeps_regions() {
                        let log2 = src.region_log();
                        lemma_draw_adds_one(log1, log2, depth);
                        lemma_count_added(log0, log1, log2, depth, depth);
                    }
                }
                match item {
                    Ok(v) => Ok(Some(v)),
                    Err(e) => Err(e),
                }
            },
            Ok(false) => Ok(None),
            Err(e) => Err(e),
        };
        proof {
            let d2 = src.drawn();
            lemma_drawn_since_concat(d0, d1, d2);
            let d = drawn_since(d0, d2);
            let k = d1.len() - d0.len();
            assert(optional_parts(self.0, self.1, d.take(k), d.skip(k), r));
        }
        r
    }
}

/// See [`result`](fn.result.html)
#[derive(Debug, Clone)]
pub struct ResultGenerator<G, H>(G, H);

impl<G, H> ResultGenerator<G, H> {
    /// The generator of okay values.
    pub closed spec fn ok_source(&self) -> G {
        self.0
    }

    /// The generator of errors.
    pub closed spec fn err_source(&self) -> H {
        self.1
    }
}

/// Generates either an okay value from `ok`; or an error from `err`, with
/// 50% chance of each.
pub fn result<G: Generator, H: Generator>(ok: G, err: H) -> (r: ResultGenerator<G, H>)
    ensures
        r.ok_source() == ok,
        r.err_source() == err,
{
    ResultGenerator(ok, err)
}

/// Whether `r`, a value drawn by `g` (as `Ok` when `is_ok`, as `Err`
/// otherwise) from the bytes `d`, may be generated.
pub open spec fn result_part<G: Generator, T, E>(
    g: G,
    d: Seq<u8>,
    r: Maybe<Result<T, E>>,
    is_ok: bool,
    wrap: spec_fn(G::Item) -> Result<T, E>,
) -> bool {
    match r {
        Ok(x) => exists|v: G::Item| g.generates(d, Ok(v)) && x == wrap(v),
        Err(e) => g.generates(d, Err(e)),
    }
}

impl<G: Generator, H: Generator> Generator for ResultGenerator<G, H> {
    type Item = Result<G::Item, H::Item>;

    open spec fn wf(&self) -> bool {
        self.ok_source().wf() && self.err_source().wf()
    }

    open spec fn generates(&self, d: Seq<u8>, r: Maybe<Result<G::Item, H::Item>>) -> bool {
        d.len() >= 1 && if d[0] >= 0x80 {
            match r {
                Ok(Err(x)) => self.err_source().generates(d.skip(1), Ok(x)),
                Ok(Ok(_)) => false,
                Err(e) => self.err_source().generates(d.skip(1), Err(e)),
            }
        } else {
            match r {
                Ok(Ok(x)) => self.ok_source().generates(d.skip(1), Ok(x)),
                Ok(Err(_)) => false,
                Err(e) => self.ok_source().generates(d.skip(1), Err(e)),
            }
        }
    }

    fn generate<I: InfoSource>(&self, src: &mut I) -> (r: Maybe<Result<G::Item, H::Item>>) {
        let ghost d0 = src.drawn();
        let bs = booleans();
        let b = match bs.generate(src) {
            Ok(b) => b,
            Err(e) => {
                return Err(e);
            },
        };
        let ghost d1 = src.drawn();
        let r = if b {
            match self.1.generate(src) {
                Ok(x) => Ok(Err(x)),
                Err(e) => Err(e),
            }
        } else {
            match self.0.generate(src) {
                Ok(x) => Ok(Ok(x)),
                Err(e) => Err(e),
            }
        };
        proof {
            lemma_drawn_since_concat(d0, d1, src.drawn());
        }
        r
    }
}

/// See [`Generator::filter`](trait.Generator.html#method.filter)
#[derive(Debug, Clone)]
pub struct Filtered<G, F>(G, F);

impl<G, F> Filtered<G, F> {
    /// The generator of the values.
    pub closed spec fn source(&self) -> G {
        self.0
    }

    /// The predicate the values must meet.
    pub closed spec fn predicate(&self) -> F {
        self.1
    }
}

impl<G: Generator, F: Fn(&G::Item) -> bool> Generator for Filtered<G, F> {
    type Item = G::Item;

    open spec fn wf(&self) -> bool {
        &&& self.source().wf()
        &&& forall|v: &G::Item| #[trigger] call_requires(self.predicate(), (v,))
    }

    open spec fn generates(&self, d: Seq<u8>, r: Maybe<G::Item>) -> bool {
        match r {
            Ok(v) => self.source().generates(d, Ok(v)) && call_ensures(
                self.predicate(),
                (&v,),
                true,
            ),
            Err(e) => self.source().generates(d, Err(e)) || (e == DataError::SkipItem && exists|
                v: G::Item,
            |
                self.source().generates(d, Ok(v)) && #[trigger] call_ensures(
                    self.predicate(),
                    (&v,),
                    false,
                )),
        }
    }

    fn generate<I: InfoSource>(&self, src: &mut I) -> (r: Maybe<G::Item>) {
        let val = match self.0.generate(src) {
            Ok(v) => v,
            Err(e) => {
                return Err(e);
            },
        };
        assert(call_requires(self.predicate(), (&val,)));
        let keep = (self.1)(&val);
        if keep {
            Ok(val)
        } else {
            assert(call_ensures(self.predicate(), (&val,), false));
            Err(DataError::SkipItem)
        }
    }
}

/// See [`Generator::filter_map`](trait.Generator.html#method.filter_map)
#[derive(Debug, Clone)]
pub struct FilterMapped<G, F>(G, F);

impl<G, F> FilterMapped<G, F> {
    /// The generator of the values.
    pub closed spec fn source(&self) -> G {
        self.0
    }

    /// The function applied to each value.
    pub closed spec fn function(&self) -> F {
        self.1
    }
}

impl<G: Generator, R, F: Fn(G::Item) -> Maybe<R>> Generator for FilterMapped<G, F> {
    type Item = R;

    open spec fn wf(&self) -> bool {
        &&& self.source().wf()
        &&& forall|v: G::Item| #[trigger] call_requires(self.function(), (v,))
    }

    open spec fn generates(&self, d: Seq<u8>, r: Maybe<R>) -> bool {
        ||| exists|v: G::Item|
            self.source().generates(d, Ok(v)) && #[trigger] call_ensures(self.function(), (v,), r)
        ||| match r {
            Err(e) => self.source().generates(d, Err(e)),
            Ok(_) => false,
        }
    }

    fn generate<I: InfoSource>(&self, src: &mut I) -> (r: Maybe<R>) {
        let val = match self.0.generate(src) {
            Ok(v) => v,
            Err(e) => {
                return Err(e);
            },
        };
        assert(call_requires(self.function(), (val,)));
        let r = (self.1)(val);
        assert(call_ensures(self.function(), (val,), r));
        r
    }
}

/// See [`Generator::map`](trait.Generator.html#method.map)
#[derive(Debug, Clone)]
pub struct Mapped<G, F>(G, F);

impl<G, F> Mapped<G, F> {
    /// The generator of the values.
    pub closed spec fn source(&self) -> G {
        self.0
    }

    /// The function applied to each value.
    pub closed spec fn function(&self) -> F {
        self.1
    }
}

impl<G: Generator, R, F: Fn(G::Item) -> R> Generator for Mapped<G, F> {
    type Item = R;

    open spec fn wf(&self) -> bool {
        &&& self.source().wf()
        &&& forall|v: G::Item| #[trigger] call_requires(self.function(), (v,))
    }

    open spec fn generates(&self, d: Seq<u8>, r: Maybe<R>) -> bool {
        match r {
            Ok(o) => exists|v: G::Item|
                #[trigger] self.source().generates(d, Ok(v)) && call_ensures(
                    self.function(),
                    (v,),
                    o,
                ),
            Err(e) => self.source().generates(d, Err(e)),
        }
    }

    fn generate<I: InfoSource>(&self, src: &mut I) -> (r: Maybe<R>) {
        let val = match self.0.generate(src) {
            Ok(v) => v,
            Err(e) => {
                return Err(e);
            },
        };
        assert(call_requires(self.function(), (val,)));
        let out = (self.1)(val);
        assert(call_ensures(self.function(), (val,), out));
        proof {
            let d = drawn_since(old(src).drawn(), src.drawn());
            assert(self.source().generates(d, Ok(val)));
            assert(self.generates(d, Ok(out)));
        }
        Ok(out)
    }
}

/// See [`Generator::flat_map`](trait.Generator.html#method.flat_map)
#[derive(Debug, Clone)]
pub struct FlatMapped<G, F>(G, F);

impl<G, F> FlatMapped<G, F> {
    /// The generator of the first values.
    pub closed spec fn source(&self) -> G {
        self.0
    }

    /// The function that makes the second generator from a first value.
    pub closed spec fn function(&self) -> F {
        self.1
    }
}

/// Whether the bytes `d1` then `d2` may give `r`: `d1` gives `v` from
/// `g`, `f` makes `h` of `v`, and `d2` gives `r` from `h`.
pub open spec fn flat_parts<G: Generator, H: Generator, F: Fn(G::Item) -> H>(
    g: G,
    f: F,
    d1: Seq<u8>,
    d2: Seq<u8>,
    r: Maybe<H::Item>,
) -> bool {
    exists|v: G::Item, h: H|
        g.generates(d1, Ok(v)) && #[trigger] call_ensures(f, (v,), h) && h.generates(d2, r)
}

impl<G: Generator, H: Generator, F: Fn(G::Item) -> H> Generator for FlatMapped<G, F> {
    type Item = H::Item;

    open spec fn wf(&self) -> bool {
        &&& self.source().wf()
        &&& forall|v: G::Item| #[trigger] call_requires(self.function(), (v,))
        &&& forall|v: G::Item, h: H| #[trigger] call_ensures(self.function(), (v,), h) ==> h.wf()
    }

    open spec fn generates(&self, d: Seq<u8>, r: Maybe<H::Item>) -> bool {
        ||| exists|k: int|
            0 <= k <= d.len() && #[trigger] flat_parts(
                self.source(),
                self.function(),
                d.take(k),
                d.skip(k),
                r,
            )
        ||| match r {
            Err(e) => self.source().generates(d, Err(e)),
            Ok(_) => false,
        }
    }

    fn generate<I: InfoSource>(&self, src: &mut I) -> (r: Maybe<H::Item>) {
        let ghost d0 = src.drawn();
        let val = match self.0.generate(src) {
            Ok(v) => v,
            Err(e) => {
                return Err(e);
            },
        };
        let ghost d1 = src.drawn();
        assert(call_requires(self.function(), (val,)));
        let gen2 = (self.1)(val);
        assert(call_ensures(self.function(), (val,), gen2));
        let r = gen2.generate(src);
        proof {
            let d2 = src.drawn();
            lemma_drawn_since_concat(d0, d1, d2);
            let d = drawn_since(d0, d2);
            let k = d1.len() - d0.len();
            assert(flat_parts(self.0, self.1, d.take(k), d.skip(k), r));
        }
        r
    }
}

/// See [`lazy`](fn.lazy.html)
#[derive(Debug, Clone)]
pub struct LazyGenerator<F>(F);

impl<F> LazyGenerator<F> {
    /// The function that makes the generator.
    pub closed spec fn thunk(&self) -> F {
        self.0
    }
}

/// Returns a lazily evaluated generator. The `thunk` should be pure.
/// Mostly used to allow recursive generators.
pub fn lazy<F: Fn() -> G, G: Generator>(thunk: F) -> (r: LazyGenerator<F>)
    ensures
        r.thunk() == thunk,
        call_requires(thunk, ()) && (forall|g: G| #[trigger] call_ensures(thunk, (), g) ==> g.wf())
            ==> r.wf(),
{
    LazyGenerator(thunk)
}

impl<F: Fn() -> G, G: Generator> Generator for LazyGenerator<F> {
    type Item = G::Item;

    open spec fn wf(&self) -> bool {
        &&& call_requires(self.thunk(), ())
        &&& forall|g: G| #[trigger] call_ensures(self.thunk(), (), g) ==> g.wf()
    }

    open spec fn generates(&self, d: Seq<u8>, r: Maybe<G::Item>) -> bool {
        exists|g: G| #[trigger] call_ensures(self.thunk(), (), g) && g.generates(d, r)
    }

    fn generate<I: InfoSource>(&self, src: &mut I) -> (r: Maybe<G::Item>) {
        let g = (self.0)();
        assert(call_ensures(self.thunk(), (), g));
        g.generate(src)
    }
}

/// A lazy generator whose thunk gives `g` generates what `g` generates.
pub proof fn law_lazy_is_its_generator<F: Fn() -> G, G: Generator>(l: LazyGenerator<F>, g: G)
    requires
        call_ensures(l.thunk(), (), g),
        forall|h: G| #[trigger] call_ensures(l.thunk(), (), h) ==> h == g,
    ensures
        forall|d: Seq<u8>, r: Maybe<G::Item>| #[trigger] l.generates(d, r) <==> g.generates(d, r),
{
}

/// Internal implementation for [`one_of`](fn.one_of.html). Defines the
/// operations supported by a choice in a `one_of`.
pub trait OneOfItem {
    /// The generated type.
    type Item;

    /// The number of cases reachable from this one.
    spec fn count(&self) -> nat;

    /// Whether every case can be run, and the cases are few enough to be
    /// picked from a 32 bit draw.
    spec fn wf(&self) -> bool;

    /// Whether case number `depth` may generate `r` from exactly the bytes
    /// `d`; case 0 is the one added last.
    spec fn delegates(&self, depth: nat, d: Seq<u8>, r: Maybe<Self::Item>) -> bool;

    /// The number of cases reachable from this one.
    fn len(&self) -> (r: usize)
        requires
            self.wf(),
        ensures
            r == self.count(),
            1 <= r <= u32::MAX,
    ;

    /// Depending on the case selected in the
    /// [`Generator`](trait.Generator.html) implementation for
    /// (`OneOfGenerator`)[struct.OneOfGenerator.html], we either call our
    /// generator directly, or delegate to the next in the chain.
    fn generate_or_delegate<I: InfoSource>(&self, depth: usize, tap: &mut I) -> (r: Maybe<
        Self::Item,
    >)
        requires
            self.wf(),
            depth < self.count(),
        ensures
            old(tap).drawn().is_prefix_of((*final(tap)).drawn()),
            (*final(tap)).origin() == old(tap).origin(),
            self.delegates(depth as nat, drawn_since(old(tap).drawn(), (*final(tap)).drawn()), r),
            regions_kept(*old(tap), *final(tap)),
    ;
}

/// Internal implementation for [`one_of`](fn.one_of.html). Forms the
/// terminating case of the induction.
#[derive(Debug, Clone)]
pub struct OneOfTerm<G> {
    gen: G,
}

impl<G> OneOfTerm<G> {
    /// The generator of this case.
    pub closed spec fn case(&self) -> G {
        self.gen
    }
}

/// Internal implementation for [`one_of`](fn.one_of.html). Forms a
/// left-associated chain of generators.
#[derive(Debug, Clone)]
pub struct OneOfSnoc<G, R> {
    rest: R,
    gen: G,
}

impl<G, R> OneOfSnoc<G, R> {
    /// The generator of the case added last.
    pub closed spec fn case(&self) -> G {
        self.gen
    }

    /// The cases added before.
    pub closed spec fn rest(&self) -> R {
        self.rest
    }
}

impl<G: Generator> OneOfItem for OneOfTerm<G> {
    type Item = G::Item;

    open spec fn count(&self) -> nat {
        1
    }

    open spec fn wf(&self) -> bool {
        self.case().wf()
    }

    open spec fn delegates(&self, depth: nat, d: Seq<u8>, r: Maybe<G::Item>) -> bool {
        depth == 0 && self.case().generates(d, r)
    }

    fn len(&self) -> (r: usize) {
        1
    }

    fn generate_or_delegate<I: InfoSource>(&self, depth: usize, tap: &mut I) -> (r: Maybe<
        G::Item,
    >) {
        self.gen.generate(tap)
    }
}

impl<G: Generator, R: OneOfItem<Item = G::Item>> OneOfItem for OneOfSnoc<G, R> {
    type Item = G::Item;

    open spec fn count(&self) -> nat {
        self.rest().count() + 1
    }

    open spec fn wf(&self) -> bool {
        &&& self.case().wf()
        &&& self.rest().wf()
        &&& self.rest().count() + 1 <= u32::MAX
    }

    open spec fn delegates(&self, depth: nat, d: Seq<u8>, r: Maybe<G::Item>) -> bool {
        if depth == 0 {
            self.case().generates(d, r)
        } else {
            self.rest().delegates((depth - 1) as nat, d, r)
        }
    }

    fn len(&self) -> (r: usize) {
        self.rest.len() + 1
    }

    fn generate_or_delegate<I: InfoSource>(&self, depth: usize, tap: &mut I) -> (r: Maybe<
        G::Item,
    >) {
        if depth == 0 {
            self.gen.generate(tap)
        } else {
            self.rest.generate_or_delegate(depth - 1, tap)
        }
    }
}

/// See [`one_of`](fn.one_of.html)
#[derive(Debug, Clone)]
pub struct OneOfGenerator<GS>(GS);

impl<GS> OneOfGenerator<GS> {
    /// The chain of cases.
    pub closed spec fn cases(&self) -> GS {
        self.0
    }
}

/// Allows the user to use one of a set of alternative generators.
/// Often useful when you need to generate elements of an enum.
pub fn one_of<G: Generator + 'static>(inner: G) -> (r: OneOfGenerator<OneOfTerm<G>>)
    ensures
        r.cases().case() == inner,
{
    OneOfGenerator(OneOfTerm { gen: inner })
}

impl<GS: OneOfItem> OneOfGenerator<GS> {
    /// Specifies an alternative data generator. See
    /// [generators::one_of](fn.one_of.html) for details.
    pub fn or<G: Generator<Item = GS::Item> + 'static>(self, other: G) -> (r: OneOfGenerator<
        OneOfSnoc<G, GS>,
    >)
        ensures
            r.cases().case() == other,
            r.cases().rest() == self.cases(),
    {
        let OneOfGenerator(gs) = self;
        let rs = OneOfSnoc { gen: other, rest: gs };
        OneOfGenerator(rs)
    }
}

/// The case that a one-of generator with `count` cases picks when the
/// `u32` drawn is `v`: the bitwise complement of `v`, scaled to the count.
pub open spec fn one_of_case(v: nat, count: nat) -> nat {
    ((u32::MAX - v) * count / 0x1_0000_0000) as nat
}

impl<GS: OneOfItem> Generator for OneOfGenerator<GS> {
    type Item = GS::Item;

    open spec fn wf(&self) -> bool {
        self.cases().wf()
    }

    open spec fn generates(&self, d: Seq<u8>, r: Maybe<GS::Item>) -> bool {
        &&& d.len() >= 4
        &&& self.cases().delegates(
            one_of_case(be_value(d.take(4)), self.cases().count()),
            d.skip(4),
            r,
        )
    }

    fn generate<I: InfoSource>(&self, src: &mut I) -> (r: Maybe<GS::Item>) {
        let ghost d0 = src.drawn();
        let u = match u32s().generate(src) {
            Ok(u) => u,
            Err(e) => {
                return Err(e);
            },
        };
        let ghost d1 = src.drawn();
        proof {
            lemma2_to64();
            lemma_be_value_bound(drawn_since(d0, d1));
            assert(8 * drawn_since(d0, d1).len() == 32);
        }
        assert(!u == 0xffff_ffffu32 - u) by (bit_vector);
        let v = !u;
        let len = self.0.len();
        assert(v as u64 * len as u64 <= 0xffff_ffffu64 * 0xffff_ffffu64) by (nonlinear_arith)
            requires
                v <= 0xffff_ffffu64,
                len <= 0xffff_ffffu64,
        ;
        let prod: u64 = v as u64 * len as u64;
        assert(prod >> 32u64 == prod / 0x1_0000_0000) by (bit_vector);
        let it = (prod >> 32u64) as usize;
        assert(it < len) by (nonlinear_arith)
            requires
                it == prod / 0x1_0000_0000,
                prod == v * len,
                v < 0x1_0000_0000,
                len >= 1,
        ;
        let r = self.0.generate_or_delegate(it, src);
        proof {
            lemma_drawn_since_concat(d0, d1, src.drawn());
        }
        r
    }
}

/// Whether `gen` generates, from the bytes `d`, a value that `check`
/// accepts.
pub open spec fn passes_check<G: Generator, F: Fn(G::Item) -> bool>(
    gen: G,
    check: F,
    d: Seq<u8>,
) -> bool {
    exists|v: G::Item| gen.generates(d, Ok(v)) && #[trigger] call_ensures(check, (v,), true)
}

/// Whether `gen` fails on the bytes `d`, or generates from them a value
/// that `check` rejects.
pub open spec fn fails_check<G: Generator, F: Fn(G::Item) -> bool>(
    gen: G,
    check: F,
    d: Seq<u8>,
) -> bool {
    ||| exists|e: DataError| #[trigger] gen.generates(d, Err(e))
    ||| exists|v: G::Item| #[trigger] gen.generates(d, Ok(v)) && call_ensures(check, (v,), false)
}

/// Runs `check` on `v`.
fn apply_check<T, F: Fn(T) -> bool>(check: &F, v: T) -> (b: bool)
    requires
        call_requires(*check, (v,)),
    ensures
        call_ensures(*check, (v,), b),
{
    check(v)
}

/// Find the smallest `InfoPool` such that the function `check` succeeds
/// when applied to the generated arguments. A convenience wrapper around
/// [`minimize`](../data/fn.minimize.html): a shrunk pool is accepted when
/// `gen` generates a value from it and `check` holds of that value.
///
/// So the pool returned is `pool` itself, or a pool from which `gen`
/// generates a value that `check` accepted. And each shrink candidate of it
/// was tried: what was drawn from it failed, or was accepted on the way.
pub fn find_minimal<G: Generator, F: Fn(G::Item) -> bool>(gen: &G, pool: InfoPool, check: F) -> (r:
    InfoPool)
    requires
        gen.wf(),
        forall|v: G::Item| #[trigger] call_requires(check, (v,)),
    ensures
        (r@ == pool@ && r.span_list() == pool.span_list()) || exists|v: G::Item|
            gen.generates(r@, Ok(v)) && #[trigger] call_ensures(check, (v,), true),
        exists|hist: Seq<Seq<u8>>, pools: Seq<InfoPool>|
            #![trigger shrink_path(pool, hist, pools, r)]
            {
                &&& shrink_path(pool, hist, pools, r)
                &&& forall|st: (Seq<u8>, InfoPool)|
                    #[trigger] shrink_steps(hist, pools).contains(st) ==> passes_check(
                        *gen,
                        check,
                        st.1@,
                    ) && exists|rec: &mut InfoRecorder<InfoReplay>|
                        #[trigger] starts_on(*rec, st.0) && st.1@ == final(rec).recorded()
                            && st.1.span_list() == final(rec).recorded_spans()
                &&& forall|i: int|
                    #![trigger shrink_candidates(r)[i]]
                    0 <= i < shrink_candidates(r).len() ==> hist.contains(shrink_candidates(r)[i])
                        || exists|rec: &mut InfoRecorder<InfoReplay>|
                        #[trigger] starts_on(*rec, shrink_candidates(r)[i]) && fails_check(
                            *gen,
                            check,
                            final(rec).recorded(),
                        )
            },
{
    let check_ref = &check;
    let pred = |t: &mut InfoRecorder<InfoReplay>| -> (b: bool)
        ensures
            b ==> passes_check(*gen, *check_ref, drawn_since(old(t).drawn(), final(t).drawn())),
            !b ==> fails_check(*gen, *check_ref, drawn_since(old(t).drawn(), final(t).drawn())),
        {
            let ghost d0 = t.drawn();
            match t.draw(gen) {
                Ok(v) => {
                    let b = apply_check(check_ref, v);
                    proof {
                        assert(gen.generates(drawn_since(d0, t.drawn()), Ok(v)));
                    }
                    b
                },
                Err(e) => {
                    proof {
                        assert(gen.generates(drawn_since(d0, t.drawn()), Err(e)));
                    }
                    false
                },
            }
        };
    let r = minimize(&pool, &pred);
    proof {
        if !(r@ == pool@ && r.span_list() == pool.span_list()) {
            let (w, c) = choose|rec: &mut InfoRecorder<InfoReplay>, c: Seq<u8>|
                #![trigger call_ensures(pred, (rec,), true), starts_on(*rec, c)]
                call_ensures(pred, (rec,), true) && starts_on(*rec, c) && r@ == final(rec).recorded()
                    && r.span_list() == final(rec).recorded_spans();
            lemma_recorder_drawn_is_recorded(*w);
            lemma_recorder_drawn_is_recorded(*final(w));
            assert(drawn_since(w.drawn(), final(w).drawn()) =~= r@);
        }
        let (hist, pools) = choose|hist: Seq<Seq<u8>>, pools: Seq<InfoPool>|
            #![trigger shrink_path(pool, hist, pools, r)]
            {
                &&& shrink_path(pool, hist, pools, r)
                &&& forall|st: (Seq<u8>, InfoPool)|
                    #[trigger] shrink_steps(hist, pools).contains(st) ==> exists|
                        rec: &mut InfoRecorder<InfoReplay>,
                    |
                        #[trigger] call_ensures(pred, (rec,), true) && starts_on(*rec, st.0)
                            && st.1@ == final(rec).recorded()
                            && st.1.span_list() == final(rec).recorded_spans()
                &&& forall|i: int|
                    0 <= i < shrink_candidates(r).len() ==> rejected(
                        pred,
                        #[trigger] shrink_candidates(r)[i],
                    ) || hist.contains(shrink_candidates(r)[i])
            };
        assert forall|st: (Seq<u8>, InfoPool)|
            #[trigger] shrink_steps(hist, pools).contains(st) implies passes_check(
                *gen,
                check,
                st.1@,
            ) && exists|rec: &mut InfoRecorder<InfoReplay>|
                #[trigger] starts_on(*rec, st.0) && st.1@ == final(rec).recorded()
                    && st.1.span_list() == final(rec).recorded_spans() by {
            let w = choose|rec: &mut InfoRecorder<InfoReplay>|
                #[trigger] call_ensures(pred, (rec,), true) && starts_on(*rec, st.0)
                    && st.1@ == final(rec).recorded()
                    && st.1.span_list() == final(rec).recorded_spans();
            lemma_recorder_drawn_is_recorded(*w);
            lemma_recorder_drawn_is_recorded(*final(w));
            assert(drawn_since(w.drawn(), final(w).drawn()) =~= final(w).recorded());
            assert(starts_on(*w, st.0));
        }
        assert forall|i: int|
            #![trigger shrink_candidates(r)[i]]
            0 <= i < shrink_candidates(r).len() implies hist.contains(shrink_candidates(r)[i])
                || exists|rec: &mut InfoRecorder<InfoReplay>|
                #[trigger] starts_on(*rec, shrink_candidates(r)[i]) && fails_check(
                    *gen,
                    check,
                    final(rec).recorded(),
                ) by {
            let c = shrink_candidates(r)[i];
            if !hist.contains(c) {
                assert(rejected(pred, c));
                let w = choose|rec: &mut InfoRecorder<InfoReplay>|
                    starts_on(*rec, c) && #[trigger] call_ensures(pred, (rec,), false);
                lemma_recorder_drawn_is_recorded(*w);
                lemma_recorder_drawn_is_recorded(*final(w));
                assert(drawn_since(w.drawn(), final(w).drawn()) =~= final(w).recorded());
            }
        }
        assert(forall|i: int|
                #![trigger shrink_candidates(r)[i]]
                0 <= i < shrink_candidates(r).len() ==> hist.contains(shrink_candidates(r)[i])
                    || exists|rec: &mut InfoRecorder<InfoReplay>|
                    #[trigger] starts_on(*rec, shrink_candidates(r)[i]) && fails_check(
                        *gen,
                        check,
                        final(rec).recorded(),
                    ));
    }
    r
}

/// Whether what `g` draws, and what it makes of it, is decided by the bytes
/// it is offered: of two draws, one the start of the other, both are the
/// same draw with the same outcome.
pub open spec fn deterministic<G: Generator>(g: G) -> bool {
    forall|d1: Seq<u8>, d2: Seq<u8>, r1: Maybe<G::Item>, r2: Maybe<G::Item>|
        #![trigger g.generates(d1, r1), g.generates(d2, r2)]
        g.generates(d1, r1) && g.generates(d2, r2) && d1.is_prefix_of(d2) ==> d1 == d2 && r1 == r2
}

/// Two draws of the same length, one the start of the other, are the same.
pub proof fn lemma_prefix_same_len(d1: Seq<u8>, d2: Seq<u8>)
    requires
        d1.is_prefix_of(d2),
        d1.len() == d2.len(),
    ensures
        d1 == d2,
{
    assert(d1 =~= d2);
}

/// Booleans give the same value for the same bytes.
pub proof fn law_booleans_deterministic(g: BoolGenerator)
    ensures
        deterministic(g),
{
    assert forall|d1: Seq<u8>, d2: Seq<u8>, r1: Maybe<bool>, r2: Maybe<bool>|
        g.generates(d1, r1) && g.generates(d2, r2) && d1.is_prefix_of(d2) implies d1 == d2 && r1
        == r2 by {
        lemma_prefix_same_len(d1, d2);
    }
}

/// A weighted coin gives the same value for the same bytes.
pub proof fn law_weighted_coin_deterministic(g: WeightedCoinGenerator)
    ensures
        deterministic(g),
{
    assert forall|d1: Seq<u8>, d2: Seq<u8>, r1: Maybe<bool>, r2: Maybe<bool>|
        g.generates(d1, r1) && g.generates(d2, r2) && d1.is_prefix_of(d2) implies d1 == d2 && r1
        == r2 by {
        lemma_prefix_same_len(d1, d2);
    }
}

/// A deterministic generator makes the same of one pool each time: the
/// pool's bytes, followed by as many zeros as it draws past their end.
pub proof fn law_generate_from_deterministic<G: Generator>(
    g: G,
    pool: Seq<u8>,
    n1: nat,
    n2: nat,
    r1: Maybe<G::Item>,
    r2: Maybe<G::Item>,
)
    requires
        deterministic(g),
        g.generates(padded(pool, n1), r1),
        g.generates(padded(pool, n2), r2),
    ensures
        n1 == n2,
        r1 == r2,
{
    if n1 <= n2 {
        assert(padded(pool, n1).is_prefix_of(padded(pool, n2)));
    } else {
        assert(padded(pool, n2).is_prefix_of(padded(pool, n1)));
    }
}

/// Booleans preserve the order of the bytes they are drawn from: false
/// comes before true.
pub proof fn law_booleans_monotone(g: BoolGenerator, d0: Seq<u8>, d1: Seq<u8>, b0: bool, b1: bool)
    requires
        g.generates(d0, Ok(b0)),
        g.generates(d1, Ok(b1)),
        bytes_le(d0, d1),
    ensures
        b0 ==> b1,
{
    if !d0.is_prefix_of(d1) {
        let i = choose|i: int|
            0 <= i < d0.len() && i < d1.len() && d0.take(i) == d1.take(i) && #[trigger] d0[i]
                < d1[i];
        assert(i == 0);
    }
}

/// Where the coin of an optional value stopped drawing, and what it said.
spec fn optional_head<B: Generator<Item = bool>, G: Generator>(
    g: OptionalGenerator<B, G>,
    d: Seq<u8>,
    r: Maybe<Option<G::Item>>,
) -> (int, Maybe<bool>) {
    let k = choose|k: int|
        0 <= k <= d.len() && #[trigger] optional_parts(g.coins(), g.inner(), d.take(k), d.skip(k), r);
    match r {
        Ok(Some(_)) => (k, Ok(true)),
        Ok(None) => (k, Ok(false)),
        Err(e) => if g.coins().generates(d.take(k), Err(e)) {
            (k, Err(e))
        } else {
            (k, Ok(true))
        },
    }
}

/// Optional values of deterministic generators are the same for the same
/// bytes.
pub proof fn law_optionals_deterministic<B: Generator<Item = bool>, G: Generator>(
    g: OptionalGenerator<B, G>,
)
    requires
        deterministic(g.coins()),
        deterministic(g.inner()),
    ensures
        deterministic(g),
{
    assert forall|d1: Seq<u8>, d2: Seq<u8>, r1: Maybe<Option<G::Item>>, r2: Maybe<Option<G::Item>>|
        g.generates(d1, r1) && g.generates(d2, r2) && d1.is_prefix_of(d2) implies d1 == d2 && r1
        == r2 by {
        let (k1, c1) = optional_head(g, d1, r1);
        let (k2, c2) = optional_head(g, d2, r2);
        assert(0 <= k1 <= d1.len() && g.coins().generates(d1.take(k1), c1));
        assert(0 <= k2 <= d2.len() && g.coins().generates(d2.take(k2), c2));
        if k1 <= k2 {
            assert(d1.take(k1).is_prefix_of(d2.take(k2)));
        } else {
            assert(d2.take(k2).is_prefix_of(d1.take(k1)));
        }
        assert(d1.take(k1) == d2.take(k2) && c1 == c2);
        assert(k1 == k2);
        assert(d1.skip(k1).is_prefix_of(d2.skip(k2)));
        assert(d1 =~= d1.take(k1) + d1.skip(k1));
        assert(d2 =~= d2.take(k2) + d2.skip(k2));
        if c1 == Ok::<bool, DataError>(false) {
            assert(d1.skip(k1).len() == 0 && d2.skip(k2).len() == 0);
        }
    }
}

/// Results of deterministic generators are the same for the same bytes.
pub proof fn law_results_deterministic<G: Generator, H: Generator>(g: ResultGenerator<G, H>)
    requires
        deterministic(g.ok_source()),
        deterministic(g.err_source()),
    ensures
        deterministic(g),
{
    assert forall|
        d1: Seq<u8>,
        d2: Seq<u8>,
        r1: Maybe<Result<G::Item, H::Item>>,
        r2: Maybe<Result<G::Item, H::Item>>,
    | g.generates(d1, r1) && g.generates(d2, r2) && d1.is_prefix_of(d2) implies d1 == d2 && r1
        == r2 by {
        assert(d1[0] == d2[0]);
        assert(d1.skip(1).is_prefix_of(d2.skip(1)));
        let (s1, s2): (Maybe<G::Item>, Maybe<G::Item>) = (
            match r1 {
                Ok(Ok(x)) => Ok(x),
                Err(e) => Err(e),
                Ok(Err(_)) => Err(DataError::SkipItem),
            },
            match r2 {
                Ok(Ok(x)) => Ok(x),
                Err(e) => Err(e),
                Ok(Err(_)) => Err(DataError::SkipItem),
            },
        );
        let (t1, t2): (Maybe<H::Item>, Maybe<H::Item>) = (
            match r1 {
                Ok(Err(x)) => Ok(x),
                Err(e) => Err(e),
                Ok(Ok(_)) => Err(DataError::SkipItem),
            },
            match r2 {
                Ok(Err(x)) => Ok(x),
                Err(e) => Err(e),
                Ok(Ok(_)) => Err(DataError::SkipItem),
            },
        );
        if d1[0] >= 0x80 {
            assert(g.err_source().generates(d1.skip(1), t1));
            assert(g.err_source().generates(d2.skip(1), t2));
        } else {
            assert(g.ok_source().generates(d1.skip(1), s1));
            assert(g.ok_source().generates(d2.skip(1), s2));
        }
        assert(d1 =~= d1.take(1) + d1.skip(1));
        assert(d2 =~= d2.take(1) + d2.skip(1));
        assert(d1.take(1) =~= d2.take(1));
    }
}

/// A weighted coin preserves the order of the bytes it is drawn from: false
/// comes before true.
pub proof fn law_weighted_coin_monotone(
    g: WeightedCoinGenerator,
    d0: Seq<u8>,
    d1: Seq<u8>,
    b0: bool,
    b1: bool,
)
    requires
        g.generates(d0, Ok(b0)),
        g.generates(d1, Ok(b1)),
        bytes_le(d0, d1),
    ensures
        b0 ==> b1,
{
    lemma_be_value_monotone(d0, d1);
}

} // verus!
