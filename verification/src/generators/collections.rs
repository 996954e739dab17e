use crate::data::source::{
    count_at, drawn_since, lemma_count_added, lemma_draw_adds_one, lemma_drawn_since_concat,
    regions_kept, DataError, Draw, InfoPool, InfoSource, Span,
};
use crate::generators::base::{
    deterministic, optional_by, optional_parts, Generator, Maybe, OptionalGenerator,
    WeightedCoinGenerator,
};
use crate::generators::numbers::{
    be_value, lemma_be_value_bound, u8s, uptos, usize_bytes, usizes, ScaleInt,
};
use vstd::arithmetic::power2::lemma2_to64_rest;
use std::collections::{BTreeMap, BTreeSet, HashMap, HashSet, VecDeque};
use std::hash::Hash;
use vstd::laws_cmp::obeys_cmp;
use vstd::std_specs::hash::obeys_key_model;
use std::marker::PhantomData;
use vstd::prelude::*;

verus! {

/// The threshold of a coin that gives true with probability
/// `mean / (mean + 1)`: a run of such coins, stopped at the first false,
/// holds `mean` trues on average. The threshold is never below one, so that
/// a drawn zero always ends the run.
pub open spec fn mean_threshold(mean: nat) -> nat {
    if mean + 1 > 0x1_0000_0000nat {
        1
    } else {
        0x1_0000_0000nat / (mean + 1)
    }
}

/// The coin that ends a collection with the given mean length.
fn coin_for_mean(mean: usize) -> (r: WeightedCoinGenerator)
    ensures
        r.threshold() == mean_threshold(mean as nat),
{
    let denom: u128 = mean as u128 + 1;
    if denom > 0x1_0000_0000u128 {
        return WeightedCoinGenerator::with_threshold(1);
    }
    let t: u128 = 0x1_0000_0000u128 / denom;
    assert(t <= 0x1_0000_0000) by (nonlinear_arith)
        requires
            t == 0x1_0000_0000u128 / denom,
            denom >= 1,
    ;
    WeightedCoinGenerator::with_threshold(t as u64)
}

/// Whether the four bytes `d` make `coin` come up as `b`.
pub open spec fn coin_says(coin: WeightedCoinGenerator, d: Seq<u8>, b: bool) -> bool {
    d.len() == 4 && (be_value(d) >= coin.threshold()) == b
}

/// Whether the bytes `d` are those drawn for the items `s` of a collection:
/// for each item in turn, a coin that says true followed by the bytes from
/// which `inner` generated the item.
#[verifier::opaque]
pub open spec fn collection_items<G: Generator>(
    coin: WeightedCoinGenerator,
    inner: G,
    d: Seq<u8>,
    s: Seq<G::Item>,
) -> bool
    decreases s.len(),
{
    if s.len() == 0 {
        d.len() == 0
    } else {
        exists|k: int|
            0 <= k && k + 4 <= d.len() && collection_items(
                coin,
                inner,
                #[trigger] d.take(k),
                s.drop_last(),
            ) && coin_says(coin, d.subrange(k, k + 4), true) && inner.generates(
                d.skip(k + 4),
                Ok(s.last()),
            )
    }
}

/// Whether the bytes `d`, drawn after those of the items `s`, end the
/// collection with the outcome `r`: `Ok` when the coin says false, an error
/// when the item after the coin fails, or `PoolExhausted`, drawing nothing,
/// when `s` already holds as many items as a `Vec` can.
pub open spec fn collection_end<G: Generator>(
    coin: WeightedCoinGenerator,
    inner: G,
    d: Seq<u8>,
    s: Seq<G::Item>,
    r: Maybe<Seq<G::Item>>,
) -> bool {
    match r {
        Ok(v) => v == s && s.len() < usize::MAX && coin_says(coin, d, false),
        Err(e) => {
            ||| (s.len() < usize::MAX && d.len() >= 4 && coin_says(coin, d.take(4), true)
                && inner.generates(d.skip(4), Err(e)))
            ||| (e == DataError::PoolExhausted && s.len() == usize::MAX && d.len() == 0)
        },
    }
}

/// Whether drawing the bytes `d` may give the collection `r`, the items by
/// `inner` and the decision to go on by `coin`.
pub open spec fn collection_generates<G: Generator>(
    coin: WeightedCoinGenerator,
    inner: G,
    d: Seq<u8>,
    r: Maybe<Seq<G::Item>>,
) -> bool {
    exists|k: int, s: Seq<G::Item>|
        0 <= k <= d.len() && #[trigger] collection_items(coin, inner, d.take(k), s)
            && collection_end(coin, inner, d.skip(k), s, r)
}

/// Bytes for the items `s`, then a coin that says true and the bytes of
/// one more item `v`, are the bytes for the items `s` and `v`.
proof fn lemma_items_push<G: Generator>(
    coin: WeightedCoinGenerator,
    inner: G,
    d: Seq<u8>,
    s: Seq<G::Item>,
    k: int,
    v: G::Item,
)
    requires
        0 <= k,
        k + 4 <= d.len(),
        collection_items(coin, inner, d.take(k), s),
        coin_says(coin, d.subrange(k, k + 4), true),
        inner.generates(d.skip(k + 4), Ok(v)),
    ensures
        collection_items(coin, inner, d, s.push(v)),
{
    reveal(collection_items);
    assert(s.push(v).drop_last() =~= s);
    assert(s.push(v).last() == v);
    assert(collection_items(coin, inner, d.take(k), s.push(v).drop_last()));
}

/// What one draw of the coin and item gives, in terms of the bytes drawn.
proof fn lemma_step<G: Generator>(
    coin: WeightedCoinGenerator,
    inner: G,
    d: Seq<u8>,
    r: Maybe<Option<G::Item>>,
)
    requires
        exists|j: int|
            0 <= j <= d.len() && #[trigger] optional_parts(
                coin,
                &inner,
                d.take(j),
                d.skip(j),
                r,
            ),
    ensures
        r matches Ok(Some(v)) ==> d.len() >= 4 && coin_says(coin, d.take(4), true)
            && inner.generates(d.skip(4), Ok(v)),
        r matches Ok(None) ==> coin_says(coin, d, false),
        r matches Err(e) ==> d.len() >= 4 && coin_says(coin, d.take(4), true) && inner.generates(
            d.skip(4),
            Err(e),
        ),
{
    let j = choose|j: int|
        0 <= j <= d.len() && #[trigger] optional_parts(coin, &inner, d.take(j), d.skip(j), r);
    assert(d.take(j).len() == 4);
    assert(d.take(4) =~= d.take(j));
    if r is Ok && r->Ok_0 is None {
        assert(d =~= d.take(j));
    }
}

/// Draws the items of a collection from `src`: each is preceded by a coin
/// that says whether there is one more.
fn draw_items<G: Generator, I: InfoSource>(
    coin: WeightedCoinGenerator,
    inner: &G,
    src: &mut I,
) -> (r: Maybe<Vec<G::Item>>)
    requires
        inner.wf(),
    ensures
        old(src).drawn().is_prefix_of((*final(src)).drawn()),
        (*final(src)).origin() == old(src).origin(),
        collection_generates(
            coin,
            *inner,
            drawn_since(old(src).drawn(), (*final(src)).drawn()),
            match r {
                Ok(v) => Ok(v@),
                Err(e) => Err(e),
            },
        ),
        regions_kept(*old(src), *final(src)),
        old(src).keeps_regions() ==> (r matches Ok(v) ==> count_at(
            (*final(src)).region_log().skip(old(src).region_log().len() as int),
            old(src).region_stack().len(),
        ) == v.len() + 1),
{
    let ghost log0 = src.region_log();
    let ghost depth = src.region_stack().len();
    let opts: OptionalGenerator<WeightedCoinGenerator, &G> = optional_by(coin, inner);
    let mut result: Vec<G::Item> = Vec::new();
    let ghost d0 = src.drawn();
    assert(src.region_log().skip(log0.len() as int) =~= Seq::<Span>::empty());
    assert(collection_items(coin, *inner, drawn_since(d0, d0), result@)) by {
        reveal(collection_items);
        assert(drawn_since(d0, d0) =~= Seq::<u8>::empty());
    }
    loop
        invariant
            inner.wf(),
            opts.coins() == coin,
            opts.inner() == inner,
            d0 == old(src).drawn(),
            d0.is_prefix_of(src.drawn()),
            src.origin() == old(src).origin(),
            collection_items(coin, *inner, drawn_since(d0, src.drawn()), result@),
            regions_kept(*old(src), *src),
            log0 == old(src).region_log(),
            depth == old(src).region_stack().len(),
            old(src).keeps_regions() ==> count_at(
                src.region_log().skip(log0.len() as int),
                depth,
            ) == result.len(),
        decreases usize::MAX - result.len(),
    {
        let ghost d1 = src.drawn();
        let ghost log1 = src.region_log();
        let ghost k = d1.len() - d0.len();
        if result.len() == usize::MAX {
            proof {
                let d = drawn_since(d0, d1);
                assert(d.take(k) =~= d);
                assert(d.skip(k) =~= Seq::<u8>::empty());
                assert(collection_end(coin, *inner, d.skip(k), result@, Err(DataError::PoolExhausted)));
            }
            return Err(DataError::PoolExhausted);
        }
        let step = src.draw(&opts);
        let ghost d2 = src.drawn();
        proof {
            if old(src).keeps_regions() {
                let log2 = src.region_log();
                lemma_draw_adds_one(log1, log2, depth);
                lemma_count_added(log0, log1, log2, depth, depth);
            }
            lemma_drawn_since_concat(d0, d1, d2);
            lemma_step(coin, *inner, drawn_since(d1, d2), step);
        }
        match step {
            Ok(Some(item)) => {
                proof {
                    let d = drawn_since(d0, d2);
                    assert(d.subrange(k, k + 4) =~= drawn_since(d1, d2).take(4));
                    assert(d.skip(k + 4) =~= drawn_since(d1, d2).skip(4));
                    lemma_items_push(coin, *inner, d, result@, k, item);
                }
                result.push(item);
            },
            Ok(None) => {
                proof {
                    let d = drawn_since(d0, d2);
                    assert(collection_items(coin, *inner, d.take(k), result@));
                    assert(collection_end(coin, *inner, d.skip(k), result@, Ok(result@)));
                }
                return Ok(result);
            },
            Err(e) => {
                proof {
                    let d = drawn_since(d0, d2);
                    assert(collection_items(coin, *inner, d.take(k), result@));
                    assert(collection_end(coin, *inner, d.skip(k), result@, Err(e)));
                }
                return Err(e);
            },
        }
    }
}

/// See [`vecs`](fn.vecs.html)
#[derive(Debug, Clone)]
pub struct VecGenerator<G> {
    inner: G,
    coin: WeightedCoinGenerator,
}

impl<G> VecGenerator<G> {
    /// The generator of the items.
    pub closed spec fn inner(&self) -> G {
        self.inner
    }

    /// The coin that decides whether one more item follows.
    pub closed spec fn coin(&self) -> WeightedCoinGenerator {
        self.coin
    }

    /// Specify the mean length of the vector.
    pub fn mean_length(self, mean: usize) -> (r: Self)
        ensures
            r.inner() == self.inner(),
            r.coin().threshold() == mean_threshold(mean as nat),
    {
        VecGenerator { inner: self.inner, coin: coin_for_mean(mean) }
    }
}

/// Generates vectors with items given by `inner`, ten of them on average.
pub fn vecs<G>(inner: G) -> (r: VecGenerator<G>)
    ensures
        r.inner() == inner,
        r.coin().threshold() == mean_threshold(10),
{
    VecGenerator { inner, coin: coin_for_mean(10) }
}

impl<G: Generator> Generator for VecGenerator<G> {
    type Item = Vec<G::Item>;

    open spec fn wf(&self) -> bool {
        self.inner().wf()
    }

    open spec fn generates(&self, d: Seq<u8>, r: Maybe<Vec<G::Item>>) -> bool {
        collection_generates(
            self.coin(),
            self.inner(),
            d,
            match r {
                Ok(v) => Ok(v@),
                Err(e) => Err(e),
            },
        )
    }

    /// On a source that records regions, each item is drawn in a region of
    /// its own, and the end of the vector in one more.
    fn generate<I: InfoSource>(&self, src: &mut I) -> (r: Maybe<Vec<G::Item>>)
        ensures
            old(src).keeps_regions() ==> (r matches Ok(v) ==> count_at(
                (*final(src)).region_log().skip(old(src).region_log().len() as int),
                old(src).region_stack().len(),
            ) == v.len() + 1),
    {
        draw_items(self.coin, &self.inner, src)
    }
}

/// See [`info_pools`](fn.info_pools.html)
#[derive(Debug, Clone)]
pub struct InfoPoolGenerator(usize);

impl InfoPoolGenerator {
    /// The number of bytes in each pool.
    pub closed spec fn size(&self) -> usize {
        self.0
    }
}

/// Randomly generates an info-pool (mostly used for testing generators):
/// one of `len` bytes, each drawn as a `u8`.
pub fn info_pools(len: usize) -> (r: InfoPoolGenerator)
    ensures
        r.size() == len,
{
    InfoPoolGenerator(len)
}

impl Generator for InfoPoolGenerator {
    type Item = InfoPool;

    open spec fn wf(&self) -> bool {
        true
    }

    open spec fn generates(&self, d: Seq<u8>, r: Maybe<InfoPool>) -> bool {
        d.len() == self.size() && match r {
            Ok(p) => p@ == d && p.span_list() == Seq::<Span>::empty(),
            Err(_) => false,
        }
    }

    fn generate<I: InfoSource>(&self, src: &mut I) -> (r: Maybe<InfoPool>) {
        let ghost d0 = src.drawn();
        let mut result: Vec<u8> = Vec::new();
        let vals = u8s();
        let n = self.0;
        let mut i: usize = 0;
        assert(drawn_since(d0, d0) =~= Seq::<u8>::empty());
        while i < n
            invariant
                i <= n,
                d0 == old(src).drawn(),
                d0.is_prefix_of(src.drawn()),
                src.origin() == old(src).origin(),
                result@ == drawn_since(d0, src.drawn()),
                result@.len() == i,
                regions_kept(*old(src), *src),
            decreases n - i,
        {
            let ghost d1 = src.drawn();
            let item = match vals.generate(src) {
                Ok(v) => v,
                Err(e) => {
                    return Err(e);
                },
            };
            proof {
                let d2 = src.drawn();
                lemma_drawn_since_concat(d0, d1, d2);
                let b = drawn_since(d1, d2);
                assert(b.drop_last() =~= Seq::<u8>::empty());
                assert(be_value(b.drop_last()) == 0);
                assert(be_value(b) == b[0]);
                assert(b =~= seq![item]);
                assert(result@.push(item) =~= drawn_since(d0, d2));
            }
            result.push(item);
            i = i + 1;
        }
        Ok(InfoPool::of_vec(result))
    }
}

/// Whether the order of `T` is a total order that agrees with equality, as
/// the ordered collections need.
pub open spec fn well_ordered<T: Ord>() -> bool {
    obeys_cmp::<T>()
}

/// The set `s` with each of `items` added.
pub open spec fn set_with_all<T>(s: Set<T>, items: Seq<T>) -> Set<T>
    decreases items.len(),
{
    if items.len() == 0 {
        s
    } else {
        set_with_all(s, items.drop_last()).insert(items.last())
    }
}

/// The map `m` with each of the pairs `items` inserted in turn, a later
/// pair for a key replacing an earlier one.
pub open spec fn map_with_all<K, V>(m: Map<K, V>, items: Seq<(K, V)>) -> Map<K, V>
    decreases items.len(),
{
    if items.len() == 0 {
        m
    } else {
        map_with_all(m, items.drop_last()).insert(items.last().0, items.last().1)
    }
}

/// The set `s` with each of `a` then each of `b` added is the set with
/// each of `a + b` added.
pub proof fn lemma_set_with_all_concat<T>(s: Set<T>, a: Seq<T>, b: Seq<T>)
    ensures
        set_with_all(set_with_all(s, a), b) == set_with_all(s, a + b),
    decreases b.len(),
{
    if b.len() == 0 {
        assert(a + b =~= a);
    } else {
        lemma_set_with_all_concat(s, a, b.drop_last());
        assert((a + b).drop_last() =~= a + b.drop_last());
    }
}

/// The map `m` with each pair of `a` then each of `b` inserted is the map
/// with each of `a + b` inserted.
pub proof fn lemma_map_with_all_concat<K, V>(m: Map<K, V>, a: Seq<(K, V)>, b: Seq<(K, V)>)
    ensures
        map_with_all(map_with_all(m, a), b) == map_with_all(m, a + b),
    decreases b.len(),
{
    if b.len() == 0 {
        assert(a + b =~= a);
    } else {
        lemma_map_with_all_concat(m, a, b.drop_last());
        assert((a + b).drop_last() =~= a + b.drop_last());
    }
}

/// A collection that a [`CollectionGenerator`] can fill: it starts empty,
/// and is extended with the items generated, in order, as `Extend` does.
pub trait Collection<T>: Sized {
    /// Whether this collection is what adding the items `s`, in order, to an
    /// empty collection gives.
    spec fn holds(&self, s: Seq<T>) -> bool;

    /// An empty collection.
    fn empty() -> (r: Self)
        ensures
            r.holds(Seq::empty()),
    ;

    /// Adds `items` to the collection, in order.
    fn extend_with(&mut self, items: Vec<T>)
        ensures
            forall|s: Seq<T>| #[trigger] old(self).holds(s) ==> final(self).holds(s + items@),
    ;
}

impl<T> Collection<T> for Vec<T> {
    open spec fn holds(&self, s: Seq<T>) -> bool {
        self@ == s
    }

    fn empty() -> (r: Self)
        ensures
            r@ == Seq::<T>::empty(),
    {
        Vec::new()
    }

    fn extend_with(&mut self, items: Vec<T>)
        ensures
            final(self)@ == old(self)@ + items@,
    {
        let mut items = items;
        self.append(&mut items);
    }
}

impl<T> Collection<T> for VecDeque<T> {
    open spec fn holds(&self, s: Seq<T>) -> bool {
        self@ == s
    }

    fn empty() -> (r: Self)
        ensures
            r@ == Seq::<T>::empty(),
    {
        VecDeque::new()
    }

    /// Pushes each item at the back, in order.
    fn extend_with(&mut self, items: Vec<T>)
        ensures
            final(self)@ == old(self)@ + items@,
    {
        let ghost start = self@;
        let ghost all = items@;
        for x in it: items
            invariant
                self@ == start + it.seq().take(it.index() as int),
                it.seq() == all,
        {
            self.push_back(x);
            assert(start + it.seq().take(it.index() + 1) =~= (start + it.seq().take(
                it.index() as int,
            )).push(x));
        }
        assert(all.take(all.len() as int) =~= all);
    }
}

impl<T: Ord> Collection<T> for BTreeSet<T> {
    /// Where the order of `T` is a proper one, the set holds each item.
    open spec fn holds(&self, s: Seq<T>) -> bool {
        well_ordered::<T>() ==> self@ == set_with_all(Set::empty(), s)
    }

    fn empty() -> (r: Self)
        ensures
            r@ == Set::<T>::empty(),
    {
        BTreeSet::new()
    }

    /// Inserts each item, in order. What the set then holds is stated where
    /// the order of `T` is one.
    fn extend_with(&mut self, items: Vec<T>)
        ensures
            well_ordered::<T>() ==> final(self)@ == set_with_all(old(self)@, items@),
    {
        let ghost start = self@;
        let ghost all = items@;
        for x in it: items
            invariant
                well_ordered::<T>() ==> self@ == set_with_all(start, it.seq().take(it.index() as int)),
                it.seq() == all,
        {
            self.insert(x);
            assert(it.seq().take(it.index() + 1).drop_last() =~= it.seq().take(it.index() as int));
        }
        assert(all.take(all.len() as int) =~= all);
        proof {
            assert forall|s: Seq<T>| #[trigger] old(self).holds(s) implies self.holds(s + all) by {
                lemma_set_with_all_concat(Set::empty(), s, all);
            }
        }
    }
}

impl<K: Ord, V> Collection<(K, V)> for BTreeMap<K, V> {
    /// Where the order of `K` is a proper one, the map holds each pair, a
    /// later pair for a key replacing an earlier one.
    open spec fn holds(&self, s: Seq<(K, V)>) -> bool {
        well_ordered::<K>() ==> self@ == map_with_all(Map::empty(), s)
    }

    fn empty() -> (r: Self)
        ensures
            r@ == Map::<K, V>::empty(),
    {
        BTreeMap::new()
    }

    /// Inserts each pair, in order. What the map then holds is stated where
    /// the order of `K` is one.
    fn extend_with(&mut self, items: Vec<(K, V)>)
        ensures
            well_ordered::<K>() ==> final(self)@ == map_with_all(old(self)@, items@),
    {
        let ghost start = self@;
        let ghost all = items@;
        for x in it: items
            invariant
                well_ordered::<K>() ==> self@ == map_with_all(start, it.seq().take(it.index() as int)),
                it.seq() == all,
        {
            let (k, v) = x;
            self.insert(k, v);
            assert(it.seq().take(it.index() + 1).drop_last() =~= it.seq().take(it.index() as int));
        }
        assert(all.take(all.len() as int) =~= all);
        proof {
            assert forall|s: Seq<(K, V)>| #[trigger] old(self).holds(s) implies self.holds(s + all) by {
                lemma_map_with_all_concat(Map::empty(), s, all);
            }
        }
    }
}

impl<T: Eq + Hash> Collection<T> for HashSet<T> {
    /// Where `T` hashes and compares as a key should, the set holds each
    /// item.
    open spec fn holds(&self, s: Seq<T>) -> bool {
        obeys_key_model::<T>() ==> self@ == set_with_all(Set::empty(), s)
    }

    fn empty() -> (r: Self)
        ensures
            r@ == Set::<T>::empty(),
    {
        HashSet::new()
    }

    /// Inserts each item, in order. What the set then holds is stated where
    /// `T` hashes and compares as a key should.
    fn extend_with(&mut self, items: Vec<T>)
        ensures
            obeys_key_model::<T>() ==> final(self)@ == set_with_all(old(self)@, items@),
    {
        broadcast use vstd::std_specs::hash::axiom_random_state_builds_valid_hashers;

        let ghost start = self@;
        let ghost all = items@;
        for x in it: items
            invariant
                obeys_key_model::<T>() ==> self@ == set_with_all(
                    start,
                    it.seq().take(it.index() as int),
                ),
                it.seq() == all,
        {
            self.insert(x);
            assert(it.seq().take(it.index() + 1).drop_last() =~= it.seq().take(it.index() as int));
        }
        assert(all.take(all.len() as int) =~= all);
        proof {
            assert forall|s: Seq<T>| #[trigger] old(self).holds(s) implies self.holds(s + all) by {
                lemma_set_with_all_concat(Set::empty(), s, all);
            }
        }
    }
}

impl<K: Eq + Hash, V> Collection<(K, V)> for HashMap<K, V> {
    /// Where `K` hashes and compares as a key should, the map holds each
    /// pair, a later pair for a key replacing an earlier one.
    open spec fn holds(&self, s: Seq<(K, V)>) -> bool {
        obeys_key_model::<K>() ==> self@ == map_with_all(Map::empty(), s)
    }

    fn empty() -> (r: Self)
        ensures
            r@ == Map::<K, V>::empty(),
    {
        HashMap::new()
    }

    /// Inserts each pair, in order. What the map then holds is stated where
    /// `K` hashes and compares as a key should.
    fn extend_with(&mut self, items: Vec<(K, V)>)
        ensures
            obeys_key_model::<K>() ==> final(self)@ == map_with_all(old(self)@, items@),
    {
        broadcast use vstd::std_specs::hash::axiom_random_state_builds_valid_hashers;

        let ghost start = self@;
        let ghost all = items@;
        for x in it: items
            invariant
                obeys_key_model::<K>() ==> self@ == map_with_all(
                    start,
                    it.seq().take(it.index() as int),
                ),
                it.seq() == all,
        {
            let (k, v) = x;
            self.insert(k, v);
            assert(it.seq().take(it.index() + 1).drop_last() =~= it.seq().take(it.index() as int));
        }
        assert(all.take(all.len() as int) =~= all);
        proof {
            assert forall|s: Seq<(K, V)>| #[trigger] old(self).holds(s) implies self.holds(s + all) by {
                lemma_map_with_all_concat(Map::empty(), s, all);
            }
        }
    }
}

/// See [`collections`](fn.collections.html)
#[derive(Debug)]
pub struct CollectionGenerator<C, G> {
    witness: PhantomData<C>,
    inner: G,
    coin: WeightedCoinGenerator,
}

impl<C, G: Clone> Clone for CollectionGenerator<C, G> {
    fn clone(&self) -> (r: Self)
        ensures
            r.coin() == self.coin(),
            cloned(self.inner(), r.inner()),
    {
        CollectionGenerator { witness: PhantomData, inner: self.inner.clone(), coin: self.coin }
    }
}

impl<C, G> CollectionGenerator<C, G> {
    /// The generator of the items.
    pub closed spec fn inner(&self) -> G {
        self.inner
    }

    /// The coin that decides whether one more item follows.
    pub closed spec fn coin(&self) -> WeightedCoinGenerator {
        self.coin
    }

    /// Specify the mean number of _generated_ items. For collections with
    /// set semantics, this many not be the same as the mean size of the
    /// collection.
    pub fn mean_length(self, mean: usize) -> (r: Self)
        ensures
            r.inner() == self.inner(),
            r.coin().threshold() == mean_threshold(mean as nat),
    {
        CollectionGenerator { witness: PhantomData, inner: self.inner, coin: coin_for_mean(mean) }
    }
}

/// Generates a collection of the given type, populated with elements from
/// the item generator, sixteen of them on average.
pub fn collections<C: Collection<G::Item>, G: Generator>(item: G) -> (r: CollectionGenerator<C, G>)
    ensures
        r.inner() == item,
        r.coin().threshold() == mean_threshold(16),
{
    CollectionGenerator { witness: PhantomData, inner: item, coin: coin_for_mean(16) }
}

impl<G: Generator, C: Collection<G::Item>> Generator for CollectionGenerator<C, G> {
    type Item = C;

    open spec fn wf(&self) -> bool {
        self.inner().wf()
    }

    /// The items are drawn as for a `Vec`, and the collection holds them,
    /// as its `Collection` impl says.
    open spec fn generates(&self, d: Seq<u8>, r: Maybe<C>) -> bool {
        match r {
            Ok(c) => exists|s: Seq<G::Item>|
                #[trigger] collection_generates(self.coin(), self.inner(), d, Ok(s)) && c.holds(s),
            Err(e) => collection_generates(self.coin(), self.inner(), d, Err(e)),
        }
    }

    /// On a source that records regions, each item is drawn in a region of
    /// its own, and the end of the collection in one more.
    fn generate<I: InfoSource>(&self, src: &mut I) -> (r: Maybe<C>)
        ensures
            old(src).keeps_regions() ==> (r matches Ok(c) ==> exists|s: Seq<G::Item>|
                #[trigger] c.holds(s) && count_at(
                    (*final(src)).region_log().skip(old(src).region_log().len() as int),
                    old(src).region_stack().len(),
                ) == s.len() + 1),
    {
        let mut coll: C = C::empty();
        let items = match draw_items(self.coin, &self.inner, src) {
            Ok(items) => items,
            Err(e) => {
                return Err(e);
            },
        };
        let ghost s = items@;
        coll.extend_with(items);
        assert(Seq::<G::Item>::empty() + s =~= s);
        assert(collection_generates(
            self.coin(),
            self.inner(),
            drawn_since(old(src).drawn(), src.drawn()),
            Ok(s),
        ));
        Ok(coll)
    }
}

/// See [`choice`](fn.choice.html)
#[derive(Debug, Clone)]
pub struct ChoiceGenerator<T>(Vec<T>);

impl<T> ChoiceGenerator<T> {
    /// The items to choose from.
    pub closed spec fn items(&self) -> Seq<T> {
        self.0@
    }
}

/// Returns a random item from the array.
pub fn choice<T>(items: Vec<T>) -> (r: ChoiceGenerator<T>)
    ensures
        r.items() == items@,
{
    ChoiceGenerator(items)
}

/// The offset that a `usize` drawn as `d` picks among `len` items: the
/// drawn number scaled to the range from zero to `len`.
pub open spec fn choice_offset(d: Seq<u8>, len: nat) -> int {
    (be_value(d) as usize).scaled(len as usize) as int
}

impl<T: Clone> Generator for ChoiceGenerator<T> {
    type Item = T;

    open spec fn wf(&self) -> bool {
        true
    }

    /// An empty choice skips the item, drawing nothing; otherwise a `usize`
    /// drawn picks the item that is cloned.
    open spec fn generates(&self, d: Seq<u8>, r: Maybe<T>) -> bool {
        if self.items().len() == 0 {
            d.len() == 0 && r == Err::<T, DataError>(DataError::SkipItem)
        } else {
            d.len() == usize_bytes() && match r {
                Ok(x) => cloned(self.items()[choice_offset(d, self.items().len())], x),
                Err(_) => false,
            }
        }
    }

    fn generate<I: InfoSource>(&self, src: &mut I) -> (r: Maybe<T>) {
        let options = &self.0;
        if options.len() == 0 {
            assert(drawn_since(src.drawn(), src.drawn()) =~= Seq::<u8>::empty());
            return Err(DataError::SkipItem);
        }
        let len = options.len();
        let off = match src.draw(&uptos(usizes(), len)) {
            Ok(off) => off,
            Err(e) => {
                return Err(e);
            },
        };
        proof {
            let d = drawn_since(old(src).drawn(), src.drawn());
            let v = be_value(d) as usize;
            assert(off == v.scaled(len));
            assert(v * len / 0x1_0000_0000_0000_0000int < len) by (nonlinear_arith)
                requires
                    0 <= v < 0x1_0000_0000_0000_0000int,
                    len >= 1,
            ;
        }
        let res = options[off].clone();
        Ok(res)
    }
}

/// The bytes for a non-empty run of items, read from the front: a coin that
/// says true, the bytes of the first item, then those of the others.
proof fn lemma_items_front<G: Generator>(
    coin: WeightedCoinGenerator,
    inner: G,
    d: Seq<u8>,
    s: Seq<G::Item>,
) -> (j: int)
    requires
        s.len() > 0,
        collection_items(coin, inner, d, s),
    ensures
        4 <= j <= d.len(),
        coin_says(coin, d.take(4), true),
        inner.generates(d.subrange(4, j), Ok(s[0])),
        collection_items(coin, inner, d.skip(j), s.skip(1)),
    decreases s.len(),
{
    reveal(collection_items);
    let k = choose|k: int|
        0 <= k && k + 4 <= d.len() && collection_items(
            coin,
            inner,
            #[trigger] d.take(k),
            s.drop_last(),
        ) && coin_says(coin, d.subrange(k, k + 4), true) && inner.generates(
            d.skip(k + 4),
            Ok(s.last()),
        );
    if s.len() == 1 {
        assert(d.take(k).len() == 0);
        assert(k == 0);
        assert(d.take(4) =~= d.subrange(0, 4));
        assert(d.subrange(4, d.len() as int) =~= d.skip(4));
        assert(d.skip(d.len() as int) =~= Seq::<u8>::empty());
        assert(s.skip(1) =~= Seq::<G::Item>::empty());
        d.len() as int
    } else {
        let x = d.take(k);
        let j = lemma_items_front(coin, inner, x, s.drop_last());
        assert(x.take(4) =~= d.take(4));
        assert(x.subrange(4, j) =~= d.subrange(4, j));
        let t = d.skip(j);
        let m = k - j;
        assert(t.take(m) =~= x.skip(j));
        assert(s.drop_last().skip(1) =~= s.skip(1).drop_last());
        assert(t.subrange(m, m + 4) =~= d.subrange(k, k + 4));
        assert(t.skip(m + 4) =~= d.skip(k + 4));
        assert(s.skip(1).last() == s.last());
        lemma_items_push(coin, inner, t, s.skip(1).drop_last(), m, s.last());
        assert(s.skip(1).drop_last().push(s.last()) =~= s.skip(1));
        j
    }
}

/// Two strings that agree up to `j`, and go on with one the start of the
/// other, are one the start of the other.
proof fn lemma_join_prefix(x1: Seq<u8>, x2: Seq<u8>, j: int)
    requires
        0 <= j <= x1.len(),
        j <= x2.len(),
        x1.take(j) == x2.take(j),
        x1.skip(j).is_prefix_of(x2.skip(j)),
    ensures
        x1.is_prefix_of(x2),
{
    assert(x1.len() <= x2.len());
    assert forall|i: int| 0 <= i < x1.len() implies x1[i] == x2[i] by {
        if i < j {
            assert(x1.take(j)[i] == x1[i]);
            assert(x2.take(j)[i] == x2[i]);
        } else {
            let l = x1.skip(j).len() as int;
            assert(x1.skip(j)[i - j] == x1[i]);
            assert(x2.skip(j)[i - j] == x2[i]);
            assert(x2.skip(j).take(l) == x1.skip(j));
            assert(x2.skip(j).take(l)[i - j] == x2.skip(j)[i - j]);
        }
    }
    assert(x1 =~= x2.take(x1.len() as int));
}

/// Runs of items that agree on the first, and go on with one the start of
/// the other, are one the start of the other.
proof fn lemma_join_items<T>(s1: Seq<T>, s2: Seq<T>)
    requires
        1 <= s1.len() <= s2.len(),
        s1[0] == s2[0],
        s1.skip(1) == s2.skip(1).take(s1.len() - 1),
    ensures
        s1 == s2.take(s1.len() as int),
{
    assert forall|i: int| 0 <= i < s1.len() implies s1[i] == s2[i] by {
        if i > 0 {
            assert(s1.skip(1)[i - 1] == s1[i]);
            assert(s2.skip(1).take(s1.len() - 1)[i - 1] == s2.skip(1)[i - 1]);
            assert(s2.skip(1)[i - 1] == s2[i]);
        }
    }
    assert(s1 =~= s2.take(s1.len() as int));
}

/// Two runs of items drawn from the start of one stream `c` by a
/// deterministic `inner`: the shorter run is the start of the longer, drawn
/// from the start of its bytes.
proof fn lemma_items_unique<G: Generator>(
    coin: WeightedCoinGenerator,
    inner: G,
    c: Seq<u8>,
    x1: Seq<u8>,
    s1: Seq<G::Item>,
    x2: Seq<u8>,
    s2: Seq<G::Item>,
)
    requires
        deterministic(inner),
        x1.is_prefix_of(c),
        x2.is_prefix_of(c),
        collection_items(coin, inner, x1, s1),
        collection_items(coin, inner, x2, s2),
        s1.len() <= s2.len(),
    ensures
        s1 == s2.take(s1.len() as int),
        x1.is_prefix_of(x2),
        collection_items(coin, inner, x2.skip(x1.len() as int), s2.skip(s1.len() as int)),
    decreases s1.len(),
{
    if s1.len() == 0 {
        reveal(collection_items);
        assert(x1.len() == 0);
        assert(s1 =~= s2.take(0));
        assert(x2.skip(0) =~= x2);
        assert(s2.skip(0) =~= s2);
    } else {
        let j1 = lemma_items_front(coin, inner, x1, s1);
        let j2 = lemma_items_front(coin, inner, x2, s2);
        let c4 = c.skip(4);
        assert(x1.subrange(4, j1).is_prefix_of(c4));
        assert(x2.subrange(4, j2).is_prefix_of(c4));
        if j1 <= j2 {
            assert(x1.subrange(4, j1).is_prefix_of(x2.subrange(4, j2)));
        } else {
            assert(x2.subrange(4, j2).is_prefix_of(x1.subrange(4, j1)));
        }
        assert(x1.subrange(4, j1) == x2.subrange(4, j2));
        assert(s1[0] == s2[0]);
        let j = j1;
        assert(j1 == j2);
        assert(x1.skip(j).is_prefix_of(c.skip(j)));
        assert(x2.skip(j).is_prefix_of(c.skip(j)));
        lemma_items_unique(coin, inner, c.skip(j), x1.skip(j), s1.skip(1), x2.skip(j), s2.skip(1));
        lemma_join_items(s1, s2);
        assert(x1.take(j) =~= c.take(j));
        assert(x2.take(j) =~= c.take(j));
        lemma_join_prefix(x1, x2, j);
        assert(x2.skip(j).skip(x1.skip(j).len() as int) =~= x2.skip(x1.len() as int));
        assert(s2.skip(1).skip(s1.skip(1).len() as int) =~= s2.skip(s1.len() as int));
    }
}

/// The end of a run of items, and one more item after it, drawn from the
/// same place of a stream, cannot both be.
proof fn lemma_end_excludes_item<G: Generator>(
    coin: WeightedCoinGenerator,
    inner: G,
    c: Seq<u8>,
    e: Seq<u8>,
    s: Seq<G::Item>,
    r: Maybe<Seq<G::Item>>,
    y: Seq<u8>,
    t: Seq<G::Item>,
)
    requires
        deterministic(inner),
        e.is_prefix_of(c),
        y.is_prefix_of(c),
        s.len() < usize::MAX,
        t.len() > 0,
        collection_items(coin, inner, y, t),
    ensures
        !collection_end(coin, inner, e, s, r),
{
    if !collection_end(coin, inner, e, s, r) {
        return;
    }
    let j = lemma_items_front(coin, inner, y, t);
    assert(e.len() >= 4);
    assert(e.take(4) =~= c.take(4));
    assert(y.take(4) =~= c.take(4));
    match r {
        Ok(_) => {
            assert(e =~= e.take(4));
        },
        Err(err) => {
            let c4 = c.skip(4);
            assert(inner.generates(e.skip(4), Err(err)));
            assert(inner.generates(y.subrange(4, j), Ok(t[0])));
            assert(e.skip(4).is_prefix_of(c4));
            assert(y.subrange(4, j).is_prefix_of(c4));
            if e.len() <= j {
                assert(e.skip(4).is_prefix_of(y.subrange(4, j)));
            } else {
                assert(y.subrange(4, j).is_prefix_of(e.skip(4)));
            }
        },
    }
}

/// Two ends of the same run of items, one drawn from the start of the
/// other, are the same end with the same outcome.
proof fn lemma_ends_same<G: Generator>(
    coin: WeightedCoinGenerator,
    inner: G,
    e1: Seq<u8>,
    e2: Seq<u8>,
    s: Seq<G::Item>,
    r1: Maybe<Seq<G::Item>>,
    r2: Maybe<Seq<G::Item>>,
)
    requires
        deterministic(inner),
        e1.is_prefix_of(e2),
        collection_end(coin, inner, e1, s, r1),
        collection_end(coin, inner, e2, s, r2),
    ensures
        e1 == e2,
        r1 == r2,
{
    if s.len() < usize::MAX {
        assert(e1.take(4) =~= e2.take(4));
        match (r1, r2) {
            (Ok(_), Ok(_)) => {
                assert(e1 =~= e2);
            },
            (Ok(_), Err(_)) => {
                assert(e1 =~= e1.take(4));
            },
            (Err(_), Ok(_)) => {
                assert(e2 =~= e2.take(4));
            },
            (Err(x1), Err(x2)) => {
                assert(inner.generates(e1.skip(4), Err(x1)));
                assert(inner.generates(e2.skip(4), Err(x2)));
                assert(e1.skip(4).is_prefix_of(e2.skip(4)));
                assert(e1 =~= e1.take(4) + e1.skip(4));
                assert(e2 =~= e2.take(4) + e2.skip(4));
            },
        }
    }
}

/// The bytes drawn for a collection, and what is made of them, are decided
/// by the stream they are drawn from, when they are so for its items.
#[verifier::spinoff_prover]
#[verifier::rlimit(40)]
pub proof fn lemma_collection_deterministic<G: Generator>(
    coin: WeightedCoinGenerator,
    inner: G,
    d1: Seq<u8>,
    d2: Seq<u8>,
    r1: Maybe<Seq<G::Item>>,
    r2: Maybe<Seq<G::Item>>,
)
    requires
        deterministic(inner),
        collection_generates(coin, inner, d1, r1),
        collection_generates(coin, inner, d2, r2),
        d1.is_prefix_of(d2),
    ensures
        d1 == d2,
        r1 == r2,
{
    let (k1, s1) = choose|k: int, s: Seq<G::Item>|
        0 <= k <= d1.len() && #[trigger] collection_items(coin, inner, d1.take(k), s)
            && collection_end(coin, inner, d1.skip(k), s, r1);
    let (k2, s2) = choose|k: int, s: Seq<G::Item>|
        0 <= k <= d2.len() && #[trigger] collection_items(coin, inner, d2.take(k), s)
            && collection_end(coin, inner, d2.skip(k), s, r2);
    let x1 = d1.take(k1);
    let x2 = d2.take(k2);
    assert(s1 == s2 && x1 == x2) by {
        assert(x1.is_prefix_of(d2));
        if s1.len() <= s2.len() {
            lemma_items_unique(coin, inner, d2, x1, s1, x2, s2);
            if s1.len() < s2.len() {
                assert(d1.skip(k1).is_prefix_of(d2.skip(k1)));
                assert(x2.skip(k1).is_prefix_of(d2.skip(k1)));
                lemma_end_excludes_item(
                    coin,
                    inner,
                    d2.skip(k1),
                    d1.skip(k1),
                    s1,
                    r1,
                    x2.skip(k1),
                    s2.skip(s1.len() as int),
                );
            }
            assert(s2.skip(s1.len() as int) =~= Seq::<G::Item>::empty());
            assert(x2.skip(x1.len() as int).len() == 0) by {
                reveal(collection_items);
            }
            assert(x1 =~= x2);
            assert(s1 =~= s2);
        } else {
            lemma_items_unique(coin, inner, d2, x2, s2, x1, s1);
            assert(x1.skip(k2).is_prefix_of(d2.skip(k2)));
            lemma_end_excludes_item(
                coin,
                inner,
                d2.skip(k2),
                d2.skip(k2),
                s2,
                r2,
                x1.skip(k2),
                s1.skip(s2.len() as int),
            );
        }
    }
    assert(x1.len() == k1 && x2.len() == k2);
    assert(k1 == k2);
    let e1 = d1.skip(k1);
    let e2 = d2.skip(k1);
    assert(e1.is_prefix_of(e2));
    lemma_ends_same(coin, inner, e1, e2, s1, r1, r2);
    assert(d1 =~= x1 + e1);
    assert(d2 =~= x2 + e2);
}

/// Vectors are the same for the same bytes, when their items are: drawn
/// from one stream, they draw the same bytes and make the same vector of them.
pub proof fn law_vecs_deterministic<G: Generator>(
    g: VecGenerator<G>,
    d1: Seq<u8>,
    d2: Seq<u8>,
    r1: Maybe<Vec<G::Item>>,
    r2: Maybe<Vec<G::Item>>,
)
    requires
        deterministic(g.inner()),
        g.generates(d1, r1),
        g.generates(d2, r2),
        d1.is_prefix_of(d2),
    ensures
        d1 == d2,
        match (r1, r2) {
            (Ok(v1), Ok(v2)) => v1@ == v2@,
            (Err(e1), Err(e2)) => e1 == e2,
            _ => false,
        },
{
    let m1: Maybe<Seq<G::Item>> = match r1 {
        Ok(v) => Ok(v@),
        Err(e) => Err(e),
    };
    let m2: Maybe<Seq<G::Item>> = match r2 {
        Ok(v) => Ok(v@),
        Err(e) => Err(e),
    };
    lemma_collection_deterministic(g.coin(), g.inner(), d1, d2, m1, m2);
}

/// A choice picks one of its items: the offset drawn is in range.
pub proof fn law_choice_within_items<T: Clone>(g: ChoiceGenerator<T>, d: Seq<u8>, x: T)
    requires
        g.generates(d, Ok(x)),
    ensures
        0 <= choice_offset(d, g.items().len()) < g.items().len(),
{
    let len = g.items().len();
    lemma_be_value_bound(d);
    lemma2_to64_rest();
    let v = (be_value(d) as usize) as int;
    assert(v * len / 0x1_0000_0000_0000_0000int < len) by (nonlinear_arith)
        requires
            0 <= v < 0x1_0000_0000_0000_0000int,
            len >= 1,
    ;
    assert(v * len / 0x1_0000_0000_0000_0000int >= 0) by (nonlinear_arith)
        requires
            0 <= v,
            len >= 1,
    ;
}

/// Info pools are the same for the same bytes: drawn from one stream, they
/// draw the same bytes and hold them.
pub proof fn law_info_pools_deterministic(
    g: InfoPoolGenerator,
    d1: Seq<u8>,
    d2: Seq<u8>,
    p1: InfoPool,
    p2: InfoPool,
)
    requires
        g.generates(d1, Ok(p1)),
        g.generates(d2, Ok(p2)),
        d1.is_prefix_of(d2),
    ensures
        d1 == d2,
        p1@ == p2@,
{
    assert(d1 =~= d2);
}

/// A collection of `Vec`s is drawn as `vecs` with the same items and coin
/// draws: the same bytes give the same vector, or the same error.
pub proof fn law_vec_collections_are_vecs<G: Generator>(
    c: CollectionGenerator<Vec<G::Item>, G>,
    v: VecGenerator<G>,
)
    requires
        c.inner() == v.inner(),
        c.coin() == v.coin(),
    ensures
        forall|d: Seq<u8>, r: Maybe<Vec<G::Item>>| #[trigger] c.generates(d, r) <==> v.generates(d, r),
{
    assert forall|d: Seq<u8>, r: Maybe<Vec<G::Item>>| #[trigger] c.generates(d, r) <==> v.generates(
        d,
        r,
    ) by {
        if let Ok(x) = r {
            if v.generates(d, r) {
                assert(collection_generates(c.coin(), c.inner(), d, Ok(x@)) && x.holds(x@));
            }
        }
    }
}

} // verus!

