use rand::{random, Rng, SeedableRng};
use rand_xorshift::XorShiftRng;
use std::collections::{BTreeMap, BTreeSet, VecDeque};
use std::fmt;
use suppositions::data::{DataError, InfoPool, InfoRecorder, InfoSource, RngSource};
use suppositions::generators::{
    booleans, choice, collections, find_minimal, info_pools, u64s, u8s, vecs, Generator,
};

const SHORT_VEC_SIZE: usize = 256;

fn gen_random_vec() -> Vec<u8> {
    (0..SHORT_VEC_SIZE).map(|_| random()).collect::<Vec<u8>>()
}

fn unseeded_of_size(size: usize) -> InfoPool {
    let mut seed = [0u8; 16];
    for (i, w) in [0x193a6754u32, 0xa8a7d469, 0x97830e05, 0x113ba7bb].iter().enumerate() {
        seed[4 * i..4 * i + 4].copy_from_slice(&w.to_le_bytes());
    }
    let mut rng = XorShiftRng::from_seed(seed);
    InfoPool::of_vec((0..size).map(|_| rng.gen::<u8>()).collect::<Vec<u8>>())
}

fn should_generate_same_output_given_same_input<G: Generator>(gen: G)
where
    G::Item: fmt::Debug + PartialEq,
{
    let mut checked = 0;
    while checked < 100 {
        let v0 = gen_random_vec();
        let p0 = InfoPool::of_vec(v0.clone());
        let p1 = InfoPool::of_vec(v0);
        if let (Ok(v0), Ok(v1)) = (gen.generate(&mut p0.replay()), gen.generate(&mut p1.replay())) {
            assert!(v0 == v1, "({:?} == {:?}) -> ({:?} == {:?})", p0, p1, v0, v1);
            checked += 1;
        }
    }
}

fn usually_generates_different_output_for_different_inputs<G: Generator>(gen: G)
where
    G::Item: PartialEq,
{
    let nitems = 100;
    let mut pairs = Vec::new();
    while pairs.len() < nitems {
        let (v0, v1) = (gen_random_vec(), gen_random_vec());
        if v0 == v1 {
            continue;
        }
        let (p0, p1) = (InfoPool::of_vec(v0), InfoPool::of_vec(v1));
        if let (Ok(v0), Ok(v1)) = (gen.generate(&mut p0.replay()), gen.generate(&mut p1.replay())) {
            pairs.push((v0, v1));
        }
    }
    let differing = pairs.iter().filter(|&&(ref v0, ref v1)| v0 != v1).count();
    assert!(differing > 0, "Differing items:{} > 0", differing);
}

fn should_minimize_to<G: Generator>(gen: G, expected: G::Item)
where
    G::Item: fmt::Debug + PartialEq,
{
    let mut p;
    loop {
        p = InfoRecorder::new(RngSource::new());
        match gen.generate(&mut p) {
            Ok(_) => break,
            Err(DataError::SkipItem) => (),
            Err(DataError::PoolExhausted) => panic!("Not enough pool to generate data"),
        }
    }
    let p = p.into_pool();
    let p = find_minimal(&gen, p, |_| true);

    let val = gen.generate(&mut p.replay()).expect("generated value");
    assert_eq!(val, expected);
}

/// Counts the draws that the generator makes directly on the source it
/// wraps: the outermost regions it opens.
struct Tracer<'a, I: 'a> {
    inner: &'a mut I,
    child_draws: usize,
    depth: usize,
}

impl<'a, I> Tracer<'a, I> {
    fn new(inner: &'a mut I) -> Self {
        let child_draws = 0;
        Tracer { inner, child_draws, depth: 0 }
    }
}

impl<'a, I: InfoSource> InfoSource for Tracer<'a, I> {
    fn drawn(&self) -> suppositions::data::Bytes {
        unreachable!("the bytes drawn are a proof-time notion")
    }
    fn origin(&self) -> suppositions::data::Bytes {
        unreachable!("the bytes replayed are a proof-time notion")
    }
    fn draw_u8(&mut self) -> u8 {
        self.inner.draw_u8()
    }
    fn open_region(&mut self) {
        if self.depth == 0 {
            self.child_draws += 1;
        }
        self.depth += 1;
        self.inner.open_region()
    }
    fn close_region(&mut self) {
        self.depth -= 1;
        self.inner.close_region()
    }
}

fn mean_length_of<G: Generator>(gen: G, len: usize)
where
    G::Item: HasLen,
{
    let trials = 1024usize;
    let expected = len as f64;
    let allowed_error = expected * 0.1;
    let mut lengths = BTreeMap::new();
    let p = unseeded_of_size(1 << 18);
    let mut t = p.replay();
    for _ in 0..trials {
        let val = gen.generate(&mut t).expect("a trial");
        *lengths.entry(val.length()).or_insert(0) += 1;
    }

    println!("Histogram: {:?}", lengths);
    let mean: f64 = lengths.iter().map(|(&l, &n)| (l * n) as f64 / trials as f64).sum();
    assert!(
        mean >= (expected - allowed_error) && mean <= (expected + allowed_error),
        "Expected mean of {} trials ({}+/-{}); got {}",
        trials,
        expected,
        allowed_error,
        mean
    );
}

trait HasLen {
    fn length(&self) -> usize;
}

impl<T> HasLen for Vec<T> {
    fn length(&self) -> usize {
        self.len()
    }
}

impl<T> HasLen for VecDeque<T> {
    fn length(&self) -> usize {
        self.len()
    }
}

#[test]
fn collections_vecs_should_generate_same_output_given_same_input() {
    should_generate_same_output_given_same_input(vecs(booleans()));
}

#[test]
fn collections_vecs_usually_generates_different_output_for_different_inputs() {
    usually_generates_different_output_for_different_inputs(vecs(booleans()))
}

#[test]
fn vecs_records_at_least_as_many_leaves_as_elements() {
    let nitems = 100;
    let gen = vecs(booleans());
    for _ in 0..nitems {
        let mut src = RngSource::new();
        let mut rec = Tracer::new(&mut src);
        let val = gen.generate(&mut rec).expect("generate");

        assert!(
            rec.child_draws == val.len() + 1,
            "child_draws:{} == val.len:{}",
            rec.child_draws,
            val.len()
        );
    }
}

#[test]
fn collections_vec_bools_minimize_to_empty() {
    should_minimize_to(vecs(booleans()), vec![])
}

#[test]
fn collections_vec_bools_can_minimise_with_predicate() {
    should_minimize_to(vecs(booleans()).filter(|v| v.len() > 2), vec![false, false, false]);
}

#[test]
fn collections_info_pools_should_generate_same_output_given_same_input() {
    should_generate_same_output_given_same_input(info_pools(8))
}

#[test]
fn collections_info_pools_usually_generates_different_output_for_different_inputs() {
    usually_generates_different_output_for_different_inputs(info_pools(8))
}

#[test]
fn collections_info_pools_minimize_to_empty() {
    // We force the generator to output a fixed length.
    should_minimize_to(info_pools(8), InfoPool::of_vec(vec![0; 8]))
}

#[test]
fn collections_u64s_minimize_to_empty() {
    should_minimize_to(collections::<BTreeSet<_>, _>(u8s()), BTreeSet::new());
}

#[test]
fn collections_records_at_least_as_many_leaves_as_elements() {
    let nitems = 100;
    let gen = collections::<VecDeque<_>, _>(u64s());
    for _ in 0..nitems {
        let mut src = RngSource::new();
        let mut rec = Tracer::new(&mut src);
        let val = gen.generate(&mut rec).expect("generate");

        assert!(
            rec.child_draws == val.len() + 1,
            "child_draws:{} == val.len:{}",
            rec.child_draws,
            val.len()
        );
    }
}

#[test]
fn collections_mean_length_can_be_set_as_10() {
    mean_length_of(vecs(u8s()).mean_length(10), 10);
}

#[test]
fn collections_mean_length_can_be_set_as_3() {
    mean_length_of(vecs(u8s()).mean_length(3), 3);
}

#[test]
fn collections_mean_length_can_be_set_as_5() {
    mean_length_of(vecs(u8s()).mean_length(5), 5);
}

#[test]
fn collections_mean_length_can_be_set_as_7() {
    mean_length_of(vecs(u8s()).mean_length(7), 7);
}

#[test]
fn collections_mean_length_can_be_set_as_23() {
    mean_length_of(vecs(u8s()).mean_length(23), 23);
}

#[test]
fn collection_lengths_mean_length_can_be_set_as_10() {
    mean_length_of(collections::<VecDeque<_>, _>(u8s()).mean_length(10), 10);
}

#[test]
fn collection_lengths_mean_length_can_be_set_as_3() {
    mean_length_of(collections::<VecDeque<_>, _>(u8s()).mean_length(3), 3);
}

#[test]
fn collection_lengths_mean_length_can_be_set_as_5() {
    mean_length_of(collections::<VecDeque<_>, _>(u8s()).mean_length(5), 5);
}

#[test]
fn collection_lengths_mean_length_can_be_set_as_7() {
    mean_length_of(collections::<VecDeque<_>, _>(u8s()).mean_length(7), 7);
}

#[test]
fn collection_lengths_mean_length_can_be_set_as_23() {
    mean_length_of(collections::<VecDeque<_>, _>(u8s()).mean_length(23), 23);
}

#[test]
fn vecs_stop_at_the_first_false_coin() {
    let gen = vecs(u8s());
    // The default coin goes on while the u32 drawn is at least 2^32 / 11.
    let bytes = vec![0xff, 0xff, 0xff, 0xff, 7, 0xff, 0xff, 0xff, 0xff, 9, 0, 0, 0, 0];
    assert_eq!(gen.generate(&mut InfoPool::of_vec(bytes).replay()), Ok(vec![7, 9]));
    let empty = vec![0, 0, 0, 0];
    assert_eq!(gen.generate(&mut InfoPool::of_vec(empty).replay()), Ok(vec![]));
}

#[test]
fn mean_length_sets_the_coin() {
    // With a mean of one, the coin goes on while the u32 drawn is at least 2^31.
    let gen = vecs(u8s()).mean_length(1);
    let bytes = vec![0x80, 0, 0, 0, 5, 0x7f, 0xff, 0xff, 0xff];
    assert_eq!(gen.generate(&mut InfoPool::of_vec(bytes).replay()), Ok(vec![5]));
}

#[test]
fn info_pools_hold_the_bytes_drawn() {
    let gen = info_pools(3);
    let p = gen.generate(&mut InfoPool::of_vec(vec![1, 2, 3, 4]).replay()).expect("a pool");
    assert_eq!(p.buffer(), &[1, 2, 3]);
}

#[test]
fn choice_picks_by_the_scaled_usize() {
    let gen = choice(vec!['a', 'b', 'c', 'd']);
    let n = std::mem::size_of::<usize>();
    assert_eq!(gen.generate(&mut InfoPool::of_vec(vec![0; n]).replay()), Ok('a'));
    assert_eq!(gen.generate(&mut InfoPool::of_vec(vec![0xff; n]).replay()), Ok('d'));
}

#[test]
fn collections_fill_sets_with_the_items_drawn() {
    let gen = collections::<BTreeSet<_>, _>(u8s());
    let bytes = vec![0xff, 0xff, 0xff, 0xff, 3, 0xff, 0xff, 0xff, 0xff, 3, 0, 0, 0, 0];
    let set = gen.generate(&mut InfoPool::of_vec(bytes).replay()).expect("a set");
    assert_eq!(set.into_iter().collect::<Vec<_>>(), vec![3]);
}

#[test]
fn huge_mean_lengths_still_end_on_zeros() {
    let gen = vecs(u8s()).mean_length(usize::MAX);
    assert_eq!(gen.generate(&mut InfoPool::of_vec(vec![]).replay()), Ok(vec![]));
    let bytes = vec![0, 0, 0, 1, 42];
    assert_eq!(gen.generate(&mut InfoPool::of_vec(bytes).replay()), Ok(vec![42]));
}

#[test]
fn vec_collections_draw_as_vecs() {
    let bytes = vec![0xff, 0xff, 0xff, 0xff, 7, 0xff, 0xff, 0xff, 0xff, 9, 0, 0, 0, 0];
    let c = collections::<Vec<u8>, _>(u8s());
    let v = vecs(u8s()).mean_length(16);
    let p = InfoPool::of_vec(bytes);
    let from_c = c.generate(&mut p.replay());
    let from_v = v.generate(&mut p.replay());
    assert_eq!(from_c, Ok(vec![7, 9]));
    assert_eq!(from_c, from_v);
}

#[test]
fn vecs_draw_one_region_per_item_and_one_to_end() {
    let bytes = vec![0xff, 0xff, 0xff, 0xff, 1, 0xff, 0xff, 0xff, 0xff, 2, 0, 0, 0, 0];
    let p = InfoPool::of_vec(bytes);
    let mut rec = InfoRecorder::new(p.replay());
    let v = vecs(u8s()).mean_length(16).generate(&mut rec);
    assert_eq!(v, Ok(vec![1, 2]));
    assert_eq!(rec.spans_iter().iter().filter(|s| s.level == 0).count(), 3);
}
