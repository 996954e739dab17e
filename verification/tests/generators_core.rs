use rand::{random, Rng, SeedableRng};
use rand_xorshift::XorShiftRng;
use std::collections::BTreeMap;
use std::fmt;
use suppositions::data::{DataError, InfoPool, InfoRecorder, RngSource};
use suppositions::generators::{
    booleans, consts, find_minimal, one_of, optional, optional_by, result, u64s, u8s, Generator,
    WeightedCoinGenerator,
};

const SHORT_VEC_SIZE: usize = 256;

fn gen_random_vec() -> Vec<u8> {
    (0..SHORT_VEC_SIZE).map(|_| random()).collect::<Vec<u8>>()
}

fn unseeded_of_size(size: usize) -> InfoPool {
    let mut seed = [0u8; 16];
    for (i, w) in [0x193a6754u32, 0xa8a7d469, 0x97830e05, 0x113ba7bb].iter().enumerate() {
        seed[4 * i..4 * i + 4].copy_from_slice(&w.to_le_bytes());
    }
    let mut rng = XorShiftRng::from_seed(seed);
    InfoPool::of_vec((0..size).map(|_| rng.gen::<u8>()).collect::<Vec<u8>>())
}

fn should_generate_same_output_given_same_input<G: Generator>(gen: G)
where
    G::Item: fmt::Debug + PartialEq,
{
    let mut checked = 0;
    while checked < 100 {
        let v0 = gen_random_vec();
        let p0 = InfoPool::of_vec(v0.clone());
        let p1 = InfoPool::of_vec(v0);
        if let (Ok(v0), Ok(v1)) = (gen.generate(&mut p0.replay()), gen.generate(&mut p1.replay())) {
            assert!(v0 == v1, "({:?} == {:?}) -> ({:?} == {:?})", p0, p1, v0, v1);
            checked += 1;
        }
    }
}

fn usually_generates_different_output_for_different_inputs<G: Generator>(gen: G)
where
    G::Item: PartialEq,
{
    let nitems = 100;
    let mut pairs = Vec::new();
    while pairs.len() < nitems {
        let (v0, v1) = (gen_random_vec(), gen_random_vec());
        if v0 == v1 {
            continue;
        }
        let (p0, p1) = (InfoPool::of_vec(v0), InfoPool::of_vec(v1));
        if let (Ok(v0), Ok(v1)) = (gen.generate(&mut p0.replay()), gen.generate(&mut p1.replay())) {
            pairs.push((v0, v1));
        }
    }
    let differing = pairs.iter().filter(|&&(ref v0, ref v1)| v0 != v1).count();
    assert!(differing > 0, "Differing items:{} > 0", differing);
}

fn should_partially_order_same_as_source<G: Generator>(gen: G)
where
    G::Item: PartialOrd + fmt::Debug,
{
    let nitems = 100;
    let mut checked = 0;
    while checked < nitems {
        let (v0, v1) = (gen_random_vec(), gen_random_vec());
        if !(v0 < v1) {
            continue;
        }
        let (p0, p1) = (InfoPool::of_vec(v0), InfoPool::of_vec(v1));
        if let (Ok(v0), Ok(v1)) = (gen.generate(&mut p0.replay()), gen.generate(&mut p1.replay())) {
            assert!(v0 <= v1, "({:?} < {:?}) -> ({:?} <= {:?})", p0, p1, v0, v1);
            checked += 1;
        }
    }
}

fn should_minimize_to<G: Generator>(gen: G, expected: G::Item)
where
    G::Item: fmt::Debug + PartialEq,
{
    let mut p;
    loop {
        p = InfoRecorder::new(RngSource::new());
        match gen.generate(&mut p) {
            Ok(_) => break,
            Err(DataError::SkipItem) => (),
            Err(DataError::PoolExhausted) => panic!("Not enough pool to generate data"),
        }
    }
    let p = p.into_pool();
    let p = find_minimal(&gen, p, |_| true);

    let val = gen.generate(&mut p.replay()).expect("generated value");
    assert_eq!(val, expected);
}

#[test]
fn core_consts_should_generate_same_values() {
    let v1 = gen_random_vec();
    let gen = consts("fourty two");
    assert_eq!(gen.generate(&mut InfoPool::of_vec(v1).replay()), Ok("fourty two"));
}

#[test]
fn core_bools_should_generate_false_booleans_from_zeros() {
    let v1 = vec![0];
    let bools = booleans();
    assert_eq!(bools.generate(&mut InfoPool::of_vec(v1).replay()), Ok(false));
}

#[test]
fn core_bools_should_generate_true_booleans_from_saturated_values() {
    let v1 = vec![0xff];
    let bools = booleans();
    assert_eq!(bools.generate(&mut InfoPool::of_vec(v1).replay()), Ok(true));
}

#[test]
fn core_bools_should_generate_same_output_given_same_input() {
    should_generate_same_output_given_same_input(booleans())
}

#[test]
fn core_bools_usually_generates_different_output_for_different_inputs() {
    usually_generates_different_output_for_different_inputs(booleans())
}

#[test]
fn core_bools_minimize_to_false() {
    should_minimize_to(booleans(), false)
}

#[test]
fn core_bools_should_partially_order_same_as_source() {
    should_partially_order_same_as_source(booleans())
}

#[test]
fn optional_u64s_minimize_to_none() {
    should_minimize_to(optional(u64s()), None);
}

#[test]
fn optional_by_coin_of_u64s_minimize_to_none() {
    // A coin that comes up true three times in four.
    let gen = optional_by(WeightedCoinGenerator::with_threshold(1 << 30), u64s());
    should_minimize_to(gen, None);
}

#[test]
fn result_u8_u64s_minimize_to_ok() {
    should_minimize_to(result(u8s(), u64s()), Ok(0));
}

#[test]
fn core_filter_should_pass_through_when_true() {
    let gen = consts(()).filter(|&_| true);
    let p = InfoPool::new();
    assert_eq!(gen.generate(&mut p.replay()), Ok(()));
}

#[test]
fn core_filter_should_skip_when_false() {
    let gen = consts(()).filter(|&_| false);
    let p = InfoPool::new();
    assert_eq!(gen.generate(&mut p.replay()), Err(DataError::SkipItem));
}

#[test]
fn core_biased_coin() {
    let p = unseeded_of_size(1024);
    // A coin that comes up true one time in three.
    let gen = WeightedCoinGenerator::with_threshold(0xaaaa_aaab);
    let trials = 256;
    let expected = trials / 3;
    let allowed_error = trials / 32;
    let mut heads = 0;
    let mut t = p.replay();
    for _ in 0..trials {
        if gen.generate(&mut t).expect("a trial") {
            heads += 1;
        }
    }

    assert!(
        heads >= (expected - allowed_error) && heads <= (expected + allowed_error),
        "Expected 33% of {} trials ({}+/-{}); got {}",
        trials,
        expected,
        allowed_error,
        heads
    );
}

#[test]
fn core_filter_map_should_pass_through_when_ok() {
    let gen = consts(()).filter_map(|()| Ok(42usize));
    let p = InfoPool::new();
    assert_eq!(gen.generate_from(&p), Ok(42));
}

#[test]
fn core_filter_map_should_skip_when_err() {
    let gen = consts(()).filter_map(|()| -> Result<(), DataError> { Err(DataError::SkipItem) });
    let p = InfoPool::new();
    assert_eq!(gen.generate_from(&p), Err(DataError::SkipItem));
}

#[test]
fn one_of_should_pick_choices_relativey_evenly() {
    let gen = one_of(consts(1usize)).or(consts(2)).or(consts(3));
    let trials = 1024usize;
    let expected = trials / 3;
    let allowed_error = expected / 10;
    let mut samples = BTreeMap::new();
    let p = unseeded_of_size(1 << 18);
    let mut t = p.replay();
    for _ in 0..trials {
        let val = gen.generate(&mut t).expect("a trial");
        *samples.entry(val).or_insert(0) += 1;
    }

    assert!(
        samples
            .values()
            .all(|&val| val >= (expected - allowed_error) && val <= (expected + allowed_error)),
        "Sample counts from {} trials are all ({}+/-{}); got {:?}",
        trials,
        expected,
        allowed_error,
        samples,
    );
}

#[test]
fn weighted_coin_threshold_decides_from_four_bytes() {
    let gen = WeightedCoinGenerator::with_threshold(0x8000_0000);
    assert_eq!(gen.generate(&mut InfoPool::of_vec(vec![0x7f, 0xff, 0xff, 0xff]).replay()), Ok(false));
    assert_eq!(gen.generate(&mut InfoPool::of_vec(vec![0x80, 0, 0, 0]).replay()), Ok(true));
    let never = WeightedCoinGenerator::with_threshold(1 << 32);
    assert_eq!(never.generate(&mut InfoPool::of_vec(vec![0xff; 4]).replay()), Ok(false));
}

#[test]
fn optional_is_none_on_a_false_coin_and_some_after_a_true_one() {
    let gen = optional(u8s());
    assert_eq!(gen.generate(&mut InfoPool::of_vec(vec![0x00, 9]).replay()), Ok(None));
    assert_eq!(gen.generate(&mut InfoPool::of_vec(vec![0x80, 9]).replay()), Ok(Some(9)));
}

#[test]
fn result_picks_err_on_a_high_first_byte() {
    let gen = result(u8s(), u8s());
    assert_eq!(gen.generate(&mut InfoPool::of_vec(vec![0x00, 5]).replay()), Ok(Ok(5)));
    assert_eq!(gen.generate(&mut InfoPool::of_vec(vec![0x80, 5]).replay()), Ok(Err(5)));
}

#[test]
fn map_applies_the_function() {
    let gen = u8s().map(|v| v as u32 * 2);
    assert_eq!(gen.generate(&mut InfoPool::of_vec(vec![21]).replay()), Ok(42));
}

#[test]
fn flat_map_draws_from_the_generator_made() {
    let gen = booleans().flat_map(|b| if b { consts(7u8) } else { consts(3u8) });
    assert_eq!(gen.generate(&mut InfoPool::of_vec(vec![0xff]).replay()), Ok(7));
    assert_eq!(gen.generate(&mut InfoPool::of_vec(vec![0x00]).replay()), Ok(3));
}

#[test]
fn optional_draws_one_region_for_none_and_two_for_some() {
    let g = optional(u64s());
    let none_pool = InfoPool::of_vec(vec![0; 16]);
    let mut rec = InfoRecorder::new(none_pool.replay());
    assert_eq!(g.generate(&mut rec), Ok(None));
    assert_eq!(rec.spans_iter().iter().filter(|s| s.level == 0).count(), 1);

    let some_pool = InfoPool::of_vec(vec![0xff; 16]);
    let mut rec = InfoRecorder::new(some_pool.replay());
    assert!(matches!(g.generate(&mut rec), Ok(Some(_))));
    assert_eq!(rec.spans_iter().iter().filter(|s| s.level == 0).count(), 2);
}
