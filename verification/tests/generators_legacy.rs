use rand::random;
use std::fmt;
use suppositions::data::{DataError, InfoPool};
use suppositions::generators::{
    booleans, consts, find_minimal, i64s, info_pools, u64s, u8s, vecs, Generator,
    WeightedCoinGenerator,
};

const SHORT_VEC_SIZE: usize = 256;

fn gen_random_vec() -> Vec<u8> {
    (0..SHORT_VEC_SIZE).map(|_| random()).collect::<Vec<u8>>()
}

fn should_generate_same_output_given_same_input<G: Generator>(gen: G)
where
    G::Item: fmt::Debug + PartialEq,
{
    let mut checked = 0;
    while checked < 100 {
        let v0 = gen_random_vec();
        let p0 = InfoPool::of_vec(v0.clone());
        let p1 = InfoPool::of_vec(v0);
        if let (Ok(v0), Ok(v1)) = (gen.generate(&mut p0.tap()), gen.generate(&mut p1.tap())) {
            assert!(v0 == v1, "({:?} == {:?}) -> ({:?} == {:?})", p0, p1, v0, v1);
            checked += 1;
        }
    }
}

fn usually_generates_different_output_for_different_inputs<G: Generator>(gen: G)
where
    G::Item: PartialEq,
{
    let nitems = 100;
    let mut pairs = Vec::new();
    while pairs.len() < nitems {
        let (v0, v1) = (gen_random_vec(), gen_random_vec());
        if v0 == v1 {
            continue;
        }
        let (p0, p1) = (InfoPool::of_vec(v0), InfoPool::of_vec(v1));
        if let (Ok(v0), Ok(v1)) = (gen.generate(&mut p0.tap()), gen.generate(&mut p1.tap())) {
            pairs.push((v0, v1));
        }
    }
    let differing = pairs.iter().filter(|&&(ref v0, ref v1)| v0 != v1).count();
    assert!(differing > 0, "Differing items:{} > 0", differing);
}

fn should_partially_order_same_as_source_by<G: Generator, K: PartialOrd, F: Fn(&G::Item) -> K>(
    gen: G,
    key: F,
) where
    G::Item: fmt::Debug,
{
    let nitems = 100;
    let mut checked = 0;
    while checked < nitems {
        let (v0, v1) = (gen_random_vec(), gen_random_vec());
        if !(v0 < v1) {
            continue;
        }
        let (p0, p1) = (InfoPool::of_vec(v0), InfoPool::of_vec(v1));
        if let (Ok(v0), Ok(v1)) = (gen.generate(&mut p0.tap()), gen.generate(&mut p1.tap())) {
            assert!(key(&v0) <= key(&v1), "({:?} < {:?}) -> ({:?} <= {:?})", p0, p1, v0, v1);
            checked += 1;
        }
    }
}

fn should_partially_order_same_as_source<G: Generator>(gen: G)
where
    G::Item: PartialOrd + fmt::Debug + Clone,
{
    should_partially_order_same_as_source_by(gen, |v| v.clone())
}

fn should_minimize_to<G: Generator>(gen: G, expected: G::Item)
where
    G::Item: fmt::Debug + PartialEq,
{
    let mut p;
    loop {
        p = InfoPool::random_of_size(SHORT_VEC_SIZE);
        match gen.generate(&mut p.tap()) {
            Ok(_) => break,
            Err(DataError::SkipItem) => (),
            Err(DataError::PoolExhausted) => panic!("Not enough pool to generate data"),
        }
    }
    let p = find_minimal(&gen, p, |_| true);

    let val = gen.generate(&mut p.tap()).expect("generated value");
    assert_eq!(val, expected);
}

#[test]
fn generators_consts_should_generate_same_values() {
    let v1 = gen_random_vec();
    let gen = consts("fourty two");
    assert_eq!(gen.generate(&mut InfoPool::of_vec(v1).tap()), Ok("fourty two"));
}

#[test]
fn generators_bools_should_generate_false_booleans_from_zeros() {
    let v1 = vec![0];
    let bools = booleans();
    assert_eq!(bools.generate(&mut InfoPool::of_vec(v1).tap()), Ok(false));
}

#[test]
fn generators_bools_should_generate_true_booleans_from_saturated_values() {
    let v1 = vec![0xff];
    let bools = booleans();
    assert_eq!(bools.generate(&mut InfoPool::of_vec(v1).tap()), Ok(true));
}

#[test]
fn generators_bools_should_generate_same_output_given_same_input() {
    should_generate_same_output_given_same_input(booleans())
}

#[test]
fn generators_bools_usually_generates_different_output_for_different_inputs() {
    usually_generates_different_output_for_different_inputs(booleans())
}

#[test]
fn generators_bools_minimize_to_false() {
    should_minimize_to(booleans(), false)
}

#[test]
fn generators_bools_should_partially_order_same_as_source() {
    should_partially_order_same_as_source(booleans())
}

#[test]
fn generators_vecs_should_generate_same_output_given_same_input() {
    should_generate_same_output_given_same_input(vecs(booleans()));
}

#[test]
fn generators_vecs_usually_generates_different_output_for_different_inputs() {
    usually_generates_different_output_for_different_inputs(vecs(booleans()))
}

#[test]
fn generators_vec_bools_minimize_to_empty() {
    should_minimize_to(vecs(booleans()), vec![])
}

#[test]
fn generators_vec_bools_can_minimise_with_predicate() {
    should_minimize_to(vecs(booleans()).filter(|v| v.len() > 2), vec![false, false, false]);
}

#[test]
fn generators_info_pools_should_generate_same_output_given_same_input() {
    should_generate_same_output_given_same_input(info_pools(8))
}

#[test]
fn generators_info_pools_usually_generates_different_output_for_different_inputs() {
    usually_generates_different_output_for_different_inputs(info_pools(8))
}

#[test]
fn generators_info_pools_minimize_to_empty() {
    // We force the generator to output a fixed length.
    should_minimize_to(info_pools(8), InfoPool::of_vec(vec![0; 8]))
}

#[test]
fn generators_u8s_should_generate_same_output_given_same_input() {
    should_generate_same_output_given_same_input(u8s())
}

#[test]
fn generators_u8s_usually_generates_different_output_for_different_inputs() {
    usually_generates_different_output_for_different_inputs(u8s());
}

#[test]
fn generators_u8s_minimize_to_zero() {
    should_minimize_to(u8s(), 0);
}

#[test]
fn generators_u8s_should_partially_order_same_as_source() {
    should_partially_order_same_as_source(u8s());
}

#[test]
fn generators_u64s_should_generate_same_output_given_same_input() {
    should_generate_same_output_given_same_input(u64s())
}

#[test]
fn generators_u64s_usually_generates_different_output_for_different_inputs() {
    usually_generates_different_output_for_different_inputs(u64s());
}

#[test]
fn generators_u64s_minimize_to_zero() {
    should_minimize_to(u64s(), 0);
}

#[test]
fn generators_u64s_should_partially_order_same_as_source() {
    should_partially_order_same_as_source(u64s());
}

#[test]
fn generators_tuple_u8s_u8s_should_generate_same_output_given_same_input() {
    should_generate_same_output_given_same_input((u8s(), u8s()))
}

#[test]
fn generators_tuple_u8s_u8s_usually_generates_different_output_for_different_inputs() {
    usually_generates_different_output_for_different_inputs((u8s(), u8s()));
}

#[test]
fn generators_tuple_u8s_u8s_minimize_to_zero() {
    should_minimize_to((u8s(), u8s()), (0, 0));
}

#[test]
fn generators_tuple_u8s_u8s_should_partially_order_same_as_source() {
    should_partially_order_same_as_source((u8s(), u8s()));
}

#[test]
fn generators_i64s_should_generate_same_output_given_same_input() {
    should_generate_same_output_given_same_input(i64s())
}

#[test]
fn generators_i64s_usually_generates_different_output_for_different_inputs() {
    usually_generates_different_output_for_different_inputs(i64s());
}

#[test]
fn generators_i64s_minimize_to_zero() {
    should_minimize_to(i64s(), 0);
}

#[test]
fn generators_i64s_should_partially_order_same_as_source() {
    should_partially_order_same_as_source_by(i64s(), |&v| v.abs());
}

#[test]
fn generators_filter_should_pass_through_when_true() {
    let gen = consts(()).filter(|&_| true);
    let p = InfoPool::random_of_size(4);
    assert_eq!(gen.generate(&mut p.tap()), Ok(()));
}

#[test]
fn generators_filter_should_skip_when_false() {
    let gen = consts(()).filter(|&_| false);
    let p = InfoPool::random_of_size(4);
    assert_eq!(gen.generate(&mut p.tap()), Err(DataError::SkipItem));
}

#[test]
fn generators_biased_coin() {
    let mut rng = <rand_xorshift::XorShiftRng as rand::SeedableRng>::from_seed([7; 16]);
    let p = InfoPool::from_random_of_size(&mut rng, 1024);
    // A coin that comes up true one time in three.
    let gen = WeightedCoinGenerator::with_threshold(0xaaaa_aaab);
    let trials = 256;
    let expected = trials / 3;
    let allowed_error = trials / 32;
    let mut heads = 0;
    let mut t = p.tap();
    for _ in 0..trials {
        if gen.generate(&mut t).expect("a trial") {
            heads += 1;
        }
    }
    assert!(
        heads >= (expected - allowed_error) && heads <= (expected + allowed_error),
        "Expected 33% of {} trials ({}+/-{}); got {}",
        trials,
        expected,
        allowed_error,
        heads
    );
}

#[test]
fn generators_filter_map_should_pass_through_when_ok() {
    let gen = consts(()).filter_map(|()| Ok(42usize));
    let p = InfoPool::random_of_size(4);
    assert_eq!(gen.generate_from(&p), Ok(42));
}

#[test]
fn generators_filter_map_should_skip_when_err() {
    let gen = consts(()).filter_map(|()| -> Result<usize, DataError> { Err(DataError::SkipItem) });
    let p = InfoPool::random_of_size(4);
    assert_eq!(gen.generate_from(&p), Err(DataError::SkipItem));
}
