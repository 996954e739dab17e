use rand::random;
use std::fmt;
use suppositions::data::{DataError, InfoPool, InfoRecorder, RngSource};
use suppositions::generators::{
    find_minimal, i64s, i8s, mul_u64s, mul_u8, u16s, u32s, u64s, u8s, uptos, usizes, Generator,
};
use suppositions::{property, CheckOutcome};

const SHORT_VEC_SIZE: usize = 256;

fn gen_random_vec() -> Vec<u8> {
    (0..SHORT_VEC_SIZE).map(|_| random()).collect::<Vec<u8>>()
}

fn should_generate_same_output_given_same_input<G: Generator>(gen: G)
where
    G::Item: fmt::Debug + PartialEq,
{
    let mut checked = 0;
    while checked < 100 {
        let v0 = gen_random_vec();
        let p0 = InfoPool::of_vec(v0.clone());
        let p1 = InfoPool::of_vec(v0);
        if let (Ok(v0), Ok(v1)) = (gen.generate(&mut p0.replay()), gen.generate(&mut p1.replay())) {
            assert!(v0 == v1, "({:?} == {:?}) -> ({:?} == {:?})", p0, p1, v0, v1);
            checked += 1;
        }
    }
}

fn usually_generates_different_output_for_different_inputs<G: Generator>(gen: G)
where
    G::Item: PartialEq,
{
    let nitems = 100;
    let mut pairs = Vec::new();
    while pairs.len() < nitems {
        let (v0, v1) = (gen_random_vec(), gen_random_vec());
        if v0 == v1 {
            continue;
        }
        let (p0, p1) = (InfoPool::of_vec(v0), InfoPool::of_vec(v1));
        if let (Ok(v0), Ok(v1)) = (gen.generate(&mut p0.replay()), gen.generate(&mut p1.replay())) {
            pairs.push((v0, v1));
        }
    }
    let differing = pairs.iter().filter(|&&(ref v0, ref v1)| v0 != v1).count();
    assert!(differing > 0, "Differing items:{} > 0", differing);
}

fn should_partially_order_same_as_source_by<G: Generator, K: PartialOrd, F: Fn(&G::Item) -> K>(
    gen: G,
    key: F,
) where
    G::Item: fmt::Debug,
{
    let nitems = 100;
    let mut checked = 0;
    while checked < nitems {
        let (v0, v1) = (gen_random_vec(), gen_random_vec());
        if !(v0 < v1) {
            continue;
        }
        let (p0, p1) = (InfoPool::of_vec(v0), InfoPool::of_vec(v1));
        if let (Ok(v0), Ok(v1)) = (gen.generate(&mut p0.replay()), gen.generate(&mut p1.replay())) {
            assert!(key(&v0) <= key(&v1), "({:?} < {:?}) -> ({:?} <= {:?})", p0, p1, v0, v1);
            checked += 1;
        }
    }
}

fn should_partially_order_same_as_source<G: Generator>(gen: G)
where
    G::Item: PartialOrd + fmt::Debug + Clone,
{
    should_partially_order_same_as_source_by(gen, |v| v.clone())
}

fn should_minimize_to<G: Generator>(gen: G, expected: G::Item)
where
    G::Item: fmt::Debug + PartialEq,
{
    let mut p;
    loop {
        p = InfoRecorder::new(RngSource::new());
        match gen.generate(&mut p) {
            Ok(_) => break,
            Err(DataError::SkipItem) => (),
            Err(DataError::PoolExhausted) => panic!("Not enough pool to generate data"),
        }
    }
    let p = p.into_pool();
    let p = find_minimal(&gen, p, |_| true);

    let val = gen.generate(&mut p.replay()).expect("generated value");
    assert_eq!(val, expected);
}

fn gen_of<G: Generator>(gen: &G, bytes: Vec<u8>) -> Result<G::Item, DataError> {
    gen.generate(&mut InfoPool::of_vec(bytes).replay())
}

#[test]
fn numbers_u8s_should_generate_same_output_given_same_input() {
    should_generate_same_output_given_same_input(u8s())
}

#[test]
fn numbers_u8s_usually_generates_different_output_for_different_inputs() {
    usually_generates_different_output_for_different_inputs(u8s());
}

#[test]
fn numbers_u8s_minimize_to_zero() {
    should_minimize_to(u8s(), 0);
}

#[test]
fn numbers_u8s_should_partially_order_same_as_source() {
    should_partially_order_same_as_source(u8s());
}

#[test]
fn numbers_u64s_should_generate_same_output_given_same_input() {
    should_generate_same_output_given_same_input(u64s())
}

#[test]
fn numbers_u64s_usually_generates_different_output_for_different_inputs() {
    usually_generates_different_output_for_different_inputs(u64s());
}

#[test]
fn numbers_u64s_minimize_to_zero() {
    should_minimize_to(u64s(), 0);
}

#[test]
fn numbers_u64s_should_partially_order_same_as_source() {
    should_partially_order_same_as_source(u64s());
}

#[test]
fn numbers_tuple_u8s_u8s_should_generate_same_output_given_same_input() {
    should_generate_same_output_given_same_input((u8s(), u8s()))
}

#[test]
fn numbers_tuple_u8s_u8s_usually_generates_different_output_for_different_inputs() {
    usually_generates_different_output_for_different_inputs((u8s(), u8s()));
}

#[test]
fn numbers_tuple_u8s_u8s_minimize_to_zero() {
    should_minimize_to((u8s(), u8s()), (0, 0));
}

#[test]
fn numbers_tuple_u8s_u8s_should_partially_order_same_as_source() {
    should_partially_order_same_as_source((u8s(), u8s()));
}

#[test]
fn numbers_i64s_should_generate_same_output_given_same_input() {
    should_generate_same_output_given_same_input(i64s())
}

#[test]
fn numbers_i64s_usually_generates_different_output_for_different_inputs() {
    usually_generates_different_output_for_different_inputs(i64s());
}

#[test]
fn numbers_i64s_minimize_to_zero() {
    should_minimize_to(i64s(), 0);
}

#[test]
fn numbers_i64s_should_partially_order_same_as_source() {
    should_partially_order_same_as_source_by(i64s(), |&v| v.abs());
}

#[test]
fn upto_u8s_should_generate_same_output_given_same_input() {
    should_generate_same_output_given_same_input(uptos(u8s(), 7))
}

#[test]
fn upto_u8s_usually_generates_different_output_for_different_inputs() {
    usually_generates_different_output_for_different_inputs(uptos(u8s(), 7));
}

#[test]
fn upto_u8s_minimize_to_minimum_value() {
    should_minimize_to(uptos(u8s(), 7), 0)
}

#[test]
fn upto_u8s_should_partially_order_same_as_source() {
    should_partially_order_same_as_source(uptos(u8s(), 7));
}

#[test]
fn multiply_with_carries_works() {
    let a = 123;
    let b = 113;
    // 123 * 113 = 13899 or 0x364b
    let expected = (0x36, 0x4b);

    assert_eq!(mul_u8(a, b), expected);
}

#[test]
fn prop_multiply_with_carries_works() {
    let outcome = property((u8s(), u8s())).check(|(a, b)| {
        let product = (a as u16) * (b as u16);
        let (res_h, res_l) = mul_u8(a, b);
        let res = ((res_h as u16) << 8) | res_l as u16;
        assert_eq!(res, product)
    });
    assert!(matches!(outcome, CheckOutcome::Passed));
}

#[test]
fn ints_are_big_endian() {
    assert_eq!(gen_of(&u16s(), vec![0x12, 0x34]), Ok(0x1234));
    assert_eq!(gen_of(&u32s(), vec![0x12, 0x34, 0x56, 0x78]), Ok(0x1234_5678));
    assert_eq!(gen_of(&u64s(), vec![1, 2, 3, 4, 5, 6, 7, 8]), Ok(0x0102_0304_0506_0708));
    assert_eq!(gen_of(&u64s(), vec![0xff]), Ok(0xff00_0000_0000_0000));
}

#[test]
fn signed_ints_halve_and_negate_on_even() {
    assert_eq!(gen_of(&i8s(), vec![0]), Ok(0));
    assert_eq!(gen_of(&i8s(), vec![1]), Ok(0));
    assert_eq!(gen_of(&i8s(), vec![7]), Ok(3));
    assert_eq!(gen_of(&i8s(), vec![8]), Ok(-4));
    assert_eq!(gen_of(&i8s(), vec![0xff]), Ok(127));
    assert_eq!(gen_of(&i8s(), vec![0xfe]), Ok(-127));
}

#[test]
fn uptos_scale_to_the_limit() {
    let g = uptos(u8s(), 7);
    assert_eq!(gen_of(&g, vec![0]), Ok(0));
    assert_eq!(gen_of(&g, vec![0xff]), Ok(6));
    assert_eq!(gen_of(&g, vec![0x80]), Ok(3));
    let h = uptos(u16s(), 1000);
    assert_eq!(gen_of(&h, vec![0x80, 0x00]), Ok(500));
}

#[test]
fn uptos_never_exceed_their_limit() {
    let g = uptos(u32s(), 10);
    for _ in 0..1000 {
        let v = g.generate_from(&InfoPool::random_of_size(4)).expect("a value");
        assert!(v <= 10);
    }
}

#[test]
fn between_stays_within_bounds() {
    let g = u8s().between(10, 20);
    for b in 0..=255u8 {
        let v = gen_of(&g, vec![b]).expect("a value");
        assert!(10 <= v && v <= 20, "{} gave {}", b, v);
    }
    let h = u64s().upto(5);
    assert_eq!(gen_of(&h, vec![0xff; 8]), Ok(4));
}

#[test]
fn wide_multiplication_is_exact() {
    assert_eq!(mul_u64s(u64::MAX, u64::MAX), (u64::MAX - 1, 1));
    assert_eq!(mul_u64s(1 << 32, 1 << 32), (1, 0));
    assert_eq!(mul_u64s(0, 12345), (0, 0));
}

#[test]
fn usizes_draw_the_width_of_a_usize() {
    let bytes = vec![0x01; std::mem::size_of::<usize>()];
    let expected = usize::from_ne_bytes([0x01; std::mem::size_of::<usize>()]);
    assert_eq!(gen_of(&usizes(), bytes), Ok(expected));
}

#[test]
fn find_minimal_gives_a_pool_whose_value_the_check_accepts() {
    let gen = u8s();
    let p = InfoPool::of_vec(vec![200]);
    let min = find_minimal(&gen, p, |v| v >= 17);
    let v = gen.generate(&mut min.replay()).expect("generated value");

    assert_eq!(v, 17);
}

#[test]
fn between_reaches_both_ends() {
    let g = u8s().between(3, 4);
    assert_eq!(gen_of(&g, vec![0]), Ok(3));
    assert_eq!(gen_of(&g, vec![255]), Ok(4));
    let whole = u8s().between(0, 255);
    assert_eq!(gen_of(&whole, vec![200]), Ok(200));
    let wide = u64s().between(10, 20);
    assert_eq!(gen_of(&wide, vec![255; 8]), Ok(20));
}
