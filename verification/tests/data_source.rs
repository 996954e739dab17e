use rand::SeedableRng;
use rand_xorshift::XorShiftRng;
use std::collections::BTreeSet;
use suppositions::data::{Draw, InfoPool, InfoRecorder, InfoSink, InfoSource, RngSource, Span};

struct FnSink<F>(F);

impl<F: FnMut(&mut dyn InfoSource) -> R, R> InfoSink for FnSink<F> {
    type Out = R;
    fn ready(&self) -> bool {
        unreachable!("readiness is a proof-time notion")
    }
    fn sinks(&self, _d: suppositions::data::Bytes, _out: R) -> bool {
        unreachable!("what a sink draws is a proof-time notion")
    }
    fn sink<I: InfoSource>(&mut self, k: &mut I) -> R {
        (self.0)(k as &mut dyn InfoSource)
    }
}

#[test]
fn source_should_take_each_item_in_pool() {
    let p = InfoPool::of_vec(vec![0, 1, 2, 3]);
    let mut t = p.replay();
    assert_eq!(t.next_byte(), 0);
    assert_eq!(t.next_byte(), 1);
    assert_eq!(t.next_byte(), 2);
    assert_eq!(t.next_byte(), 3);
    assert_eq!(t.next_byte(), 0);
}

#[test]
fn should_generate_random_data() {
    let trials = 1024usize;
    let mut vals = 0;
    let mut p = RngSource::of(XorShiftRng::from_seed(Default::default()));
    let error = 8;
    for _ in 0..trials {
        vals += p.draw_u8() as usize;
    }
    let mean = vals / trials;
    let expected = 128;
    assert!(
        (expected - error) < mean && (expected + error) > mean,
        "Expected {} trials to be ({}+/-{}); got {}",
        trials,
        expected,
        error,
        mean
    )
}

#[test]
fn source_should_allow_restarting_read() {
    let mut p = InfoRecorder::new(RngSource::new());
    let mut v0 = Vec::new();
    {
        for _ in 0..4 {
            v0.push(p.draw_u8())
        }
    }

    let p = p.into_pool();
    let mut t = p.replay();
    let mut v1 = Vec::new();
    for _ in 0..4 {
        v1.push(t.draw_u8())
    }

    assert_eq!(v0, v1)
}

#[test]
fn should_allow_restarting_child_reads() {
    let mut p = InfoRecorder::new(RngSource::new());
    let mut v0 = Vec::new();
    p.draw(FnSink(|src: &mut dyn InfoSource| {
        for _ in 0..4 {
            let x: u8 = src.draw_u8();
            v0.push(x);
        }
    }));

    let p = p.into_pool();
    let mut t = p.replay();
    let mut v1 = Vec::new();
    for _ in 0..4 {
        v1.push(t.draw_u8())
    }

    assert_eq!(v0, v1)
}

#[test]
fn should_allow_restarting_mixed_child_reads() {
    let mut p = InfoRecorder::new(RngSource::new());
    let mut v0 = Vec::new();

    for _ in 0..2 {
        let x: u8 = p.draw_u8();
        v0.push(x);
    }

    p.draw(FnSink(|src: &mut dyn InfoSource| {
        for _ in 0..4 {
            let x: u8 = src.draw_u8();
            v0.push(x);
        }
    }));

    for _ in 0..2 {
        let x: u8 = p.draw_u8();
        v0.push(x);
    }

    let p = p.into_pool();
    let mut t = p.replay();
    let mut v1 = Vec::new();
    for _ in 0..8 {
        v1.push(t.draw_u8())
    }

    assert_eq!(v0, v1)
}

#[test]
fn recorded_info_pool_should_contain_intervals() {
    let mut p = InfoRecorder::new(RngSource::new());
    let mut v0 = Vec::new();

    for _ in 0..2 {
        let x: u8 = p.draw_u8();
        v0.push(x);
    }

    p.draw(FnSink(|src: &mut dyn InfoSource| {
        for _ in 0..4 {
            let x: u8 = src.draw_u8();
            v0.push(x);
        }
    }));

    for _ in 0..2 {
        let x: u8 = p.draw_u8();
        v0.push(x);
    }

    let p = p.into_pool();
    assert!(
        p.spans().contains(&Span::of_pair((2, 6))),
        "Pool spans: {:?}; contains (2, 6)",
        p.spans()
    );
}

#[test]
fn source_should_allow_borrowing_buffer() {
    let p = InfoPool::of_vec(vec![1]);
    assert_eq!(p.buffer(), &[1]);
}

#[test]
fn tap_can_act_as_source() {
    let buf = vec![4, 3, 2, 1];
    let p = InfoPool::of_vec(buf.clone());
    let _: &dyn InfoSource = &p.replay();
    let mut res = Vec::new();
    let mut it = p.replay();
    for _ in 0..4 {
        res.push(it.draw_u8())
    }
    assert_eq!(res, buf)
}

#[test]
fn replay_can_act_as_source() {
    let buf = vec![4, 3, 2, 1];
    let p = InfoPool::of_vec(buf.clone());

    let mut res = Vec::new();
    let mut it = p.replay();
    for _ in 0..4 {
        res.push(it.draw_u8())
    }
    assert_eq!(res, buf)
}

#[test]
fn info_recorder_should_record_no_spans_for_primitive_draws() {
    let mut p = InfoRecorder::new(RngSource::new());
    {
        for _ in 0..4 {
            let _ = p.draw_u8();
        }
    }

    assert_eq!(p.spans_iter(), vec![])
}

#[test]
fn info_recorder_should_record_child_reads() {
    let mut p = InfoRecorder::new(RngSource::new());
    p.draw(FnSink(|src: &mut dyn InfoSource| {
        for _ in 0..4 {
            let _ = src.draw_u8();
        }
    }));

    assert_eq!(p.spans_iter(), vec![Span::of_pair((0, 4))])
}

#[test]
fn info_recorder_should_allow_restarting_mixed_child_reads() {
    let mut p = InfoRecorder::new(RngSource::new());
    let mut v0 = Vec::new();

    for _ in 0..2 {
        let x: u8 = p.draw_u8();
        v0.push(x);
    }

    p.draw(FnSink(|src: &mut dyn InfoSource| {
        for _ in 0..4 {
            let x: u8 = src.draw_u8();
            v0.push(x);
        }
    }));

    for _ in 0..2 {
        let x: u8 = p.draw_u8();
        v0.push(x);
    }

    assert_eq!(p.spans_iter(), vec![Span::of_pair((2, 6))])
}

#[test]
fn info_recorder_should_allow_yielded_slices_to_equal_recorded() {
    let buf = vec![4, 3, 2, 1, 3, 4];
    let p = InfoPool::of_vec(buf.clone());
    let mut p = InfoRecorder::new(p.replay());
    for _ in 0..2 {
        let _ = p.draw_u8();
    }

    let v0 = p.draw(FnSink(|src: &mut dyn InfoSource| {
        let mut v0 = Vec::new();
        for _ in 0..4 {
            let x: u8 = src.draw_u8();
            v0.push(x);
        }
        v0
    }));

    let actual = p
        .spans_iter()
        .into_iter()
        .map(|span| buf[span.range()].to_vec())
        .collect::<Vec<_>>();
    assert_eq!(actual, vec![v0]);
}

struct MyWidget;

impl InfoSink for MyWidget {
    type Out = Vec<u16>;
    fn ready(&self) -> bool {
        unreachable!("readiness is a proof-time notion")
    }
    fn sinks(&self, _d: suppositions::data::Bytes, _out: Vec<u16>) -> bool {
        unreachable!("what a sink draws is a proof-time notion")
    }
    fn sink<I: InfoSource>(&mut self, src: &mut I) -> Self::Out {
        let mut out = Vec::new();
        for _ in 0..4 {
            let v = src.draw(FnSink(|src: &mut dyn InfoSource| {
                let v0 = src.draw_u8() as u16;
                let v1 = src.draw_u8() as u16;
                (v1 << 8) | v0
            }));
            out.push(v);
        }
        out
    }
}

#[test]
fn info_recorder_works_recursively() {
    let mut p = InfoRecorder::new(RngSource::new());
    let _ = p.draw(MyWidget);

    let spans = p.spans_iter().into_iter().collect::<BTreeSet<_>>();
    let expected = Span { start: 2, end: 4, level: 1 };
    assert!(spans.contains(&expected), "expected: {:?} ∈ spans: {:?}", expected, spans);
}

#[test]
fn pool_without_cuts_out_the_range() {
    let p = InfoPool::of_vec(vec![0, 1, 2, 3, 4]);
    let q = p.without(1, 3);
    assert_eq!(q.buffer(), &[0, 3, 4]);
    assert!(q.spans().is_empty());
}

#[test]
fn pool_with_byte_replaces_one_byte() {
    let p = InfoPool::of_vec(vec![7, 8, 9]);
    let q = p.with_byte(1, 0);
    assert_eq!(q.buffer(), &[7, 0, 9]);
}

#[test]
fn random_pools_of_a_seeded_generator_repeat() {
    let mut r0 = XorShiftRng::from_seed([1; 16]);
    let mut r1 = XorShiftRng::from_seed([1; 16]);
    let p0 = InfoPool::from_random_of_size(&mut r0, 32);
    let p1 = InfoPool::from_random_of_size(&mut r1, 32);
    assert_eq!(p0.len(), 32);
    assert_eq!(p0.buffer(), p1.buffer());
}

#[test]
fn seeded_sources_advance_their_generator() {
    let mut p = RngSource::of(XorShiftRng::from_seed([3; 16]));
    let bytes = (0..16).map(|_| p.draw_u8()).collect::<Vec<_>>();
    assert!(bytes.iter().any(|&b| b != bytes[0]), "{:?}", bytes);
}

#[test]
fn fresh_sources_are_seeded_apart() {
    let mut p0 = RngSource::new();
    let mut p1 = RngSource::new();
    let b0 = (0..16).map(|_| p0.draw_u8()).collect::<Vec<_>>();
    let b1 = (0..16).map(|_| p1.draw_u8()).collect::<Vec<_>>();
    assert_ne!(b0, b1);
    assert!(b0.iter().any(|&b| b != b0[0]), "{:?}", b0);
}

#[test]
fn random_pools_are_not_constant() {
    let p = InfoPool::random_of_size(64);
    assert!(p.buffer().iter().any(|&b| b != p.buffer()[0]));
    let mut rng = XorShiftRng::from_seed([5; 16]);
    let q = InfoPool::from_random_of_size(&mut rng, 64);
    assert!(q.buffer().iter().any(|&b| b != q.buffer()[0]));
}

#[test]
fn recorder_spans_nest_by_level() {
    let source = InfoPool::of_vec(vec![1, 2, 3]);
    let mut p = InfoRecorder::new(source.replay());
    p.draw(FnSink(|src: &mut dyn InfoSource| {
        let _ = src.draw_u8();
        src.open_region();
        let _ = src.draw_u8();
        src.close_region();
    }));
    assert_eq!(
        p.spans_iter(),
        vec![Span { start: 0, end: 2, level: 0 }, Span { start: 1, end: 2, level: 1 }]
    );
    let pool = p.into_pool();
    assert_eq!(pool.buffer(), &[1, 2]);
}
