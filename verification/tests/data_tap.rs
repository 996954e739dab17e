use suppositions::data::tap::minimize;
use suppositions::data::{InfoPool, InfoTap};

fn take_n(mut t: InfoTap, n: usize) -> Vec<u8> {
    let mut res = Vec::new();
    for _ in 0..n {
        res.push(t.next().expect("a tap never runs dry"));
    }
    res
}

#[test]
fn data_should_take_each_item_in_pool() {
    let p = InfoPool::of_vec(vec![0, 1, 2, 3]);
    let mut t = p.tap();
    assert_eq!(t.next_byte(), 0);
    assert_eq!(t.next_byte(), 1);
    assert_eq!(t.next_byte(), 2);
    assert_eq!(t.next_byte(), 3);
    assert_eq!(t.next_byte(), 0);
}

#[test]
fn should_generate_random_data_of_size() {
    let size = 100;
    let p = InfoPool::random_of_size(size);
    assert_eq!(p.len(), size);
    let mut t = p.tap();
    for _ in 0..size {
        let _ = t.next_byte();
    }
    assert_eq!(t.next_byte(), 0);
}

#[test]
fn data_should_allow_restarting_read() {
    let p = InfoPool::random_of_size(4);
    let mut t = p.tap();
    let mut v0 = Vec::new();
    for _ in 0..4 {
        v0.push(t.next_byte())
    }

    let mut t = p.tap();
    let mut v1 = Vec::new();
    for _ in 0..4 {
        v1.push(t.next_byte())
    }

    assert_eq!(v0, v1)
}

#[test]
fn data_should_allow_borrowing_buffer() {
    let p = InfoPool::of_vec(vec![1]);
    assert_eq!(p.buffer(), &[1]);
}

#[test]
fn tap_can_act_as_iterator() {
    let buf = vec![4, 3, 2, 1];
    let p = InfoPool::of_vec(buf.clone());

    assert_eq!(take_n(p.tap(), 4), buf)
}

#[test]
fn data_minimiser_should_minimise_to_empty() {
    let p = InfoPool::of_vec(vec![1]);
    let min = minimize(&p, &|_| true);

    assert_eq!(min.as_ref().map(|p| p.buffer()), Some([].as_ref()))
}

#[test]
fn data_minimiser_should_minimise_to_minimum_given_size() {
    let p = InfoPool::of_vec(vec![1; 4]);
    let min = minimize(&p, &|t| take_n(t, 16).into_iter().filter(|&v| v > 0).count() > 1)
        .expect("some smaller pool");

    assert_eq!(min.buffer(), &[1, 1])
}

#[test]
fn data_minimiser_should_minimise_scalar_values() {
    let p = InfoPool::of_vec(vec![255; 3]);
    let min = minimize(&p, &|t| take_n(t, 16).into_iter().any(|v| v >= 3)).expect("some smaller pool");

    assert_eq!(min.buffer(), &[3])
}

#[test]
fn data_minimiser_should_minimise_scalar_values_to_empty() {
    let p = InfoPool::of_vec(vec![255; 3]);
    let min = minimize(&p, &|t| take_n(t, 16).into_iter().any(|_| true)).expect("some smaller pool");

    assert_eq!(min.buffer(), &[] as &[u8])
}

#[test]
fn data_minimiser_should_minimise_scalar_values_by_search() {
    let p = InfoPool::of_vec(vec![255; 3]);
    let min =
        minimize(&p, &|t| take_n(t, 16).into_iter().any(|v| v >= 13)).expect("some smaller pool");

    assert_eq!(min.buffer(), &[13])
}

#[test]
fn data_minimiser_should_minimise_scalar_values_accounting_for_overflow() {
    let p = InfoPool::of_vec(vec![255; 3]);
    let min =
        minimize(&p, &|t| take_n(t, 16).into_iter().any(|v| v >= 251)).expect("some smaller pool");

    assert_eq!(min.buffer(), &[251])
}

#[test]
fn tap_minimiser_gives_none_when_nothing_smaller_passes() {
    let p = InfoPool::of_vec(vec![]);
    assert!(minimize(&p, &|_| true).is_none());
}

#[test]
fn tap_minimiser_result_passes_and_is_smaller() {
    let p = InfoPool::of_vec(vec![9, 200, 7]);
    let pred = |t: InfoTap| take_n(t, 3)[1] >= 100;
    let min = minimize(&p, &pred).expect("some smaller pool");
    assert!(pred(min.tap()));
    let sum = |q: &InfoPool| q.buffer().iter().map(|&b| b as u32).sum::<u32>();
    assert!(min.len() < p.len() || (min.len() == p.len() && sum(&min) < sum(&p)));
}
