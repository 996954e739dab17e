use suppositions::subrandom::VanderCorput;

#[test]
fn should_generate_from_zero() {
    let mut g = VanderCorput::new();
    assert_eq!(g.next_u64(), 0b0);

    assert_eq!(g.next_u64(), 0b1 << 63);

    assert_eq!(g.next_u64(), 0b01 << 62);
    assert_eq!(g.next_u64(), 0b11 << 62);

    assert_eq!(g.next_u64(), 0b001 << 61);
    assert_eq!(g.next_u64(), 0b101 << 61);
    assert_eq!(g.next_u64(), 0b011 << 61);
    assert_eq!(g.next_u64(), 0b111 << 61);
}

#[test]
fn next_u32_is_the_high_half() {
    let mut g = VanderCorput::new();
    assert_eq!(g.next_u32(), 0);
    assert_eq!(g.next_u32(), 1 << 31);
    assert_eq!(g.next_u32(), 1 << 30);
}

#[test]
fn each_number_is_its_count_reversed() {
    let mut g = VanderCorput::new();
    for n in 0..1000u64 {
        assert_eq!(g.next_u64(), n.reverse_bits());
    }
}
