use datadog_exporter::binary64::double_bits_of;

#[test]
fn zero_has_no_bits() {
    assert_eq!(double_bits_of(0), 0);
}

#[test]
fn small_integers_are_exact() {
    assert_eq!(double_bits_of(1), 0x3ff0_0000_0000_0000);
    assert_eq!(double_bits_of(2), 0x4000_0000_0000_0000);
    assert_eq!(double_bits_of(3), 0x4008_0000_0000_0000);
    assert_eq!(double_bits_of(-1), 0xbff0_0000_0000_0000);
    assert_eq!(double_bits_of(200), 200f64.to_bits());
}

#[test]
fn fifty_three_bits_are_exact() {
    let top: i64 = (1 << 53) - 1;
    assert_eq!(double_bits_of(top), (top as f64).to_bits());
    assert_eq!(f64::from_bits(double_bits_of(top)) as i64, top);
    assert_eq!(double_bits_of(1 << 53), 0x4340_0000_0000_0000);
    assert_eq!(double_bits_of(1 << 52), 0x4330_0000_0000_0000);
}

#[test]
fn a_tie_goes_to_the_even_neighbour() {
    let base: i64 = 1 << 53;
    assert_eq!(double_bits_of(base + 1), double_bits_of(base));
    assert_eq!(double_bits_of(base + 3), double_bits_of(base + 4));
    assert_eq!(double_bits_of(base + 2), 0x4340_0000_0000_0001);
    assert_eq!(double_bits_of(base + 5), double_bits_of(base + 4));
    assert_eq!(double_bits_of(base + 7), double_bits_of(base + 8));
}

#[test]
fn the_ends_of_the_range_round_to_powers_of_two() {
    assert_eq!(double_bits_of(i64::MAX), 0x43e0_0000_0000_0000);
    assert_eq!(double_bits_of(i64::MIN), 0xc3e0_0000_0000_0000);
    assert_eq!(double_bits_of(i64::MIN + 1), 0xc3e0_0000_0000_0000);
}

#[test]
fn conversion_agrees_with_the_machine() {
    let mut v: i64 = 1;
    let mut step: i64 = 3;
    for _ in 0..4000 {
        assert_eq!(double_bits_of(v), (v as f64).to_bits(), "for {}", v);
        assert_eq!(double_bits_of(-v), ((-v) as f64).to_bits(), "for {}", -v);
        v = v.wrapping_mul(6364136223846793005).wrapping_add(step);
        step = step.wrapping_add(2);
        if v == i64::MIN {
            v = 7;
        }
        if v < 0 {
            v = -v;
        }
    }
    for shift in 0..63 {
        let p: i64 = 1 << shift;
        for d in [-2i64, -1, 0, 1, 2] {
            let x = p.wrapping_add(d);
            assert_eq!(double_bits_of(x), (x as f64).to_bits(), "for {}", x);
        }
    }
}
