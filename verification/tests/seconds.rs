use pgreap::rounding::{power_of_two, round_half_even, round_quotient};
use pgreap::seconds::Seconds;

fn secs(value: f64) -> Seconds {
    Seconds::from_bits(value.to_bits())
}

#[test]
fn order_is_that_of_the_numbers() {
    let values = [
        f64::NEG_INFINITY,
        -1e300,
        -60.0,
        -1.0,
        -5e-324,
        -0.0,
        0.0,
        5e-324,
        f64::MIN_POSITIVE,
        0.1,
        59.9,
        60.0,
        60.00000000000001,
        3600.0,
        1e300,
        f64::INFINITY,
        f64::NAN,
    ];
    for a in values {
        for b in values {
            assert_eq!(secs(a).at_least(secs(b)), a >= b);
            assert_eq!(secs(a) == secs(b), a == b);
        }
    }
}

#[test]
fn bits_are_kept() {
    assert_eq!(secs(61.5).bits, 61.5f64.to_bits());
    assert_eq!(Seconds::default().bits, 0);
}

#[test]
fn halves_go_to_the_even_neighbour() {
    assert_eq!(round_half_even(5, 2), 2);
    assert_eq!(round_half_even(7, 2), 4);
    assert_eq!(round_half_even(8, 3), 3);
    assert_eq!(round_half_even(7, 3), 2);
    assert_eq!(round_half_even(0, 9), 0);
}

#[test]
fn quotients_keep_fifty_three_bits() {
    assert_eq!(round_quotient(7, 2), 4);
    assert_eq!(round_quotient(u64::MAX as u128, 1), 1u128 << 64);
    assert_eq!(round_quotient((1 << 53) + 1, 1), 1 << 53);
    assert_eq!(round_quotient((1 << 53) + 3, 1), (1 << 53) + 4);
    let mut n: u128 = 0x1234_5678_9ABC_DEF0;
    for _ in 0..1000 {
        n = (n * 6364136223846793005 + 1442695040888963407) % (1 << 64);
        assert_eq!(round_quotient(n, 1), n as f64 as u128);
    }
}

#[test]
fn powers_of_two() {
    assert_eq!(power_of_two(0), 1);
    assert_eq!(power_of_two(10), 1024);
    assert_eq!(power_of_two(126), 1u128 << 126);
}
