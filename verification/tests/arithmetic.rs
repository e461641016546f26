//! Percentages against the machine's own floating-point numbers.

use kdynaroll::binary64::{sum_to_hundred, Percentage};
use kdynaroll::text::decimal_text;

fn percentage(value: f64) -> Percentage {
    Percentage::from_bits(value.to_bits())
}

fn native_share(value: f64, pods: usize) -> usize {
    (pods as f64 * value / 100.0).floor() as usize
}

struct Noise(u64);

impl Noise {
    fn next(&mut self) -> u64 {
        self.0 ^= self.0 << 13;
        self.0 ^= self.0 >> 7;
        self.0 ^= self.0 << 17;
        self.0
    }
}

fn special_values() -> Vec<f64> {
    vec![
        0.0,
        -0.0,
        1.0,
        -1.0,
        33.3,
        33.333333333333336,
        66.66666666666667,
        99.99999999999999,
        100.0,
        100.00000000000001,
        150.0,
        f64::MAX,
        f64::MIN,
        f64::MIN_POSITIVE,
        f64::from_bits(1),
        f64::from_bits(0x000f_ffff_ffff_ffff),
        f64::INFINITY,
        f64::NEG_INFINITY,
        f64::NAN,
    ]
}

fn special_counts() -> Vec<usize> {
    vec![
        0,
        1,
        2,
        3,
        7,
        99,
        100,
        101,
        12345,
        (1 << 53) - 1,
        1 << 53,
        (1 << 53) + 1,
        usize::MAX / 2,
        usize::MAX - 1,
        usize::MAX,
    ]
}

#[test]
fn special_shares() {
    for value in special_values() {
        for pods in special_counts() {
            assert_eq!(percentage(value).share(pods), native_share(value, pods));
        }
    }
}

#[test]
fn exact_shares() {
    assert_eq!(percentage(97.0).share(5), 4);
    assert_eq!(percentage(50.0).share(10), 5);
    assert_eq!(percentage(33.3).share(10), 3);
    assert_eq!(percentage(100.0).share(7), 7);
    assert_eq!(percentage(-1.0).share(7), 0);
    assert_eq!(percentage(f64::INFINITY).share(7), usize::MAX);
    assert_eq!(percentage(f64::NAN).share(7), 0);
}

#[test]
fn random_shares() {
    let mut noise = Noise(0x2545_f491_4f6c_dd1d);
    for _ in 0..200_000 {
        let value = f64::from_bits(noise.next());
        let pods = (noise.next() >> (noise.next() % 64)) as usize;
        assert_eq!(percentage(value).share(pods), native_share(value, pods));
    }
}

#[test]
fn ordinary_shares() {
    let mut noise = Noise(0x9e37_79b9_7f4a_7c15);
    for _ in 0..200_000 {
        let value = (noise.next() % 100_001) as f64 / 1000.0;
        let pods = (noise.next() % 10_000) as usize;
        assert_eq!(percentage(value).share(pods), native_share(value, pods));
    }
}

#[test]
fn order_of_percentages() {
    let mut values = special_values();
    let mut noise = Noise(0x0123_4567_89ab_cdef);
    for _ in 0..200 {
        values.push(f64::from_bits(noise.next()));
    }
    for a in &values {
        assert_eq!(percentage(*a).is_number(), !a.is_nan());
        for b in &values {
            if !a.is_nan() && !b.is_nan() {
                assert_eq!(percentage(*a).is_above(&percentage(*b)), a > b);
            }
        }
    }
}

#[test]
fn sums_of_percentages() {
    let mut noise = Noise(0xdead_beef_cafe_f00d);
    let mut hundreds = 0;
    for round in 0..100_000 {
        let len = 1 + (noise.next() % 6) as usize;
        let mut values = Vec::new();
        for _ in 0..len {
            values.push((noise.next() % 1001) as f64 / 10.0);
        }
        if round % 2 == 0 {
            let sum = values.iter().fold(0.0, |acc, value| acc + value);
            values.push(100.0 - sum);
        }
        let sum = values.iter().fold(0.0, |acc, value| acc + value);
        let percentages: Vec<Percentage> = values.iter().map(|value| percentage(*value)).collect();
        assert_eq!(sum_to_hundred(&percentages), sum == 100.0);
        if sum == 100.0 {
            hundreds += 1;
        }
    }
    assert!(hundreds > 10_000);
}

#[test]
fn random_sums() {
    let mut noise = Noise(0x1357_9bdf_0246_8ace);
    for _ in 0..100_000 {
        let a = f64::from_bits(noise.next());
        let b = f64::from_bits(noise.next());
        let rest = 100.0 - (a + b);
        let sum = ((0.0 + a) + b) + rest;
        let percentages = vec![percentage(a), percentage(b), percentage(rest)];
        assert_eq!(sum_to_hundred(&percentages), sum == 100.0);
    }
}

#[test]
fn sums_of_special_percentages() {
    let values = special_values();
    for a in &values {
        for b in &values {
            for c in &values {
                let sum = ((0.0 + a) + b) + c;
                let percentages = vec![percentage(*a), percentage(*b), percentage(*c)];
                assert_eq!(sum_to_hundred(&percentages), sum == 100.0);
            }
        }
    }
}

#[test]
fn shares_never_claim_more_than_all_pods() {
    let mut noise = Noise(0x0f1e_2d3c_4b5a_6978);
    for _ in 0..20_000 {
        let a = (noise.next() % 1_000_000) as f64 / 20_000.0;
        let b = (noise.next() % 1_000_000) as f64 / 20_000.0;
        let c = 100.0 - (a + b);
        let pods = (noise.next() % 1000) as usize;
        let all = vec![percentage(a), percentage(b), percentage(c)];
        if c >= 0.0 && sum_to_hundred(&all) {
            let claimed: usize = all.iter().map(|part| part.share(pods)).sum();
            assert!(claimed <= pods);
        }
    }
}

#[test]
fn numbers_in_decimal() {
    for n in [0, 1, 9, 10, 99, 100, 12345, usize::MAX as u128, u128::MAX] {
        assert_eq!(decimal_text(n), n.to_string());
    }
}
