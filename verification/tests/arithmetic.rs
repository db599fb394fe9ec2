//! The arithmetic of `Binary64` against that of the machine.

use prompt_eval_rubric::average::{overall_score, sum_of};
use prompt_eval_rubric::score::clip01;
use prompt_eval_rubric::Binary64;

fn num(x: f64) -> Binary64 {
    Binary64 { bits: x.to_bits() }
}

fn float(x: Binary64) -> f64 {
    f64::from_bits(x.bits)
}

/// Encodings at every edge of the format, with both signs.
fn edges() -> Vec<f64> {
    let codes: Vec<u64> = vec![
        0,
        1,
        2,
        3,
        0x0008_0000_0000_0000,
        0x000f_ffff_ffff_ffff,
        0x0010_0000_0000_0000,
        0x0010_0000_0000_0001,
        0x001f_ffff_ffff_ffff,
        0x0020_0000_0000_0000,
        0x1e60_0000_0000_0001,
        0x2000_0000_0000_0000,
        0x3ca0_0000_0000_0000,
        0x3cb0_0000_0000_0000,
        0x3fb9_9999_9999_999a,
        0x3fd5_5555_5555_5555,
        0x3fe0_0000_0000_0000,
        0x3fef_ffff_ffff_ffff,
        0x3ff0_0000_0000_0000,
        0x3ff0_0000_0000_0001,
        0x4000_0000_0000_0000,
        0x4008_0000_0000_0000,
        0x4330_0000_0000_0000,
        0x4340_0000_0000_0001,
        0x7fdf_ffff_ffff_ffff,
        0x7fe0_0000_0000_0000,
        0x7fef_ffff_ffff_ffff,
        0x7ff0_0000_0000_0000,
        0x7ff0_0000_0000_0001,
        0x7ff8_0000_0000_0000,
        0x7fff_ffff_ffff_ffff,
    ];
    let mut all: Vec<f64> = Vec::new();
    for c in codes {
        all.push(f64::from_bits(c));
        all.push(f64::from_bits(c | 0x8000_0000_0000_0000));
    }
    all
}

/// A stream of encodings that cover all exponents and many close ones.
struct Stream(u64);

impl Stream {
    fn bits(&mut self) -> u64 {
        self.0 ^= self.0 << 13;
        self.0 ^= self.0 >> 7;
        self.0 ^= self.0 << 17;
        self.0
    }

    fn pair(&mut self) -> (f64, f64) {
        let a = self.bits();
        let b = self.bits();
        let near = self.bits() % 3 == 0;
        let shift = self.bits() % 140;
        if near {
            let exponent = ((a >> 52) & 0x7ff).saturating_sub(shift);
            (
                f64::from_bits(a),
                f64::from_bits((b & 0x800f_ffff_ffff_ffff) | (exponent << 52)),
            )
        } else {
            (f64::from_bits(a), f64::from_bits(b))
        }
    }
}

fn same(ours: Binary64, machine: f64) -> bool {
    if machine.is_nan() {
        float(ours).is_nan()
    } else {
        ours.bits == machine.to_bits()
    }
}

fn check_pair(a: f64, b: f64) {
    let (x, y) = (num(a), num(b));
    assert!(same(x.add(y), a + b), "{:?} + {:?}", a, b);
    assert!(same(x.mul(y), a * b), "{:?} * {:?}", a, b);
    assert!(same(x.div(y), a / b), "{:?} / {:?}", a, b);
    assert_eq!(x.less_than(y), a < b);
    assert_eq!(x.equal_to(y), a == b);
    assert_eq!(x == y, a == b);
}

#[test]
fn operations_match_the_machine_at_the_edges() {
    for a in edges() {
        for b in edges() {
            check_pair(a, b);
        }
    }
}

#[test]
fn operations_match_the_machine_on_a_long_stream() {
    let mut stream = Stream(0x9e37_79b9_7f4a_7c15);
    for _ in 0..60_000 {
        let (a, b) = stream.pair();
        check_pair(a, b);
    }
}

#[test]
fn operations_match_the_machine_on_everyday_numbers() {
    for i in 0..120 {
        for j in 0..120 {
            check_pair(i as f64 / 10.0, j as f64 / 7.0);
            check_pair(i as f64, -(j as f64));
        }
    }
}

#[test]
fn well_known_sums() {
    assert_eq!(num(0.1).add(num(0.2)).bits, 0x3fd3_3333_3333_3334);
    assert_eq!(num(1.0).div(num(3.0)).bits, 0x3fd5_5555_5555_5555);
    assert_eq!(num(0.9).mul(num(0.3)).bits, (0.9f64 * 0.3).to_bits());
    assert_eq!(num(f64::MAX).add(num(f64::MAX)).bits, f64::INFINITY.to_bits());
    assert_eq!(num(5e-324).div(num(2.0)).bits, 0);
    assert_eq!(num(1.0).add(num(-1.0)).bits, 0);
}

#[test]
fn not_a_number_is_told_apart() {
    for a in edges() {
        assert_eq!(num(a).is_not_a_number(), a.is_nan());
    }
}

#[test]
fn the_constants_are_the_machine_s() {
    assert_eq!(float(Binary64::zero()).to_bits(), 0.0f64.to_bits());
    assert_eq!(float(Binary64::negative_zero()).to_bits(), (-0.0f64).to_bits());
    assert_eq!(float(Binary64::one()), 1.0);
    assert!(float(Binary64::nan()).is_nan());
}

#[test]
fn clipping_matches_clamp() {
    for a in edges() {
        let expected = if a.is_nan() { 0.0 } else { a.clamp(0.0, 1.0) };
        assert_eq!(clip01(num(a)).bits, expected.to_bits());
        assert_eq!(clip01(clip01(num(a))).bits, expected.to_bits());
    }
}

fn machine_overall(values: &[f64], weights: &[f64]) -> f64 {
    let total: f64 = weights.iter().sum();
    let overall = if total == 0.0 || total.is_nan() {
        0.0
    } else {
        values.iter().zip(weights).map(|(v, w)| v * w).sum::<f64>() / total
    };
    if overall.is_nan() {
        0.0
    } else {
        overall.clamp(0.0, 1.0)
    }
}

#[test]
fn sums_match_the_machine() {
    assert_eq!(sum_of(&vec![]).bits, Vec::<f64>::new().iter().sum::<f64>().to_bits());
    let mut stream = Stream(7);
    for n in 1..200 {
        let terms: Vec<f64> = (0..n).map(|_| (stream.bits() % 1000) as f64 / 37.0).collect();
        let ours: Vec<Binary64> = terms.iter().map(|x| num(*x)).collect();
        assert_eq!(sum_of(&ours).bits, terms.iter().sum::<f64>().to_bits());
    }
    for a in edges() {
        for b in edges() {
            let machine: f64 = [a, b].iter().sum();
            assert!(same(sum_of(&vec![num(a), num(b)]), machine));
        }
    }
}

#[test]
fn weighted_averages_match_the_machine() {
    let special = vec![
        0.0,
        -0.0,
        1.0,
        0.5,
        5e-324,
        1e-308,
        1e308,
        f64::MAX,
        f64::INFINITY,
        f64::NAN,
    ];
    let scores = vec![0.0, -0.0, 1.0, 0.3, 5e-324];
    for w1 in &special {
        for w2 in &special {
            for v1 in &scores {
                for v2 in &scores {
                    let machine = machine_overall(&[*v1, *v2], &[*w1, *w2]);
                    let ours =
                        overall_score(&vec![num(*v1), num(*v2)], &vec![num(*w1), num(*w2)]);
                    assert_eq!(ours.bits, machine.to_bits(), "{v1} {v2} {w1} {w2}");
                }
            }
        }
    }
    let mut stream = Stream(99);
    for n in 1..60 {
        let values: Vec<f64> = (0..n).map(|_| (stream.bits() % 1001) as f64 / 1000.0).collect();
        let weights: Vec<f64> = (0..n).map(|_| (stream.bits() % 977) as f64 / 31.0).collect();
        let v: Vec<Binary64> = values.iter().map(|x| num(*x)).collect();
        let w: Vec<Binary64> = weights.iter().map(|x| num(*x)).collect();
        assert_eq!(overall_score(&v, &w).bits, machine_overall(&values, &weights).to_bits());
    }
}
