//! Doubles next to those of the machine.

use mimic::align::{word_spans, AlignMode};
use mimic::audio::{seam_discontinuity, WavAudio};
use mimic::double::Double;
use mimic::frac::Frac;

fn d(x: f64) -> Double {
    Double::of_bits(x.to_bits())
}

fn number(x: Double) -> f64 {
    f64::from_bits(x.to_bits())
}

/// Numbers of all sizes, the same ones every time.
fn samples() -> Vec<f64> {
    let mut out = vec![
        0.0,
        5e-324,
        2.2250738585072014e-308,
        2.225073858507201e-308,
        0.1,
        0.5,
        1.0,
        1.0000000000000002,
        3.0,
        9007199254740991.0,
        9007199254740993.0,
        1e300,
        f64::MAX,
    ];
    let mut state: u64 = 42;
    for i in 0..150u64 {
        state = state.wrapping_mul(6364136223846793005).wrapping_add(1442695040888963407);
        let around = if i % 3 == 0 { 1023 } else { 1000 + (state >> 40) % 46 };
        let wide = if i % 5 == 0 { (state >> 20) % 2047 } else { around };
        out.push(f64::from_bits((wide << 52) | (state >> 12)));
    }
    out
}

fn shifts(v: &[i16], by: i16) -> Vec<i16> {
    v.iter().map(|x| x.wrapping_add(by)).collect()
}

#[test]
fn bits_come_back() {
    for x in samples() {
        assert_eq!(d(x).to_bits(), x.to_bits());
    }
    assert_eq!(number(Double::infinity()), f64::INFINITY);
    assert_eq!(number(Double::zero()), 0.0);
}

#[test]
fn sums_are_rounded_alike() {
    for a in samples() {
        for b in samples() {
            assert_eq!(number(d(a).plus(d(b))), a + b, "{a:e} + {b:e}");
            assert_eq!(number(d(a).apart(d(b))), (a - b).abs(), "{a:e} - {b:e}");
            assert_eq!(d(a).less(d(b)), a < b);
        }
    }
}

#[test]
fn products_are_rounded_alike() {
    for a in samples() {
        for b in samples() {
            assert_eq!(number(d(a).times(d(b))), a * b, "{a:e} * {b:e}");
            if b > 0.0 {
                assert_eq!(number(d(a).over(d(b))), a / b, "{a:e} / {b:e}");
            }
        }
    }
}

#[test]
fn roots_are_rounded_alike() {
    for x in samples() {
        assert_eq!(number(d(x).root()), x.sqrt(), "{x:e}");
    }
    for n in 0..2000u64 {
        assert_eq!(number(Double::of(n).root()), (n as f64).sqrt());
    }
}

#[test]
fn whole_numbers_are_rounded_alike() {
    for n in [0, 1, 300, u64::MAX, (1 << 53) + 1, (1 << 53) + 3, (1 << 60) + 129] {
        assert_eq!(number(Double::of(n)), n as f64);
    }
    for (num, den) in [(1, 10), (45, 100), (1, 3), (2, 3), (85, 100), (1, 1_000_000)] {
        assert_eq!(number(Double::of_ratio(num, den)), num as f64 / den as f64);
    }
    for x in [0.0, 0.49999999999999994, 0.5, 1.5, 2.5, 1e15 + 0.5, 1e19, 1e30, 3.2e-5] {
        assert_eq!(d(x).to_whole(), x.round() as u64, "{x:e}");
        assert_eq!(d(x).to_floor(), x as u64, "{x:e}");
    }
}

#[test]
fn single_precision_is_rounded_alike() {
    for x in samples() {
        if x < 1e30 && (x == 0.0 || x > 1e-30) {
            assert_eq!(number(d(x).single()), x as f32 as f64, "{x:e}");
        }
    }
}

#[test]
fn levels_are_those_of_the_machine() {
    let mut state: u64 = 7;
    let noise: Vec<i16> = (0..1777)
        .map(|_| {
            state = state.wrapping_mul(6364136223846793005).wrapping_add(1);
            (state >> 48) as i16
        })
        .collect();
    let a = WavAudio::new(noise.clone(), 16_000);
    let rms = |v: &[i16]| {
        let sum: f64 = v.iter().map(|&s| (s as f64 / 32768.0) * (s as f64 / 32768.0)).sum();
        (sum / v.len() as f64).sqrt()
    };
    let rate = |v: &[i16]| {
        v.windows(2).filter(|w| (w[0] < 0) != (w[1] < 0)).count() as f64 / (v.len() - 1) as f64
    };
    assert_eq!(number(a.rms()), rms(&noise));
    assert_eq!(number(a.zero_crossing_rate()), rate(&noise));
    assert_eq!(number(a.duration_ms()), 1777.0 * 1000.0 / 16_000.0);
    let b = WavAudio::new(shifts(&noise, 77), 16_000);
    let (x, y) = (&noise[1777 - 160..], &b.samples[..160]);
    assert_eq!(
        number(seam_discontinuity(&a, &b)),
        (rms(x) - rms(y)).abs() + (rate(x) - rate(y)).abs()
    );
}

#[test]
fn fractions_are_those_of_the_machine() {
    for den in 1..40u64 {
        for num in 0..den {
            for n in [0usize, 1, 7, 160, 333, 16_001] {
                let want = ((num as f64 / den as f64) * n as f64).round() as usize;
                assert_eq!(Frac { num, den }.of(n), want.min(n), "{num}/{den} of {n}");
            }
        }
    }
}

#[test]
fn silence_keeps_the_seed() {
    let audio = WavAudio::new(vec![0; 16_000], 16_000);
    let words = vec!["one".to_string(), "three".to_string()];
    let spans = word_spans(&audio, &words, AlignMode::default());
    assert_eq!((spans[0].start, spans[0].end, spans[1].end), (0, 5_333, 16_000));
}
