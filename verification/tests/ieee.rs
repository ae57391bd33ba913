use sonicfusion::dsp::{sine_phase_at_frame, square_at_frame};
use sonicfusion::ieee::decimal::parse_double;
use sonicfusion::ieee::fixed::fixed_text;
use sonicfusion::ieee::number::{Double, Single};
use sonicfusion::text::decimal_text;

fn double(value: f64) -> Double {
    Double { bits: value.to_bits() }
}

fn single(value: f32) -> Single {
    Single { bits: value.to_bits() }
}

fn next(state: &mut u64) -> u64 {
    *state ^= *state << 13;
    *state ^= *state >> 7;
    *state ^= *state << 17;
    *state
}

fn same_double(got: Double, expected: f64) -> bool {
    let value = f64::from_bits(got.bits);
    value.is_nan() && expected.is_nan() || got.bits == expected.to_bits()
}

fn same_single(got: Single, expected: f32) -> bool {
    let value = f32::from_bits(got.bits);
    value.is_nan() && expected.is_nan() || got.bits == expected.to_bits()
}

const DOUBLES: [f64; 16] = [
    0.0,
    -0.0,
    1.0,
    -1.0,
    0.1,
    1.5,
    f64::MIN_POSITIVE,
    5e-324,
    -5e-324,
    f64::MAX,
    f64::MIN,
    f64::INFINITY,
    f64::NEG_INFINITY,
    f64::NAN,
    4503599627370497.5,
    1.7976931348623155e308,
];

const SINGLES: [f32; 14] = [
    0.0,
    -0.0,
    1.0,
    -1.0,
    0.1,
    1.5,
    f32::MIN_POSITIVE,
    1e-45,
    f32::MAX,
    f32::MIN,
    f32::INFINITY,
    f32::NEG_INFINITY,
    f32::NAN,
    8388609.0,
];

fn check_doubles(a: f64, b: f64) {
    assert!(same_double(double(a).plus(double(b)), a + b), "{a:e} + {b:e}");
    assert!(same_double(double(a).minus(double(b)), a - b), "{a:e} - {b:e}");
    assert!(same_double(double(a).times(double(b)), a * b), "{a:e} * {b:e}");
    assert!(same_double(double(a).over(double(b)), a / b), "{a:e} / {b:e}");
    assert_eq!(double(a).less_than(double(b)), a < b, "{a:e} < {b:e}");
    assert_eq!(double(a).is_finite(), a.is_finite());
    assert!(same_single(double(a).narrow(), a as f32), "{a:e} as f32");
    assert!(same_double(double(a).fract(), a.fract()), "fract of {a:e}");
}

fn check_singles(a: f32, b: f32) {
    assert!(same_single(single(a).plus(single(b)), a + b), "{a:e} + {b:e}");
    assert!(same_single(single(a).minus(single(b)), a - b), "{a:e} - {b:e}");
    assert!(same_single(single(a).times(single(b)), a * b), "{a:e} * {b:e}");
    assert!(same_single(single(a).over(single(b)), a / b), "{a:e} / {b:e}");
    assert_eq!(single(a).less_than(single(b)), a < b, "{a:e} < {b:e}");
    assert_eq!(single(a).is_finite(), a.is_finite());
    assert!(same_double(single(a).widen(), f64::from(a)), "{a:e} as f64");
}

#[test]
fn arithmetic_on_special_values_agrees_with_the_machine() {
    for a in DOUBLES {
        for b in DOUBLES {
            check_doubles(a, b);
        }
    }
    for a in SINGLES {
        for b in SINGLES {
            check_singles(a, b);
        }
    }
}

#[test]
fn arithmetic_on_scattered_values_agrees_with_the_machine() {
    let mut state = 0x9e37_79b9_7f4a_7c15;
    for _ in 0..20_000 {
        let a = f64::from_bits(next(&mut state));
        let b = f64::from_bits(next(&mut state));
        check_doubles(a, b);
        // Neighbours in size, where digits cancel.
        let c = f64::from_bits(a.to_bits() ^ (next(&mut state) >> 12));
        check_doubles(a, c);
        check_doubles(a, -c);
        let x = f32::from_bits(next(&mut state) as u32);
        let y = f32::from_bits(next(&mut state) as u32);
        check_singles(x, y);
        let z = f32::from_bits(x.to_bits() ^ (next(&mut state) as u32 >> 9));
        check_singles(x, z);
        check_singles(x, -z);
    }
}

#[test]
fn whole_numbers_are_converted_like_the_machine() {
    let mut state = 0x1234_5678_9abc_def1;
    for shift in 0..64 {
        for _ in 0..50 {
            let value = next(&mut state) >> shift;
            assert_eq!(Double::from_whole(value).bits, (value as f64).to_bits());
            assert_eq!(Single::from_whole(value).bits, (value as f32).to_bits());
            assert_eq!(decimal_text(value), value.to_string());
        }
    }
    for value in [0, 1, u64::MAX, 1 << 53, (1 << 53) + 1, (1 << 24) + 1] {
        assert_eq!(Double::from_whole(value).bits, (value as f64).to_bits());
        assert_eq!(Single::from_whole(value).bits, (value as f32).to_bits());
        assert_eq!(decimal_text(value), value.to_string());
    }
}

#[test]
fn decimals_are_read_like_the_machine_reads_them() {
    for text in [
        "0", "-0", "1", "440.0", "0.1", ".5", "5.", "+3", "1e3", "1E-3", "1e+3", "1e400", "-1e400",
        "1e-400", "4.9e-324", "2.4703282292062327e-324", "2.4703282292062328e-324",
        "1.7976931348623157e308", "1.7976931348623159e308", "9007199254740993", "0e99999999999999999999999",
        "1e99999999999999999999999999", "1e-99999999999999999999999999", "123456789012345678901234567890",
        "0.000000000000000000000000000000000001", "inf", "-INF", "Infinity", "+nan", "NaN", "",
        ".", "-", "+", "e5", "1e", "1e+", "1.2.3", "--1", "1 ", " 1", "0x10", "1_0", "infin", "nano",
        "2.2250738585072011e-308", "2.2250738585072014e-308",
    ] {
        let expected = text.parse::<f64>().ok();
        let got = parse_double(text);
        assert_eq!(got.is_some(), expected.is_some(), "{text:?}");
        if let (Some(got), Some(expected)) = (got, expected) {
            assert!(same_double(got, expected), "{text:?}: {:e}", f64::from_bits(got.bits));
        }
    }
    let mut state = 0x0dd0_c0de_1234_5679;
    for _ in 0..150 {
        let value = f64::from_bits(next(&mut state));
        for text in [format!("{value}"), format!("{value:e}"), format!("{value:.3e}")] {
            let expected = text.parse::<f64>().unwrap();
            assert!(same_double(parse_double(&text).unwrap(), expected), "{text}");
        }
    }
}

#[test]
fn fixed_decimals_are_written_like_the_machine_writes_them() {
    let mut values = vec![
        0.0, -0.0, 0.0005, 0.0625, 0.1875, 160.0, 16.0, 1.0, 304.0, 0.9995, 0.99951171875, 1e10,
        16777216.0, 1e30, f32::MAX, f32::MIN_POSITIVE, 1e-45, -2.5, 0.5, 1.5, 2.5, f32::INFINITY,
        f32::NEG_INFINITY, f32::NAN,
    ];
    let mut state = 0xfeed_beef_cafe_0001;
    for _ in 0..2_000 {
        values.push(f32::from_bits(next(&mut state) as u32));
        values.push((next(&mut state) % 2_000_000) as f32 / 4096.0);
    }
    for value in values {
        assert_eq!(fixed_text(single(value), 3), format!("{value:.3}"));
        assert_eq!(fixed_text(single(value), 6), format!("{value:.6}"));
    }
}

#[test]
fn waveform_phases_agree_with_the_machine() {
    let mut state = 0xabcd_ef01_2345_6789;
    for _ in 0..2_000 {
        let frame = next(&mut state) >> (next(&mut state) % 64);
        let rate = (next(&mut state) as u32 >> 8) + 1;
        let frequency = (next(&mut state) % 1_000_000) as f64 / 977.0;
        let phase = std::f64::consts::TAU * frame as f64 * frequency / rate as f64;
        assert_eq!(sine_phase_at_frame(frame, rate, double(frequency)).bits, phase.to_bits());
        let width = (next(&mut state) % 1000) as f64 / 1000.0;
        let fraction = (frame as f64 * frequency / f64::from(rate)).fract();
        let expected = if fraction < width { 1.0 } else { -1.0 };
        let got = square_at_frame(frame, rate, double(frequency), double(width));
        assert_eq!(f32::from_bits(got.bits), expected);
    }
}
