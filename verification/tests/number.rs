use mapmaker::number::Number;

fn number(x: f64) -> Number {
    Number { bits: x.to_bits() }
}

fn samples() -> Vec<f64> {
    vec![
        0.,
        -0.,
        5e-324,
        -5e-324,
        2.2250738585072014e-308,
        1e-300,
        0.1,
        -0.1,
        0.5,
        0.9999999999999999,
        1.,
        -1.,
        1.5,
        2.,
        3.999,
        10_000.,
        9_999.999,
        123_456.789,
        4_294_967_294.9,
        4_294_967_295.,
        4_294_967_296.,
        1e15,
        1e300,
        -1e300,
        f64::MAX,
        f64::MIN,
        f64::INFINITY,
        f64::NEG_INFINITY,
        f64::NAN,
        -f64::NAN,
    ]
}

#[test]
fn numbers_compare_as_they_should() {
    for &x in &samples() {
        for &y in &samples() {
            assert_eq!(number(x).less_than(number(y)), x < y, "{} {}", x, y);
            assert_eq!(number(x).equals(number(y)), x == y, "{} {}", x, y);
        }
    }
}

#[test]
fn the_greater_and_the_lesser_number_are_found() {
    for &x in &samples() {
        for &y in &samples() {
            let greater = f64::from_bits(number(x).max(number(y)).bits);
            let lesser = f64::from_bits(number(x).min(number(y)).bits);
            assert!(greater == x.max(y) || (x.is_nan() && y.is_nan() && greater.is_nan()));
            assert!(lesser == x.min(y) || (x.is_nan() && y.is_nan() && lesser.is_nan()));
        }
    }
}

#[test]
fn what_is_not_a_number_is_recognized() {
    for &x in &samples() {
        assert_eq!(number(x).not_a_number(), x.is_nan());
    }
}

#[test]
fn fractions_are_cut_off() {
    for &x in &samples() {
        assert_eq!(number(x).to_whole(), x as u32, "{}", x);
    }
    let mut x = 0.3;
    while x < 1e11 {
        assert_eq!(number(x).to_whole(), x as u32, "{}", x);
        assert_eq!(number(-x).to_whole(), 0);
        x = x * 1.37;
    }
    assert_eq!(number(8_804_190.7).to_whole(), 8_804_190);
}
