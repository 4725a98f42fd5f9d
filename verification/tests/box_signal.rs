use dsp::dft::{fdft, idft};
use std::f64::consts::PI;

#[derive(Clone, Copy, Debug, PartialEq)]
struct C(f64, f64);

fn polar(r: f64, th: f64) -> C {
    let (s, c) = th.sin_cos();
    C(r * c, r * s)
}

fn conj(a: C) -> C {
    C(a.0, -a.1)
}

fn plus(a: C, b: C) -> C {
    C(a.0 + b.0, a.1 + b.1)
}

fn minus(a: C, b: C) -> C {
    C(a.0 - b.0, a.1 - b.1)
}

fn times(a: C, b: C) -> C {
    C(a.0 * b.0 - a.1 * b.1, a.0 * b.1 + a.1 * b.0)
}

fn over(a: C, b: C) -> C {
    let num = times(a, conj(b));
    let den = times(b, conj(b));
    C(num.0 / den.0, num.1 / den.0)
}

fn twiddle(k: usize, n: usize) -> C {
    polar(1.0, -2.0 * PI * (k as f64) / (n as f64))
}

fn scale(a: C, n: usize) -> C {
    over(a, C(n as f64, 0.0))
}

fn forward(input: &[C], output: &mut [C]) {
    fdft(input, output, twiddle, times, plus, minus);
}

fn inverse(input: &[C], output: &mut [C]) {
    idft(input, output, conj, twiddle, times, plus, minus, scale);
}

fn assert_aq(a: C, b: C) {
    assert!(f64::abs(a.0 - b.0) <= 0.01, "{:?} is not close to {:?}", a, b);
    assert!(f64::abs(a.1 - b.1) <= 0.01, "{:?} is not close to {:?}", a, b);
}

#[test]
fn test_fdft() {
    let input = [
        C(1.00, 0.00), C(1.00, 0.00),
        C(1.00, 0.00), C(1.00, 0.00),
        C(0.00, 0.00), C(0.00, 0.00),
        C(0.00, 0.00), C(0.00, 0.00),
    ];
    let mut output = [C(0.0, 0.0); 8];
    forward(&input, &mut output);
    assert_aq(output[0], C(4.00, 0.00));
    assert_aq(output[1], C(1.00, -2.41));
    assert_aq(output[2], C(0.00, 0.00));
    assert_aq(output[3], C(1.00, -0.41));
    assert_aq(output[4], C(0.00, 0.00));
    assert_aq(output[5], C(0.99, 0.41));
    assert_aq(output[6], C(0.00, 0.00));
    assert_aq(output[7], C(0.99, 2.41));
}

#[test]
fn test_idft() {
    let input = [
        C(4.00, 0.00), C(1.00, -2.41),
        C(0.00, 0.00), C(1.00, -0.41),
        C(0.00, 0.00), C(0.99, 0.41),
        C(0.00, 0.00), C(0.99, 2.41),
    ];
    let mut output = [C(0.0, 0.0); 8];
    inverse(&input, &mut output);
    assert_aq(output[0], C(1.00, 0.00));
    assert_aq(output[1], C(1.00, 0.00));
    assert_aq(output[2], C(1.00, 0.00));
    assert_aq(output[3], C(1.00, 0.00));
    assert_aq(output[4], C(0.00, 0.00));
    assert_aq(output[5], C(0.00, 0.00));
    assert_aq(output[6], C(0.00, 0.00));
    assert_aq(output[7], C(0.00, 0.00));
}
