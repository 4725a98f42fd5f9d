// The transforms over complex numbers held as two floating-point lanes.

use dsp::dft::{fdft, idft};
use std::f64::consts::PI;

#[derive(Clone, Copy, Debug, PartialEq)]
struct Cx(f64, f64);

fn conj(a: Cx) -> Cx {
    Cx(a.0, -a.1)
}

fn plus(a: Cx, b: Cx) -> Cx {
    Cx(a.0 + b.0, a.1 + b.1)
}

fn minus(a: Cx, b: Cx) -> Cx {
    Cx(a.0 - b.0, a.1 - b.1)
}

fn times(a: Cx, b: Cx) -> Cx {
    Cx(a.0 * b.0 - a.1 * b.1, a.0 * b.1 + a.1 * b.0)
}

fn over(a: Cx, b: Cx) -> Cx {
    let num = times(a, conj(b));
    let den = times(b, conj(b));
    Cx(num.0 / den.0, num.1 / den.0)
}

fn twiddle(k: usize, n: usize) -> Cx {
    let (s, c) = (-2.0 * PI * (k as f64) / (n as f64)).sin_cos();
    Cx(c, s)
}

fn scale(a: Cx, n: usize) -> Cx {
    over(a, Cx(n as f64, 0.0))
}

fn forward(input: &[Cx], output: &mut [Cx]) {
    fdft(input, output, twiddle, times, plus, minus);
}

fn inverse(input: &[Cx], output: &mut [Cx]) {
    idft(input, output, conj, twiddle, times, plus, minus, scale);
}

fn signal(n: usize) -> Vec<Cx> {
    (0..n).map(|j| Cx((0.37 * j as f64).sin() + 0.25, (1.3 * j as f64).cos() - 0.5 * j as f64)).collect()
}

fn close(a: Cx, b: Cx, tolerance: f64) -> bool {
    f64::abs(a.0 - b.0) <= tolerance && f64::abs(a.1 - b.1) <= tolerance
}

#[test]
fn one_sample_goes_through_unchanged() {
    let mut output = [Cx(9.0, 9.0)];
    forward(&[Cx(2.5, -1.5)], &mut output);
    assert_eq!(output[0], Cx(2.5, -1.5));
    inverse(&[Cx(2.5, -1.5)], &mut output);
    assert_eq!(output[0], Cx(2.5, -1.5));
}

#[test]
fn two_samples_give_sum_and_difference() {
    let mut output = [Cx(0.0, 0.0); 2];
    forward(&[Cx(3.0, 1.0), Cx(1.0, -2.0)], &mut output);
    assert_eq!(output, [Cx(4.0, -1.0), Cx(2.0, 3.0)]);
    inverse(&[Cx(4.0, -1.0), Cx(2.0, 3.0)], &mut output);
    assert_eq!(output, [Cx(3.0, 1.0), Cx(1.0, -2.0)]);
}

#[test]
fn four_samples_of_an_impulse_train() {
    let mut output = [Cx(0.0, 0.0); 4];
    forward(&[Cx(1.0, 0.0), Cx(0.0, 0.0), Cx(1.0, 0.0), Cx(0.0, 0.0)], &mut output);
    assert_eq!(output, [Cx(2.0, 0.0), Cx(0.0, 0.0), Cx(2.0, 0.0), Cx(0.0, 0.0)]);
}

#[test]
fn slots_past_the_input_length_are_left_alone() {
    let input = signal(4);
    let mut output = [Cx(7.0, -7.0); 6];
    forward(&input, &mut output);
    assert_eq!(output[4], Cx(7.0, -7.0));
    assert_eq!(output[5], Cx(7.0, -7.0));
    let mut exact = [Cx(0.0, 0.0); 4];
    forward(&input, &mut exact);
    assert_eq!(&output[..4], &exact[..]);
    let mut back = [Cx(7.0, -7.0); 6];
    inverse(&input, &mut back);
    assert_eq!(back[4], Cx(7.0, -7.0));
    assert_eq!(back[5], Cx(7.0, -7.0));
}

#[test]
fn earlier_contents_of_the_output_are_never_read() {
    let input = signal(16);
    let mut clean = vec![Cx(0.0, 0.0); 16];
    let mut dirty = vec![Cx(f64::NAN, f64::INFINITY); 16];
    forward(&input, &mut clean);
    forward(&input, &mut dirty);
    assert_eq!(clean, dirty);
    inverse(&input, &mut clean);
    inverse(&input, &mut dirty);
    assert_eq!(clean, dirty);
}

#[test]
fn round_trip_returns_the_signal() {
    for n in [1usize, 2, 4, 8, 16, 64, 256, 1024] {
        let x = signal(n);
        let mut spectrum = vec![Cx(0.0, 0.0); n];
        let mut back = vec![Cx(0.0, 0.0); n];
        forward(&x, &mut spectrum);
        inverse(&spectrum, &mut back);
        for j in 0..n {
            let tolerance = 1e-9 * (1.0 + f64::abs(x[j].0) + f64::abs(x[j].1)) * (n as f64);
            assert!(close(back[j], x[j], tolerance), "length {}: {:?} and {:?}", n, back[j], x[j]);
        }
    }
}

#[test]
fn forward_is_linear_within_rounding() {
    let n = 64;
    let alpha = Cx(0.75, -1.25);
    let beta = Cx(-2.0, 0.5);
    let x = signal(n);
    let y: Vec<Cx> = signal(2 * n).into_iter().skip(n).collect();
    let z: Vec<Cx> = (0..n).map(|j| plus(times(alpha, x[j]), times(beta, y[j]))).collect();
    let mut fx = vec![Cx(0.0, 0.0); n];
    let mut fy = vec![Cx(0.0, 0.0); n];
    let mut fz = vec![Cx(0.0, 0.0); n];
    forward(&x, &mut fx);
    forward(&y, &mut fy);
    forward(&z, &mut fz);
    for k in 0..n {
        let expected = plus(times(alpha, fx[k]), times(beta, fy[k]));
        assert!(close(fz[k], expected, 1e-9 * 1e4), "{:?} and {:?}", fz[k], expected);
    }
}

#[test]
fn inverse_equals_conjugated_forward_bit_for_bit() {
    let n = 32;
    let x = signal(n);
    let conjugated: Vec<Cx> = x.iter().map(|&v| conj(v)).collect();
    let mut forwarded = vec![Cx(0.0, 0.0); n];
    forward(&conjugated, &mut forwarded);
    let expected: Vec<Cx> = forwarded.into_iter().map(|v| scale(conj(v), n)).collect();
    let mut back = vec![Cx(0.0, 0.0); n];
    inverse(&x, &mut back);
    assert_eq!(back, expected);
}

#[test]
fn forward_agrees_with_the_defining_sum() {
    let n = 16;
    let x = signal(n);
    let mut fast = vec![Cx(0.0, 0.0); n];
    forward(&x, &mut fast);
    for k in 0..n {
        let mut s = Cx(0.0, 0.0);
        for j in 0..n {
            let angle = -2.0 * PI * ((j * k) as f64) / (n as f64);
            s = plus(s, times(x[j], Cx(angle.cos(), angle.sin())));
        }
        assert!(close(fast[k], s, 1e-9 * 1e3), "{:?} and {:?}", fast[k], s);
    }
}

#[test]
fn box_signal_round_trip() {
    let input = [
        Cx(1.0, 0.0), Cx(1.0, 0.0), Cx(1.0, 0.0), Cx(1.0, 0.0),
        Cx(0.0, 0.0), Cx(0.0, 0.0), Cx(0.0, 0.0), Cx(0.0, 0.0),
    ];
    let mut spectrum = [Cx(0.0, 0.0); 8];
    let mut back = [Cx(0.0, 0.0); 8];
    forward(&input, &mut spectrum);
    inverse(&spectrum, &mut back);
    for j in 0..8 {
        assert!(close(back[j], input[j], 0.01), "{:?} and {:?}", back[j], input[j]);
    }
}
