// The transforms over the field of 31 squared elements, written a + b i with
// a and b modulo 31. Its numbers of norm one form a cyclic group of order 32,
// so it holds exact roots of unity for every power-of-two length up to 32,
// and all arithmetic in it is exact.

use dsp::dft::{fdft, idft};

const P: u32 = 31;

type Z = (u32, u32);

fn plus(a: Z, b: Z) -> Z {
    ((a.0 + b.0) % P, (a.1 + b.1) % P)
}

fn minus(a: Z, b: Z) -> Z {
    ((a.0 + P - b.0) % P, (a.1 + P - b.1) % P)
}

fn times(a: Z, b: Z) -> Z {
    ((a.0 * b.0 + P * P - a.1 * b.1) % P, (a.0 * b.1 + a.1 * b.0) % P)
}

fn conj(a: Z) -> Z {
    (a.0, (P - a.1) % P)
}

fn power(a: Z, k: usize) -> Z {
    let mut r = (1, 0);
    for _ in 0..k {
        r = times(r, a);
    }
    r
}

// 2 + 11 i has order 32, and its eighth power is -i.
fn twiddle(k: usize, n: usize) -> Z {
    power((2, 11), (32 / n) * k)
}

fn scale(a: Z, n: usize) -> Z {
    let mut inverse = 1;
    while (inverse * n as u32) % P != 1 {
        inverse += 1;
    }
    times(a, (inverse, 0))
}

fn forward(input: &[Z]) -> Vec<Z> {
    let mut output = vec![(0, 0); input.len()];
    fdft(input, &mut output, twiddle, times, plus, minus);
    output
}

fn inverse(input: &[Z]) -> Vec<Z> {
    let mut output = vec![(0, 0); input.len()];
    idft(input, &mut output, conj, twiddle, times, plus, minus, scale);
    output
}

fn forward_sum(x: &[Z]) -> Vec<Z> {
    let n = x.len();
    let mut out = Vec::new();
    for k in 0..n {
        let mut s = (0, 0);
        for j in 0..n {
            s = plus(s, times(x[j], twiddle(j * k, n)));
        }
        out.push(s);
    }
    out
}

fn inverse_sum(x: &[Z]) -> Vec<Z> {
    let n = x.len();
    let mut out = Vec::new();
    for j in 0..n {
        let mut s = (0, 0);
        for k in 0..n {
            s = plus(s, times(x[k], conj(twiddle(k * j, n))));
        }
        out.push(scale(s, n));
    }
    out
}

fn samples(n: usize) -> Vec<Z> {
    let mut v = Vec::new();
    for j in 0..n as u32 {
        v.push(((7 * j * j + 3 * j + 1) % P, (5 * j * j * j + 11) % P));
    }
    v
}

#[test]
fn twiddle_factors_of_order_eight() {
    let w: Vec<Z> = (0..8).map(|k| twiddle(k, 8)).collect();
    assert_eq!(w, vec![(1, 0), (4, 27), (0, 30), (27, 27), (30, 0), (27, 4), (0, 1), (4, 4)]);
}

#[test]
fn forward_of_one_sample_is_the_sample() {
    assert_eq!(forward(&[(12, 29)]), vec![(12, 29)]);
}

#[test]
fn inverse_of_one_sample_is_the_sample() {
    assert_eq!(inverse(&[(12, 29)]), vec![(12, 29)]);
}

#[test]
fn forward_of_two_samples_is_sum_and_difference() {
    assert_eq!(forward(&[(7, 5), (2, 3)]), vec![(9, 8), (5, 2)]);
}

#[test]
fn forward_of_four_samples() {
    assert_eq!(
        forward(&[(1, 2), (3, 4), (5, 6), (7, 8)]),
        vec![(16, 20), (23, 0), (27, 27), (0, 23)]
    );
}

#[test]
fn forward_of_box_signal_is_exact() {
    let x = [(1, 0), (1, 0), (1, 0), (1, 0), (0, 0), (0, 0), (0, 0), (0, 0)];
    assert_eq!(
        forward(&x),
        vec![(4, 0), (1, 22), (0, 0), (1, 24), (0, 0), (1, 7), (0, 0), (1, 9)]
    );
}

#[test]
fn forward_of_eight_samples() {
    let x = [(3, 1), (4, 1), (5, 9), (2, 6), (5, 3), (5, 8), (9, 7), (9, 3)];
    assert_eq!(
        forward(&x),
        vec![(11, 7), (8, 25), (25, 21), (18, 4), (2, 2), (23, 10), (25, 17), (5, 15)]
    );
}

#[test]
fn inverse_of_eight_samples() {
    let x = [(3, 1), (4, 1), (5, 9), (2, 6), (5, 3), (5, 8), (9, 7), (9, 3)];
    assert_eq!(
        inverse(&x),
        vec![(13, 28), (20, 29), (7, 6), (30, 9), (8, 8), (10, 16), (7, 22), (1, 7)]
    );
}

#[test]
fn forward_is_the_defining_sum_for_every_length() {
    for n in [1, 2, 4, 8, 16, 32] {
        let x = samples(n);
        assert_eq!(forward(&x), forward_sum(&x), "length {}", n);
    }
}

#[test]
fn inverse_is_the_defining_sum_for_every_length() {
    for n in [1, 2, 4, 8, 16, 32] {
        let x = samples(n);
        assert_eq!(inverse(&x), inverse_sum(&x), "length {}", n);
    }
}

#[test]
fn round_trip_is_exact() {
    for n in [1, 2, 4, 8, 16, 32] {
        let x = samples(n);
        assert_eq!(inverse(&forward(&x)), x, "length {}", n);
    }
}

#[test]
fn forward_is_linear() {
    let alpha = (6, 17);
    let beta = (23, 2);
    let x = samples(16);
    let y: Vec<Z> = samples(32).into_iter().skip(16).collect();
    let z: Vec<Z> = (0..16).map(|j| plus(times(alpha, x[j]), times(beta, y[j]))).collect();
    let fx = forward(&x);
    let fy = forward(&y);
    let expected: Vec<Z> = (0..16).map(|k| plus(times(alpha, fx[k]), times(beta, fy[k]))).collect();
    assert_eq!(forward(&z), expected);
}

#[test]
fn inverse_is_conjugated_forward_over_count() {
    let x = samples(8);
    let conjugated: Vec<Z> = x.iter().map(|&v| conj(v)).collect();
    let expected: Vec<Z> = forward(&conjugated).into_iter().map(|v| scale(conj(v), 8)).collect();
    assert_eq!(inverse(&x), expected);
}
