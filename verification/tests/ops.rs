use hephaistos::arena::{disjoint_mut, four_disjoint_mut};
use hephaistos::ops::attention::attention_forward;
use hephaistos::ops::attention_backward::attention_backward;
use hephaistos::ops::embed::{encoder_backward, encoder_forward};
use hephaistos::ops::linear::{linear, linear_backward, matmul_backward, matmul_forward};
use hephaistos::ops::loss::{
    crossentropy_forward, crossentropy_softmax_backward, mean_loss, softmax_forward,
};
use hephaistos::ops::norm::{rmsnorm_backward, rmsnorm_forward};
use hephaistos::ops::pointwise::{
    apply_dropout, residual_backward, residual_forward, swiglu_backward, swiglu_forward,
};
use hephaistos::ops::rope::{rope_backward, rope_forward};
use hephaistos::scalar::Scalar;

#[derive(Clone, Copy, Debug, PartialEq, PartialOrd)]
struct D(f64);

impl Scalar for D {
    fn zero() -> Self {
        D(0.0)
    }
    fn one() -> Self {
        D(1.0)
    }
    fn neg_infinity() -> Self {
        D(f64::NEG_INFINITY)
    }
    fn pi() -> Self {
        D(std::f64::consts::PI)
    }
    fn from_ratio(num: usize, den: usize) -> Self {
        D(num as f64 / den as f64)
    }
    fn plus(self, other: Self) -> Self {
        D(self.0 + other.0)
    }
    fn minus(self, other: Self) -> Self {
        D(self.0 - other.0)
    }
    fn times(self, other: Self) -> Self {
        D(self.0 * other.0)
    }
    fn divide(self, other: Self) -> Self {
        D(self.0 / other.0)
    }
    fn negate(self) -> Self {
        D(-self.0)
    }
    fn exp(self) -> Self {
        D(self.0.exp())
    }
    fn ln(self) -> Self {
        D(self.0.ln())
    }
    fn sqrt(self) -> Self {
        D(self.0.sqrt())
    }
    fn sin(self) -> Self {
        D(self.0.sin())
    }
    fn cos(self) -> Self {
        D(self.0.cos())
    }
    fn abs(self) -> Self {
        D(self.0.abs())
    }
    fn powf(self, exponent: Self) -> Self {
        D(self.0.powf(exponent.0))
    }
    fn powi(self, exponent: i32) -> Self {
        D(self.0.powi(exponent))
    }
    fn larger(self, other: Self) -> Self {
        D(self.0.max(other.0))
    }
    fn exceeds(self, other: Self) -> bool {
        self.0 > other.0
    }
    fn at_least(self, other: Self) -> bool {
        self.0 >= other.0
    }
    fn order_key(self) -> i64 {
        let bits = self.0.to_bits() as i64;
        bits ^ ((((bits >> 63) as u64) >> 1) as i64)
    }
}

fn doubles(x: &[f64]) -> Vec<D> {
    x.iter().map(|&v| D(v)).collect()
}

fn close(x: &[D], y: &[f64]) -> bool {
    x.len() == y.len() && x.iter().zip(y).all(|(a, b)| (a.0 - b).abs() < 1e-12)
}

// --- arena ---

#[test]
fn disjoint_spans_in_either_order() {
    let mut buf: Vec<u32> = (0..10).collect();
    {
        let (a, b) = disjoint_mut(&mut buf, 1, 2, 5, 3);
        assert_eq!((a.to_vec(), b.to_vec()), (vec![1, 2], vec![5, 6, 7]));
        a[0] = 100;
        b[2] = 200;
    }
    {
        let (a, b) = disjoint_mut(&mut buf, 5, 3, 1, 2);
        assert_eq!((a.to_vec(), b.to_vec()), (vec![5, 6, 200], vec![100, 2]));
    }
    assert_eq!(buf, vec![0, 100, 2, 3, 4, 5, 6, 200, 8, 9]);
}

#[test]
fn an_empty_span_is_apart_from_all() {
    let mut buf = vec![1, 2, 3, 4];
    let (a, b) = disjoint_mut(&mut buf, 0, 0, 0, 2);
    assert!(a.is_empty());
    assert_eq!(b.to_vec(), vec![1, 2]);
    let (a, b) = disjoint_mut(&mut buf, 0, 2, 0, 0);
    assert_eq!(a.to_vec(), vec![1, 2]);
    assert!(b.is_empty());
    let (a, b) = disjoint_mut(&mut buf, 4, 0, 1, 3);
    assert!(a.is_empty());
    assert_eq!(b.to_vec(), vec![2, 3, 4]);
}

#[test]
fn four_disjoint_spans_in_order() {
    let mut buf: Vec<u32> = (0..10).collect();
    {
        let (a, b, c, d) = four_disjoint_mut(&mut buf, 0, 1, 2, 2, 4, 0, 7, 3);
        assert_eq!(a.to_vec(), vec![0]);
        assert_eq!(b.to_vec(), vec![2, 3]);
        assert!(c.is_empty());
        assert_eq!(d.to_vec(), vec![7, 8, 9]);
        d[0] = 70;
        b[1] = 30;
    }
    assert_eq!(buf, vec![0, 1, 2, 30, 4, 5, 6, 70, 8, 9]);
}

// --- linear ---

#[test]
fn linear_by_hand() {
    let w = doubles(&[3.0, 4.0, 5.0, 6.0]);
    let bias = doubles(&[10.0, 20.0]);
    let mut acts = doubles(&[1.0, 2.0, -1.0, 0.0, 0.0]);
    linear(&mut acts, 3, 0, &w, Some(&bias), 1, 2, 2);
    assert_eq!(acts, doubles(&[1.0, 2.0, -1.0, 21.0, 37.0]));
    linear(&mut acts, 0, 3, &w, None, 1, 2, 2);
    assert_eq!(acts[0..2], doubles(&[211.0, 327.0])[..]);
}

#[test]
fn rows_come_out_in_their_places() {
    let n = 200;
    let inp: Vec<D> = (0..n).map(|i| D(i as f64)).collect();
    let mut out = vec![D(-1.0); 2 * n];
    matmul_forward(&mut out, &inp, &doubles(&[1.0, 3.0]), None, n, 1, 2);
    for i in 0..n {
        assert_eq!((out[2 * i], out[2 * i + 1]), (D(i as f64), D(3.0 * i as f64)));
    }
}

#[test]
fn linear_gradients_by_hand() {
    let w = doubles(&[3.0, 4.0, 5.0, 6.0]);
    let inp = doubles(&[7.0, 8.0]);
    let dout = doubles(&[1.0, 2.0]);
    let mut dinp = doubles(&[100.0, 0.0]);
    let mut dw = doubles(&[0.0, 0.0, 0.0, 1.0]);
    let mut db = doubles(&[0.0, 5.0]);
    matmul_backward(&mut dinp, &dout, &mut dw, Some(&mut db), &inp, &w, 1, 2, 2);
    assert_eq!(dinp, doubles(&[113.0, 16.0]));
    assert_eq!(dw, doubles(&[7.0, 8.0, 14.0, 17.0]));
    assert_eq!(db, doubles(&[1.0, 7.0]));
}

#[test]
fn linear_gradients_in_the_arenas() {
    let params = doubles(&[0.0, 3.0, 4.0, 5.0, 6.0]);
    let acts = doubles(&[7.0, 8.0]);
    let mut gacts = doubles(&[1.0, 2.0, 0.0, 0.0]);
    let mut grads = doubles(&[0.0; 7]);
    linear_backward(&mut gacts, 2, 0, &mut grads, 2, Some(0), &acts, 0, &params, 1, 1, 2, 2);
    assert_eq!(gacts, doubles(&[1.0, 2.0, 13.0, 16.0]));
    assert_eq!(grads, doubles(&[1.0, 2.0, 7.0, 8.0, 14.0, 16.0, 0.0]));
    linear_backward(&mut gacts, 2, 0, &mut grads, 2, None, &acts, 0, &params, 1, 1, 2, 2);
    assert_eq!(gacts, doubles(&[1.0, 2.0, 26.0, 32.0]));
    assert_eq!(grads, doubles(&[1.0, 2.0, 14.0, 16.0, 28.0, 32.0, 0.0]));
}

// --- norm ---

#[test]
fn rmsnorm_by_hand() {
    let mut acts = doubles(&[3.0, 4.0, 0.0, 0.0, 0.0]);
    rmsnorm_forward(&mut acts, 2, 4, 0, &doubles(&[1.0, 2.0]), 1, 2);
    let rstd = 1.0 / (12.5f64 + 1e-5).sqrt();
    assert_eq!(acts, doubles(&[3.0, 4.0, 3.0 * rstd, 4.0 * rstd * 2.0, rstd]));
}

#[test]
fn rmsnorm_gradients_by_hand() {
    // x = (1, 1), rstd = 2, weight (1, 3), upstream (1, 1):
    // norm = (2, 2), dnorm = (1, 3), mean of dnorm * norm = 4
    let acts = doubles(&[1.0, 1.0, 2.0]);
    let params = doubles(&[1.0, 3.0]);
    let mut gacts = doubles(&[10.0, 0.0, 1.0, 1.0]);
    let mut grads = doubles(&[0.0, 5.0]);
    rmsnorm_backward(&mut gacts, 0, 2, &mut grads, 0, &acts, 0, 2, &params, 0, 1, 2);
    assert_eq!(gacts, doubles(&[-4.0, -10.0, 1.0, 1.0]));
    assert_eq!(grads, doubles(&[2.0, 7.0]));
}

// --- rotary positions ---

#[test]
fn rope_turns_queries_and_keys_by_their_position() {
    let start = doubles(&[1.0, 2.0, 3.0, 4.0, 5.0, 6.0, 1.0, 0.0, 0.0, 1.0, 5.0, 6.0]);
    let mut acts = start.clone();
    rope_forward(&mut acts, 0, 1, 2, 1, 2);
    assert_eq!(acts[0..6], start[0..6]);
    let (s, c) = (1.0f64.sin(), 1.0f64.cos());
    assert_eq!(acts[6..12], doubles(&[c, s, -s, c, 5.0, 6.0])[..]);
    rope_backward(&mut acts, 0, 1, 2, 1, 2);
    assert!(close(&acts, &[1.0, 2.0, 3.0, 4.0, 5.0, 6.0, 1.0, 0.0, 0.0, 1.0, 5.0, 6.0]));
}

#[test]
fn rope_frequencies_fall_with_the_pair() {
    let mut acts = doubles(&[0.0; 24]);
    acts[12] = D(1.0);
    acts[13] = D(1.0);
    rope_forward(&mut acts, 0, 1, 2, 1, 4);
    let slow = 10000.0f64.powf(-0.5);
    assert_eq!(
        acts[12..16],
        doubles(&[1.0f64.cos(), slow.cos(), 1.0f64.sin(), slow.sin()])[..]
    );
}

// --- attention ---

#[test]
fn attention_by_hand() {
    // equal scores: each position takes the mean of the values so far
    let mut acts = doubles(&[0.0, 2.0, 5.0, 0.0, 4.0, 7.0]);
    acts.extend(doubles(&[9.0; 10]));
    attention_forward(&mut acts, 6, 8, 12, 0, 1, 2, 1, 1, None);
    assert_eq!(acts[6..8], doubles(&[5.0, 6.0])[..]);
    assert_eq!(acts[8..12], doubles(&[0.0; 4])[..]);
    assert_eq!(acts[12..16], doubles(&[1.0, 0.0, 0.5, 0.5])[..]);
    // keep factors scale the weights of the sum, not the cached ones
    let mask = doubles(&[2.0, 9.0, 0.0, 2.0]);
    attention_forward(&mut acts, 6, 8, 12, 0, 1, 2, 1, 1, Some(&mask));
    assert_eq!(acts[6..8], doubles(&[10.0, 7.0])[..]);
    assert_eq!(acts[12..16], doubles(&[1.0, 0.0, 0.5, 0.5])[..]);
}

#[test]
fn attention_weighs_by_scaled_scores() {
    // hs = 4, so the scale is one half: scores ln 3 and 0
    let mut acts = doubles(&[0.0; 24]);
    acts[12] = D(1.0);
    acts[4] = D(2.0 * 3.0f64.ln());
    acts[8] = D(4.0);
    acts[20] = D(8.0);
    acts.extend(doubles(&[0.0; 16]));
    attention_forward(&mut acts, 24, 32, 36, 0, 1, 2, 1, 4, None);
    assert!(close(&acts[32..36], &[0.0, 0.0, 3.0f64.ln(), 0.0]));
    assert!(close(&acts[36..40], &[1.0, 0.0, 0.75, 0.25]));
    assert!(close(&acts[24..32], &[4.0, 0.0, 0.0, 0.0, 5.0, 0.0, 0.0, 0.0]));
}

#[test]
fn attention_gradients_by_hand() {
    let acts = doubles(&[
        0.0, 2.0, 5.0, 0.0, 4.0, 7.0, 5.0, 6.0, 0.0, 0.0, 0.0, 0.0, 1.0, 0.0, 0.5, 0.5,
    ]);
    let mut gacts = doubles(&[0.0; 16]);
    gacts[6] = D(1.0);
    gacts[7] = D(1.0);
    attention_backward(&mut gacts, 0, 8, 12, 6, &acts, 0, 12, 1, 2, 1, 1, None);
    assert_eq!(gacts[0..6], doubles(&[0.0, 0.0, 1.5, 1.0, 0.0, 0.5])[..]);
    assert_eq!(gacts[8..12], doubles(&[0.0, 0.0, -0.5, 0.5])[..]);
    assert_eq!(gacts[12..16], doubles(&[5.0, 0.0, 5.0, 7.0])[..]);
}

#[test]
fn attention_gradients_pass_the_mask() {
    let acts = doubles(&[
        0.0, 2.0, 5.0, 0.0, 4.0, 7.0, 0.0, 0.0, 0.0, 0.0, 0.0, 0.0, 1.0, 0.0, 0.5, 0.5,
    ]);
    let mask = doubles(&[2.0, 9.0, 0.0, 2.0]);
    let mut gacts = doubles(&[0.0; 16]);
    gacts[7] = D(1.0);
    attention_backward(&mut gacts, 0, 8, 12, 6, &acts, 0, 12, 1, 2, 1, 1, Some(&mask));
    // the weights get (0, 14), the scores (-3.5, 3.5), the query 2 * -3.5 + 4 * 3.5
    assert_eq!(gacts[0..6], doubles(&[0.0, 0.0, 0.0, 7.0, 0.0, 1.0])[..]);
    assert_eq!(gacts[12..16], doubles(&[0.0, 0.0, 0.0, 14.0])[..]);
}

// --- pointwise ---

#[test]
fn residual_adds_and_hands_back() {
    let mut acts = doubles(&[1.0, 2.0, 10.0, 20.0, 0.0, 0.0]);
    residual_forward(&mut acts, 4, 0, 2, 2);
    assert_eq!(acts, doubles(&[1.0, 2.0, 10.0, 20.0, 11.0, 22.0]));
    residual_backward(&mut acts, 0, 2, 4, 2);
    assert_eq!(acts, doubles(&[12.0, 24.0, 21.0, 42.0, 11.0, 22.0]));
}

#[test]
fn dropout_scales_by_the_mask() {
    let mut acts = doubles(&[1.0, 2.0, 3.0, 4.0]);
    apply_dropout(&mut acts, 1, &doubles(&[7.0, 0.0, 2.0]), 1, 2);
    assert_eq!(acts, doubles(&[1.0, 0.0, 6.0, 4.0]));
}

#[test]
fn swiglu_by_hand() {
    let mut acts = doubles(&[0.0, 1.0, 5.0, 2.0, 0.0, 0.0]);
    swiglu_forward(&mut acts, 4, 0, 2, 2);
    let silu = 1.0 / (1.0 + (-1.0f64).exp());
    assert_eq!(acts[4..6], doubles(&[0.0, silu * 2.0])[..]);
}

#[test]
fn swiglu_gradients_by_hand() {
    // gate 0: sigma = 1/2, silu = 0, silu' = 1/2
    let acts = doubles(&[0.0, 6.0]);
    let mut gacts = doubles(&[7.0, 7.0, 3.0]);
    swiglu_backward(&mut gacts, 0, 1, 2, &acts, 0, 1, 1);
    assert_eq!(gacts, doubles(&[9.0, 0.0, 3.0]));
}

// --- loss ---

#[test]
fn softmax_by_hand() {
    let mut acts = doubles(&[0.0, 3.0f64.ln(), 1000.0, 1000.0, 0.0, 0.0, 0.0, 0.0]);
    softmax_forward(&mut acts, 4, 0, 2, 2);
    assert!(close(&acts[4..6], &[0.25, 0.75]));
    assert_eq!(acts[6..8], doubles(&[0.5, 0.5])[..]);
}

#[test]
fn crossentropy_by_hand() {
    let mut acts = doubles(&[0.25, 0.75, 1.0, 0.0, 0.0, 0.0]);
    crossentropy_forward(&mut acts, 4, 0, &[1, 0], 2, 2);
    assert_eq!(acts[4..6], doubles(&[-(0.75f64.ln()), -0.0])[..]);
    assert_eq!(mean_loss(&doubles(&[1.0, 2.0, 6.0])), D(3.0));
}

#[test]
fn fused_loss_gradient_by_hand() {
    let acts = doubles(&[0.25, 0.75]);
    let mut gacts = doubles(&[1.0, 1.0]);
    crossentropy_softmax_backward(&mut gacts, 0, &acts, 0, &[1], 1, 2, D(0.5));
    assert_eq!(gacts, doubles(&[1.125, 0.875]));
}

// --- embedding ---

#[test]
fn embedding_takes_and_scatters_rows() {
    let wte = doubles(&[1.0, 2.0, 3.0, 4.0, 5.0, 6.0]);
    let mut acts = doubles(&[0.0; 7]);
    encoder_forward(&mut acts, 1, &[2, 0, 2], &wte, 3, 2);
    assert_eq!(acts, doubles(&[0.0, 5.0, 6.0, 1.0, 2.0, 5.0, 6.0]));
    let mut grads = doubles(&[0.0, 0.0, 0.0, 0.0, 0.0, 100.0]);
    encoder_backward(&mut grads, 0, &acts, 1, &[2, 0, 2], 3, 2);
    assert_eq!(grads, doubles(&[1.0, 2.0, 0.0, 0.0, 10.0, 112.0]));
}

// --- backward against forward ---

fn inner(x: &[D], y: &[D]) -> f64 {
    assert_eq!(x.len(), y.len());
    x.iter().zip(y).map(|(a, b)| a.0 * b.0).sum()
}

#[test]
fn linear_gradients_are_adjoint() {
    let w = doubles(&[3.0, 4.0, 5.0, -6.0, 0.5, 2.0]);
    let inp = doubles(&[7.0, 8.0, -1.0, 2.0]);
    let dout = doubles(&[1.0, 2.0, -3.0, 4.0, 5.0, 0.25]);
    let mut out = doubles(&[0.0; 6]);
    matmul_forward(&mut out, &inp, &w, None, 2, 2, 3);
    let mut dinp = doubles(&[0.0; 4]);
    let mut dw = doubles(&[0.0; 6]);
    matmul_backward(&mut dinp, &dout, &mut dw, None, &inp, &w, 2, 2, 3);
    assert_eq!(inner(&dout, &out), inner(&dinp, &inp));
    assert_eq!(inner(&dout, &out), inner(&dw, &w));
    assert_eq!(inner(&dout, &out), -95.625);
}

#[test]
fn residual_gradients_are_adjoint() {
    let mut acts = doubles(&[1.0, -2.0, 10.0, 0.5, 0.0, 0.0]);
    residual_forward(&mut acts, 4, 0, 2, 2);
    let mut gacts = doubles(&[0.0, 0.0, 0.0, 0.0, 3.0, 7.0]);
    residual_backward(&mut gacts, 0, 2, 4, 2);
    assert_eq!(inner(&gacts[4..6], &acts[4..6]), 22.5);
    assert_eq!(inner(&gacts[0..4], &acts[0..4]), 22.5);
}

#[test]
fn dropout_is_its_own_adjoint() {
    let mask = doubles(&[2.0, 0.0, 2.0]);
    let x = doubles(&[1.0, 5.0, -3.0]);
    let d = doubles(&[4.0, 6.0, 0.5]);
    let mut y = x.clone();
    apply_dropout(&mut y, 0, &mask, 0, 3);
    let mut g = d.clone();
    apply_dropout(&mut g, 0, &mask, 0, 3);
    assert_eq!((inner(&d, &y), inner(&g, &x)), (5.0, 5.0));
}

#[test]
fn rope_gradients_are_adjoint() {
    let x: Vec<D> = (0..24).map(|i| D((i * 5 % 7) as f64 - 3.0)).collect();
    let d: Vec<D> = (0..24).map(|i| D((i * 3 % 11) as f64 - 5.0)).collect();
    let mut y = x.clone();
    rope_forward(&mut y, 0, 1, 2, 1, 4);
    let mut g = d.clone();
    rope_backward(&mut g, 0, 1, 2, 1, 4);
    assert!(y != x && g != d);
    assert!((inner(&d, &y) - inner(&g, &x)).abs() < 1e-9);
}

#[test]
fn embedding_gradients_are_adjoint() {
    let ids = [2u16, 0, 2];
    let wte = doubles(&[1.0, 2.0, 3.0, 4.0, 5.0, 6.0]);
    let mut out = doubles(&[0.0; 6]);
    encoder_forward(&mut out, 0, &ids, &wte, 3, 2);
    let dout = doubles(&[1.0, -1.0, 2.0, 0.5, 3.0, 4.0]);
    let mut dw = doubles(&[0.0; 6]);
    encoder_backward(&mut dw, 0, &dout, 0, &ids, 3, 2);
    assert_eq!((inner(&dout, &out), inner(&dw, &wte)), (41.0, 41.0));
}

#[test]
fn probabilities_sum_to_one_and_their_gradient_to_zero() {
    let mut acts = doubles(&[0.0, 3.0f64.ln(), -2.0, 700.0, 699.0, 701.0]);
    acts.extend(doubles(&[0.0; 6]));
    softmax_forward(&mut acts, 6, 0, 2, 3);
    let mut gacts = doubles(&[0.0; 6]);
    crossentropy_softmax_backward(&mut gacts, 0, &acts, 6, &[1, 2], 2, 3, D(0.5));
    for r in 0..2 {
        let p: f64 = acts[6 + 3 * r..9 + 3 * r].iter().map(|x| x.0).sum();
        let d: f64 = gacts[3 * r..3 * r + 3].iter().map(|x| x.0).sum();
        assert!((p - 1.0).abs() < 1e-12);
        assert!(d.abs() < 1e-12);
        assert!(gacts[3 * r + r + 1].0 < 0.0);
    }
}

#[test]
fn gate_gradient_is_adjoint_in_the_second_factor() {
    let acts = doubles(&[0.5, -2.0, 3.0, 7.0, 0.0, 0.0]);
    let mut out = acts.clone();
    swiglu_forward(&mut out, 4, 0, 2, 2);
    let mut gacts = doubles(&[0.0, 0.0, 0.0, 0.0, 1.5, -4.0]);
    swiglu_backward(&mut gacts, 0, 2, 4, &acts, 0, 2, 2);
    let forward = inner(&gacts[4..6], &out[4..6]);
    assert!(forward.abs() > 1.0);
    assert!((forward - inner(&gacts[2..4], &acts[2..4])).abs() < 1e-12);
}

#[test]
fn norm_gradient_is_adjoint_in_the_weight() {
    let weight = doubles(&[1.0, -2.0]);
    let mut acts = doubles(&[3.0, 4.0, -1.0, 0.5]);
    acts.extend(doubles(&[0.0; 6]));
    rmsnorm_forward(&mut acts, 4, 8, 0, &weight, 2, 2);
    let mut gacts = doubles(&[0.0, 0.0, 0.0, 0.0, 1.0, 2.0, -3.0, 4.0]);
    let mut grads = doubles(&[0.0, 0.0]);
    rmsnorm_backward(&mut gacts, 0, 4, &mut grads, 0, &acts, 0, 8, &weight, 0, 2, 2);
    let forward = inner(&gacts[4..8], &acts[4..8]);
    assert!(forward.abs() > 1.0);
    assert!((forward - inner(&grads, &weight)).abs() < 1e-12);
}

/// One head of two channels over three positions: packed rows, output, scores
/// and weights, and the gradients of all of them.
fn attended(mask: Option<&[D]>) -> (Vec<D>, Vec<D>) {
    let mut acts: Vec<D> = (0..18).map(|i| D((i * 7 % 11) as f64 / 4.0 - 1.0)).collect();
    acts.extend(doubles(&[0.0; 24]));
    attention_forward(&mut acts, 18, 24, 33, 0, 1, 3, 1, 2, mask);
    let mut gacts = doubles(&[0.0; 42]);
    for i in 0..6 {
        gacts[18 + i] = D((i * 5 % 7) as f64 - 2.0);
    }
    attention_backward(&mut gacts, 0, 24, 33, 18, &acts, 0, 33, 1, 3, 1, 2, mask);
    (acts, gacts)
}

#[test]
fn attention_weights_sum_to_one_and_score_gradients_to_zero() {
    let (acts, gacts) = attended(None);
    for r in 0..3 {
        let w: f64 = acts[33 + 3 * r..36 + 3 * r].iter().map(|x| x.0).sum();
        let d: f64 = gacts[24 + 3 * r..27 + 3 * r].iter().map(|x| x.0).sum();
        assert!((w - 1.0).abs() < 1e-12);
        assert!(d.abs() < 1e-12);
    }
    assert!(gacts[24..33].iter().any(|x| x.0.abs() > 1e-3));
}

#[test]
fn attention_gradients_are_adjoint() {
    let mask = doubles(&[2.0, 9.0, 9.0, 0.0, 2.0, 9.0, 2.0, 0.0, 2.0]);
    for m in [None, Some(mask.as_slice())] {
        let (acts, gacts) = attended(m);
        let part = |p: usize| -> f64 {
            let places = (0..3).map(|u| 6 * u + 2 * p);
            places.map(|at| inner(&gacts[at..at + 2], &acts[at..at + 2])).sum()
        };
        let out = inner(&gacts[18..24], &acts[18..24]);
        assert!((out - part(2)).abs() < 1e-12);
        let scores = inner(&gacts[24..33], &acts[24..33]);
        assert!((scores - part(0)).abs() < 1e-12);
        assert!((scores - part(1)).abs() < 1e-12);
        assert!(out.abs() > 1e-3 && scores.abs() > 1e-3);
    }
}
