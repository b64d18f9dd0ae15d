use hephaistos::data::DataLoader;
use hephaistos::gradcheck::{numerical_grad, numerical_logit_grad, rel_error, validate_softmax_ce};
use hephaistos::layout::{swiglu_hidden, ActLayout, MaskLayout, ParamLayout};
use hephaistos::matmul::matmul;
use hephaistos::model::backward::backward_into;
use hephaistos::model::forward::forward_into;
use hephaistos::model::init::randn;
use hephaistos::model::{Config, Gpt};
use hephaistos::rng::{draw_indices, draw_pairs, draw_uniform};
use hephaistos::sample::{generate, generate_from, keep_largest, sample_logits, sample_logits_from};
use hephaistos::scalar::{Scalar, Single};
use hephaistos::train::{
    evaluate, evaluate_on, goes_on, train_step, update_on, Progress, TrainConfig, Verdict,
};
use rand::rngs::StdRng;
use rand::{Rng, SeedableRng};

#[derive(Clone, Copy, Debug, PartialEq, PartialOrd)]
struct S(f32);

#[derive(Clone, Copy, Debug, PartialEq, PartialOrd)]
struct D(f64);

impl Scalar for S {
    fn zero() -> Self {
        S(0.0)
    }
    fn one() -> Self {
        S(1.0)
    }
    fn neg_infinity() -> Self {
        S(f32::NEG_INFINITY)
    }
    fn pi() -> Self {
        S(std::f32::consts::PI)
    }
    fn from_ratio(num: usize, den: usize) -> Self {
        S((num as f64 / den as f64) as f32)
    }
    fn plus(self, other: Self) -> Self {
        S(self.0 + other.0)
    }
    fn minus(self, other: Self) -> Self {
        S(self.0 - other.0)
    }
    fn times(self, other: Self) -> Self {
        S(self.0 * other.0)
    }
    fn divide(self, other: Self) -> Self {
        S(self.0 / other.0)
    }
    fn negate(self) -> Self {
        S(-self.0)
    }
    fn exp(self) -> Self {
        S(self.0.exp())
    }
    fn ln(self) -> Self {
        S(self.0.ln())
    }
    fn sqrt(self) -> Self {
        S(self.0.sqrt())
    }
    fn sin(self) -> Self {
        S(self.0.sin())
    }
    fn cos(self) -> Self {
        S(self.0.cos())
    }
    fn abs(self) -> Self {
        S(self.0.abs())
    }
    fn powf(self, exponent: Self) -> Self {
        S(self.0.powf(exponent.0))
    }
    fn powi(self, exponent: i32) -> Self {
        S(self.0.powi(exponent))
    }
    fn larger(self, other: Self) -> Self {
        S(self.0.max(other.0))
    }
    fn exceeds(self, other: Self) -> bool {
        self.0 > other.0
    }
    fn at_least(self, other: Self) -> bool {
        self.0 >= other.0
    }
    fn order_key(self) -> i64 {
        let bits = self.0.to_bits() as i32;
        (bits ^ ((((bits >> 31) as u32) >> 1) as i32)) as i64
    }
}

impl Single for S {
    type Wide = D;
    fn widen(self) -> D {
        D(self.0 as f64)
    }
    fn to_bits(self) -> u32 {
        self.0.to_bits()
    }
    fn from_bits(bits: u32) -> Self {
        S(f32::from_bits(bits))
    }
    fn uniform(rng: &mut StdRng) -> Self {
        S(rng.gen::<f32>())
    }
}

impl Scalar for D {
    fn zero() -> Self {
        D(0.0)
    }
    fn one() -> Self {
        D(1.0)
    }
    fn neg_infinity() -> Self {
        D(f64::NEG_INFINITY)
    }
    fn pi() -> Self {
        D(std::f64::consts::PI)
    }
    fn from_ratio(num: usize, den: usize) -> Self {
        D(num as f64 / den as f64)
    }
    fn plus(self, other: Self) -> Self {
        D(self.0 + other.0)
    }
    fn minus(self, other: Self) -> Self {
        D(self.0 - other.0)
    }
    fn times(self, other: Self) -> Self {
        D(self.0 * other.0)
    }
    fn divide(self, other: Self) -> Self {
        D(self.0 / other.0)
    }
    fn negate(self) -> Self {
        D(-self.0)
    }
    fn exp(self) -> Self {
        D(self.0.exp())
    }
    fn ln(self) -> Self {
        D(self.0.ln())
    }
    fn sqrt(self) -> Self {
        D(self.0.sqrt())
    }
    fn sin(self) -> Self {
        D(self.0.sin())
    }
    fn cos(self) -> Self {
        D(self.0.cos())
    }
    fn abs(self) -> Self {
        D(self.0.abs())
    }
    fn powf(self, exponent: Self) -> Self {
        D(self.0.powf(exponent.0))
    }
    fn powi(self, exponent: i32) -> Self {
        D(self.0.powi(exponent))
    }
    fn larger(self, other: Self) -> Self {
        D(self.0.max(other.0))
    }
    fn exceeds(self, other: Self) -> bool {
        self.0 > other.0
    }
    fn at_least(self, other: Self) -> bool {
        self.0 >= other.0
    }
    fn order_key(self) -> i64 {
        let bits = self.0.to_bits() as i64;
        bits ^ ((((bits >> 63) as u64) >> 1) as i64)
    }
}

fn singles(x: &[f32]) -> Vec<S> {
    x.iter().map(|&v| S(v)).collect()
}

fn mini() -> Config {
    Config {
        n_layer: 2,
        n_head: 2,
        n_embd: 16,
        block_size: 8,
        vocab_size: 32,
        batch_size: 2,
    }
}

// --- matrix product ---

#[test]
fn matmul_hand_checked_2x2() {
    // [[1,2],[3,4]] * [[5,6],[7,8]]
    //  = [[1*5+2*7, 1*6+2*8], [3*5+4*7, 3*6+4*8]]
    //  = [[19, 22], [43, 50]]
    let a = singles(&[1.0, 2.0, 3.0, 4.0]);
    let b = singles(&[5.0, 6.0, 7.0, 8.0]);
    let mut out = singles(&[0.0; 4]);
    matmul(&mut out, &a, &b, 2, 2, 2);
    assert_eq!(out, singles(&[19.0, 22.0, 43.0, 50.0]));
}

#[test]
fn matmul_non_square_2x3_times_3x2() {
    // A (2x3) = [[1,2,3],[4,5,6]]
    // B (3x2) = [[7,8],[9,10],[11,12]]
    // AB = [[1*7+2*9+3*11, 1*8+2*10+3*12], [4*7+5*9+6*11, 4*8+5*10+6*12]]
    //    = [[58, 64], [139, 154]]
    let a = singles(&[1.0, 2.0, 3.0, 4.0, 5.0, 6.0]);
    let b = singles(&[7.0, 8.0, 9.0, 10.0, 11.0, 12.0]);
    let mut out = singles(&[0.0; 4]);
    matmul(&mut out, &a, &b, 2, 3, 2);
    assert_eq!(out, singles(&[58.0, 64.0, 139.0, 154.0]));
}

#[test]
fn matmul_without_inner_dimension_is_zero() {
    let mut out = singles(&[3.0, 4.0]);
    matmul(&mut out, &[], &[], 1, 0, 2);
    assert_eq!(out, singles(&[0.0, 0.0]));
}

// --- forward, backward, optimizer ---

#[test]
fn forward_shape_and_finite() {
    let cfg = Config {
        n_layer: 2,
        n_head: 2,
        n_embd: 16,
        block_size: 4,
        vocab_size: 8,
        batch_size: 2,
    };
    let mut rng = StdRng::seed_from_u64(0);
    let mut model: Gpt<S> = Gpt::new(cfg, &mut rng);
    let ids: Vec<u16> = (0..cfg.batch_size * cfg.block_size)
        .map(|i| (i % cfg.vocab_size) as u16)
        .collect();
    model.forward(&ids, None);

    let logits = model.logits();
    assert_eq!(logits.len(), cfg.batch_size * cfg.block_size * cfg.vocab_size);
    assert!(logits.iter().all(|v| v.0.is_finite()));
}

#[test]
fn untrained_loss_near_ln_vocab() {
    let cfg = Config {
        n_layer: 2,
        n_head: 4,
        n_embd: 32,
        block_size: 16,
        vocab_size: 128,
        batch_size: 4,
    };
    let mut rng = StdRng::seed_from_u64(42);
    let mut model: Gpt<S> = Gpt::new(cfg, &mut rng);
    let n = cfg.batch_size * cfg.block_size;
    let ids: Vec<u16> = (0..n).map(|i| (i % cfg.vocab_size) as u16).collect();
    let targets: Vec<u16> = (0..n).map(|i| ((i * 7) % cfg.vocab_size) as u16).collect();

    let loss = model.forward(&ids, Some(&targets)).unwrap().0;
    let expected = (cfg.vocab_size as f32).ln();
    assert!(
        (loss - expected).abs() < 0.5,
        "untrained loss {loss} far from ln(vocab) {expected}"
    );
}

#[test]
fn adamw_overfits_single_batch() {
    let cfg = Config {
        n_layer: 2,
        n_head: 2,
        n_embd: 16,
        block_size: 8,
        vocab_size: 32,
        batch_size: 2,
    };
    let mut rng = StdRng::seed_from_u64(7);
    let mut model: Gpt<S> = Gpt::new(cfg, &mut rng);
    let n = cfg.batch_size * cfg.block_size;
    let ids: Vec<u16> = (0..n).map(|i| ((i * 5 + 3) % cfg.vocab_size) as u16).collect();
    let targets: Vec<u16> = (0..n).map(|i| ((i * 11 + 1) % cfg.vocab_size) as u16).collect();

    let first = model.forward(&ids, Some(&targets)).unwrap().0;
    let mut last = first;
    for _ in 0..300 {
        last = model.forward(&ids, Some(&targets)).unwrap().0;
        model.backward(&ids, &targets);
        model.adamw_step(S(1e-2), S(0.9), S(0.999), S(1e-8), S(0.0));
    }
    assert!(
        last < first * 0.1,
        "loss did not drop enough: {first} -> {last}"
    );
}

/// Gradient-check the dropout path with a *fixed* f64 mask (so the forward is
/// deterministic and finite differences are valid). Exercises all four dropout
/// sites including attention-weight dropout.
#[test]
fn dropout_backward_gradient_check() {
    let cfg = Config {
        n_layer: 2,
        n_head: 2,
        n_embd: 16,
        block_size: 6,
        vocab_size: 32,
        batch_size: 2,
    };
    let mut rng = StdRng::seed_from_u64(123);
    let model: Gpt<S> = Gpt::new(cfg, &mut rng);
    let pl = ParamLayout::new(&cfg);
    let al = ActLayout::new(&cfg);
    let ml = MaskLayout::new(&cfg);
    let n = cfg.batch_size * cfg.block_size;
    let ids: Vec<u16> = (0..n).map(|i| (i % cfg.vocab_size) as u16).collect();
    let targets: Vec<u16> = (0..n).map(|i| ((i * 7 + 1) % cfg.vocab_size) as u16).collect();

    let params: Vec<D> = (0..pl.total).map(|i| D(model.param(i).0 as f64)).collect();
    // fixed keep-mask: ~1 in 4 dropped, the rest scaled by 1/keep
    let keep = 0.75f64;
    let scale = 1.0 / keep;
    let mask: Vec<D> = (0..ml.total)
        .map(|i| if i.wrapping_mul(2_654_435_761) % 4 == 0 { D(0.0) } else { D(scale) })
        .collect();

    let mut acts = vec![D(0.0); al.total];
    forward_into::<D>(&cfg, &params, &mut acts, &ids, Some(&targets), Some(&mask));
    let mut grads = vec![D(0.0); pl.total];
    let mut gacts = vec![D(0.0); al.total];
    backward_into::<D>(&cfg, &params, &acts, &mut grads, &mut gacts, &ids, &targets, Some(&mask));

    let loss = |p: &[D]| {
        let mut a = vec![D(0.0); al.total];
        forward_into::<D>(&cfg, p, &mut a, &ids, Some(&targets), Some(&mask)).unwrap().0
    };
    let eps = 1e-6;
    let mut worst = 0.0f64;
    for &i in &[
        pl.wte.off, pl.qkvw.off, pl.attprojw.off, pl.w1.off, pl.w2.off,
        pl.ln1w.off, pl.ln2w.off, pl.lm_head.off, pl.lnfw.off,
    ] {
        let mut pp = params.clone();
        pp[i] = D(params[i].0 + eps);
        let lp = loss(&pp);
        pp[i] = D(params[i].0 - eps);
        let lm = loss(&pp);
        let num = (lp - lm) / (2.0 * eps);
        let ana = grads[i].0;
        let rel = (num - ana).abs() / num.abs().max(ana.abs()).max(1e-9);
        worst = worst.max(rel);
    }
    assert!(worst < 1e-5, "dropout gradient check failed: {worst:e}");
}

#[test]
fn harness_matches_softmax_ce_analytic_grad() {
    let cfg = mini();
    let mut rng = StdRng::seed_from_u64(7);
    let mut model: Gpt<S> = Gpt::new(cfg, &mut rng);
    let n = cfg.batch_size * cfg.block_size;
    let ids: Vec<u16> = (0..n).map(|i| (i % cfg.vocab_size) as u16).collect();
    let targets: Vec<u16> = (0..n).map(|i| ((i * 5 + 1) % cfg.vocab_size) as u16).collect();

    let max_rel = validate_softmax_ce(&mut model, &ids, &targets, S(1e-3)).0;
    assert!(max_rel < 1e-4, "harness max rel error {max_rel} too high");
}

#[test]
fn numerical_param_grad_is_finite() {
    let cfg = mini();
    let mut rng = StdRng::seed_from_u64(1);
    let mut model: Gpt<S> = Gpt::new(cfg, &mut rng);
    let n = cfg.batch_size * cfg.block_size;
    let ids: Vec<u16> = (0..n).map(|i| (i % cfg.vocab_size) as u16).collect();
    let targets: Vec<u16> = (0..n).map(|i| ((i * 3) % cfg.vocab_size) as u16).collect();

    let g = numerical_grad(&mut model, &ids, &targets, 0, S(1e-3));
    assert!(g.0.is_finite());
}

#[test]
fn generate_produces_valid_tokens() {
    let cfg = Config {
        n_layer: 2,
        n_head: 2,
        n_embd: 16,
        block_size: 8,
        vocab_size: 32,
        batch_size: 1,
    };
    let mut rng = StdRng::seed_from_u64(0);
    let mut model: Gpt<S> = Gpt::new(cfg, &mut rng);
    let seed: Vec<u16> = (0..cfg.block_size as u16).collect();
    let out = generate(&mut model, &seed, 20, S(0.8), Some(10), &mut rng);
    assert_eq!(out.len(), 20);
    assert!(out.iter().all(|&id| (id as usize) < cfg.vocab_size));
}

#[test]
fn every_tensor_gradient_matches_differences() {
    let cfg = mini();
    let mut rng = StdRng::seed_from_u64(5);
    let mut model: Gpt<S> = Gpt::new(cfg, &mut rng);
    let n = cfg.batch_size * cfg.block_size;
    let ids: Vec<u16> = (0..n).map(|i| ((i * 3 + 1) % cfg.vocab_size) as u16).collect();
    let targets: Vec<u16> = (0..n).map(|i| ((i * 5 + 2) % cfg.vocab_size) as u16).collect();
    let grads = model.grads_f64(&ids, &targets);
    assert_eq!(grads.len(), model.num_params());
    // The smallest single-precision step that moves the loss clearly.
    for (name, off, len) in model.param_spans() {
        let i = off + len / 2;
        let p = model.param(i);
        let eps = 1e-3f32;
        model.set_param(i, S(p.0 + eps));
        let high = model.param(i).0 as f64;
        let lp = model.loss_f64(&ids, &targets).0;
        model.set_param(i, S(p.0 - eps));
        let low = model.param(i).0 as f64;
        let lm = model.loss_f64(&ids, &targets).0;
        model.set_param(i, p);
        let num = (lp - lm) / (high - low);
        let ana = grads[i].0;
        assert!(
            (num - ana).abs() <= 1e-5 + 1e-3 * ana.abs(),
            "{name}: numerical {num} analytic {ana}"
        );
    }
}

#[test]
fn backward_in_single_precision_agrees_with_double() {
    let cfg = mini();
    let mut rng = StdRng::seed_from_u64(6);
    let mut model: Gpt<S> = Gpt::new(cfg, &mut rng);
    let n = cfg.batch_size * cfg.block_size;
    let ids: Vec<u16> = (0..n).map(|i| (i % cfg.vocab_size) as u16).collect();
    let targets: Vec<u16> = (0..n).map(|i| ((i * 5 + 1) % cfg.vocab_size) as u16).collect();
    let loss = model.forward(&ids, Some(&targets)).unwrap().0 as f64;
    model.backward(&ids, &targets);
    let wide = model.grads_f64(&ids, &targets);
    assert!((loss - model.loss_f64(&ids, &targets).0).abs() < 1e-5);
    for i in 0..model.num_params() {
        assert!((model.grad(i).0 as f64 - wide[i].0).abs() < 1e-5);
    }
    // A second backward starts from zero again.
    let first: Vec<S> = (0..model.num_params()).map(|i| model.grad(i)).collect();
    model.backward(&ids, &targets);
    for i in 0..model.num_params() {
        assert_eq!(model.grad(i), first[i]);
    }
}

#[test]
fn forward_forgets_the_arena_and_is_deterministic() {
    let cfg = mini();
    let mut rng = StdRng::seed_from_u64(11);
    let mut model: Gpt<S> = Gpt::new(cfg, &mut rng);
    let n = cfg.batch_size * cfg.block_size;
    let ids: Vec<u16> = (0..n).map(|i| (i % cfg.vocab_size) as u16).collect();
    let other: Vec<u16> = (0..n).map(|i| ((i * 9 + 4) % cfg.vocab_size) as u16).collect();
    let first = model.forward(&ids, Some(&other)).unwrap();
    let logits: Vec<S> = model.logits().to_vec();
    let _ = model.forward(&other, Some(&ids)).unwrap();
    let again = model.forward(&ids, Some(&other)).unwrap();
    assert_eq!(first, again);
    assert_eq!(logits, model.logits().to_vec());
}

#[test]
fn forward_is_causal() {
    let cfg = mini();
    let mut rng = StdRng::seed_from_u64(12);
    let mut model: Gpt<S> = Gpt::new(cfg, &mut rng);
    let n = cfg.batch_size * cfg.block_size;
    let ids: Vec<u16> = (0..n).map(|i| (i % cfg.vocab_size) as u16).collect();
    let mut changed = ids.clone();
    changed[5] = 31; // position 5 of the first row
    model.forward(&ids, None);
    let a: Vec<S> = model.logits().to_vec();
    model.forward(&changed, None);
    let b: Vec<S> = model.logits().to_vec();
    let v = cfg.vocab_size;
    assert_eq!(a[..5 * v], b[..5 * v]);
    assert_ne!(a[5 * v..6 * v], b[5 * v..6 * v]);
    // The other batch row does not see the change.
    assert_eq!(a[cfg.block_size * v..], b[cfg.block_size * v..]);
}

#[test]
fn rows_of_a_batch_are_independent() {
    let cfg = mini();
    let mut rng = StdRng::seed_from_u64(67);
    let mut model: Gpt<S> = Gpt::new(cfg, &mut rng);
    let n = cfg.batch_size * cfg.block_size;
    let ids: Vec<u16> = (0..n).map(|i| (i % cfg.vocab_size) as u16).collect();
    model.forward(&ids, None);
    let before = model.logits().to_vec();
    let mut moved = ids.clone();
    for id in moved[0..cfg.block_size].iter_mut() {
        *id = 31 - *id;
    }
    model.forward(&moved, None);
    let half = cfg.block_size * cfg.vocab_size;
    assert_eq!(model.logits()[half..], before[half..]);
    assert_ne!(model.logits()[..half], before[..half]);
}

#[test]
fn a_row_has_the_same_logits_in_a_batch_of_its_own() {
    let cfg = mini();
    let mut rng = StdRng::seed_from_u64(68);
    let mut model: Gpt<S> = Gpt::new(cfg, &mut rng);
    let one = Config { batch_size: 1, ..cfg };
    let mut twin: Gpt<S> = Gpt::new(one, &mut rng);
    twin.load_params(&model.save());
    let n = cfg.batch_size * cfg.block_size;
    let ids: Vec<u16> = (0..n).map(|i| ((i * 3 + 1) % cfg.vocab_size) as u16).collect();
    model.forward(&ids, None);
    twin.forward(&ids[cfg.block_size..], None);
    let half = cfg.block_size * cfg.vocab_size;
    assert_eq!(model.logits()[half..], twin.logits()[..]);
}

#[test]
fn backward_forgets_the_gradient_buffers() {
    let cfg = mini();
    let mut rng = StdRng::seed_from_u64(69);
    let mut model: Gpt<S> = Gpt::new(cfg, &mut rng);
    let n = cfg.batch_size * cfg.block_size;
    let ids: Vec<u16> = (0..n).map(|i| ((i * 3 + 1) % cfg.vocab_size) as u16).collect();
    let targets: Vec<u16> = (0..n).map(|i| ((i * 7 + 2) % cfg.vocab_size) as u16).collect();
    model.forward(&ids, Some(&targets));
    model.backward(&ids, &targets);
    let first = model.grads.clone();
    for g in model.grads.iter_mut().chain(model.gacts.iter_mut()) {
        *g = S(123.0);
    }
    model.backward(&ids, &targets);
    assert_eq!(model.grads, first);
}

#[test]
fn forward_without_targets_keeps_the_losses() {
    let cfg = mini();
    let mut rng = StdRng::seed_from_u64(13);
    let mut model: Gpt<S> = Gpt::new(cfg, &mut rng);
    let n = cfg.batch_size * cfg.block_size;
    let ids: Vec<u16> = (0..n).map(|i| (i % cfg.vocab_size) as u16).collect();
    let losses = |m: &Gpt<S>| m.acts[m.al.losses.off..m.al.losses.off + m.al.losses.len].to_vec();
    model.forward(&ids, Some(&ids));
    let before = losses(&model);
    assert!(model.forward(&ids, None).is_none());
    assert_eq!(before, losses(&model));
}

#[test]
fn empty_batch_has_no_logits() {
    let cfg = Config { batch_size: 0, ..mini() };
    let mut rng = StdRng::seed_from_u64(14);
    let mut model: Gpt<S> = Gpt::new(cfg, &mut rng);
    assert!(model.forward(&[], None).is_none());
    assert_eq!(model.logits().len(), 0);
}

#[test]
fn fresh_model_has_small_weights_and_unit_norms() {
    let cfg = mini();
    let mut rng = StdRng::seed_from_u64(3);
    let model: Gpt<S> = Gpt::new(cfg, &mut rng);
    let h = swiglu_hidden(16);
    assert_eq!(h, 42);
    assert_eq!(
        model.num_params(),
        32 * 16 + 2 * 16 + 2 * 48 * 16 + 2 * 16 * 16 + 2 * 16 + 3 * 2 * h * 16 + 16 + 32 * 16
    );
    for (name, off, len) in model.param_spans() {
        for i in off..off + len {
            let p = model.param(i).0;
            if name == "ln1w" || name == "ln2w" || name == "lnfw" {
                assert_eq!(p, 1.0);
            } else {
                assert!(p.abs() < 0.2);
            }
        }
    }
}

#[test]
fn fresh_weights_follow_the_draws() {
    let cfg = Config {
        n_layer: 1,
        n_head: 1,
        n_embd: 2,
        block_size: 2,
        vocab_size: 3,
        batch_size: 1,
    };
    let mut rng = StdRng::seed_from_u64(9);
    let mut twin = StdRng::seed_from_u64(9);
    let model: Gpt<S> = Gpt::new(cfg, &mut rng);
    let u1 = twin.gen::<f32>().max(1e-7);
    let u2 = twin.gen::<f32>();
    let x = (-2.0 * u1.ln()).sqrt() * (2.0 * std::f32::consts::PI * u2).cos();
    assert_eq!(model.param(0), S(x * 0.02));
    assert_eq!(randn(S(u1), S(u2)), S(x));
    assert_eq!(randn(S(0.0), S(0.25)).0, (-2.0 * 1e-7f32.ln()).sqrt() * (2.0 * std::f32::consts::PI * 0.25).cos());
}

#[test]
fn spans_tile_the_parameters() {
    let cfg = mini();
    let mut rng = StdRng::seed_from_u64(3);
    let model: Gpt<S> = Gpt::new(cfg, &mut rng);
    let spans = model.param_spans();
    let names: Vec<&str> = spans.iter().map(|s| s.0).collect();
    assert_eq!(
        names,
        vec!["wte", "ln1w", "qkvw", "attprojw", "ln2w", "w1", "w3", "w2", "lnfw", "lm_head"]
    );
    let mut at = 0;
    for (_, off, len) in spans {
        assert_eq!(off, at);
        at += len;
    }
    assert_eq!(at, model.num_params());
}

#[test]
fn parameters_do_not_depend_on_the_batch() {
    let cfg = mini();
    let mut rng = StdRng::seed_from_u64(3);
    let model: Gpt<S> = Gpt::new(cfg, &mut rng);
    let twin_cfg = Config { batch_size: 1, block_size: 3, ..cfg };
    let mut twin: Gpt<S> = Gpt::new(twin_cfg, &mut rng);
    assert_eq!(model.param_spans(), twin.param_spans());
    twin.load_params(&model.save());
    for i in 0..model.num_params() {
        assert_eq!(model.param(i), twin.param(i));
    }
}

#[test]
fn checkpoint_round_trip_and_bytes() {
    let cfg = mini();
    let mut rng = StdRng::seed_from_u64(21);
    let mut model: Gpt<S> = Gpt::new(cfg, &mut rng);
    model.set_param(0, S(1.5));
    model.set_param(1, S(-0.0));
    let bytes = model.save();
    assert_eq!(bytes.len(), 4 * model.num_params());
    assert_eq!(bytes[..8], [0x00, 0x00, 0xc0, 0x3f, 0x00, 0x00, 0x00, 0x80]);
    let mut other: Gpt<S> = Gpt::new(cfg, &mut rng);
    other.load_params(&bytes);
    assert_eq!(other.save(), bytes);
}

#[test]
fn set_param_touches_one_parameter() {
    let cfg = mini();
    let mut rng = StdRng::seed_from_u64(22);
    let mut model: Gpt<S> = Gpt::new(cfg, &mut rng);
    let before = model.save();
    model.set_param(7, S(9.0));
    assert_eq!(model.param(7), S(9.0));
    let after = model.save();
    assert_eq!(before[..28], after[..28]);
    assert_eq!(before[32..], after[32..]);
}

#[test]
fn one_adamw_step_by_hand() {
    let cfg = mini();
    let mut rng = StdRng::seed_from_u64(23);
    let mut model: Gpt<S> = Gpt::new(cfg, &mut rng);
    model.set_param(0, S(2.0));
    model.grads[0] = S(0.5);
    model.adamw_step(S(0.1), S(0.9), S(0.999), S(1e-8), S(0.01));
    let m = 0.9f32 * 0.0 + (1.0 - 0.9f32) * 0.5;
    let v = 0.999f32 * 0.0 + (1.0 - 0.999f32) * 0.5 * 0.5;
    let m_hat = m / (1.0 - 0.9f32.powi(1));
    let v_hat = v / (1.0 - 0.999f32.powi(1));
    let p = 2.0f32 - 0.1 * (m_hat / (v_hat.sqrt() + 1e-8) + 0.01 * 2.0);
    assert_eq!(model.param(0), S(p));
    assert_eq!(model.m[0], S(m));
    assert_eq!(model.v[0], S(v));
    assert_eq!(model.adam_t, 1);
}

// --- dropout ---

#[test]
fn dropout_masks_are_zero_or_scaled() {
    let cfg = mini();
    let mut rng = StdRng::seed_from_u64(31);
    let mut model: Gpt<S> = Gpt::new(cfg, &mut rng);
    model.set_dropout(S(0.25));
    let ml = MaskLayout::new(&cfg);
    assert_eq!(model.masks, vec![S(1.0); ml.total]);
    model.fill_masks(&mut rng);
    let scale = S(1.0 / 0.75);
    assert!(model.masks.iter().all(|&m| m == scale || m == S(0.0)));
    assert!(model.masks.iter().any(|&m| m == scale));
    assert!(model.masks.iter().any(|&m| m == S(0.0)));
    let mut draws = vec![S(0.5); ml.total];
    draws[0] = S(0.75);
    draws[1] = S(0.7499);
    model.fill_masks_from(&draws);
    assert_eq!(model.masks[0], S(0.0));
    assert_eq!(model.masks[1], scale);
}

#[test]
fn training_pass_without_dropout_is_the_plain_one() {
    let cfg = mini();
    let mut rng = StdRng::seed_from_u64(32);
    let mut model: Gpt<S> = Gpt::new(cfg, &mut rng);
    model.set_dropout(S(0.1));
    model.set_dropout(S(0.0));
    assert!(model.masks.is_empty());
    let n = cfg.batch_size * cfg.block_size;
    let ids: Vec<u16> = (0..n).map(|i| (i % cfg.vocab_size) as u16).collect();
    let plain = model.forward(&ids, Some(&ids));
    let before = rng.clone();
    let trained = model.forward_train(&ids, Some(&ids), &mut rng);
    assert_eq!(plain, trained);
    assert_eq!(rng, before);
}

#[test]
fn training_pass_uses_its_masks() {
    let cfg = mini();
    let mut rng = StdRng::seed_from_u64(33);
    let mut model: Gpt<S> = Gpt::new(cfg, &mut rng);
    model.set_dropout(S(0.5));
    let n = cfg.batch_size * cfg.block_size;
    let ids: Vec<u16> = (0..n).map(|i| (i % cfg.vocab_size) as u16).collect();
    let plain = model.forward(&ids, Some(&ids));
    let trained = model.forward_train(&ids, Some(&ids), &mut rng);
    assert_ne!(plain, trained);
    let mut acts = vec![S(0.0); model.al.total];
    let again = forward_into(&cfg, &model.params, &mut acts, &ids, Some(&ids), Some(&model.masks));
    assert_eq!(trained, again);
    // `backward` takes the same masks.
    model.backward(&ids, &ids);
    let mut grads = vec![S(0.0); model.pl.total];
    let mut gacts = vec![S(0.0); model.al.total];
    backward_into(
        &cfg, &model.params, &acts, &mut grads, &mut gacts, &ids, &ids, Some(&model.masks),
    );
    assert_eq!(model.grads, grads);
}

// --- sampling ---

#[test]
fn keep_largest_marks_the_largest() {
    assert_eq!(keep_largest(&[3, -1, 7, 7, 2], 2), vec![false, false, true, true, false]);
    assert_eq!(keep_largest(&[3, -1, 7, 7, 2], 3), vec![true, false, true, true, false]);
    assert_eq!(keep_largest(&[5, 5, 5], 2).iter().filter(|&&k| k).count(), 2);
    assert_eq!(keep_largest(&[i64::MIN, i64::MAX], 1), vec![false, true]);
    assert_eq!(keep_largest(&[1, 2], 0), vec![false, false]);
    assert_eq!(keep_largest(&[1, 2], 2), vec![true, true]);
    assert_eq!(keep_largest(&[], 0), Vec::<bool>::new());
}

#[test]
fn sampling_by_hand() {
    let logits = singles(&[0.0, 3f32.ln()]); // probabilities 1/4 and 3/4
    assert_eq!(sample_logits_from(&logits, S(1.0), None, S(0.2)), 0);
    assert_eq!(sample_logits_from(&logits, S(1.0), None, S(0.3)), 1);
    assert_eq!(sample_logits_from(&logits, S(1.0), Some(1), S(0.2)), 1);
    assert_eq!(sample_logits_from(&logits, S(1.0), Some(2), S(0.2)), 0);
    assert_eq!(sample_logits_from(&logits, S(1.0), Some(9), S(0.2)), 0);
    // A low temperature sharpens: the odds of 3 become 9.
    assert_eq!(sample_logits_from(&logits, S(0.5), None, S(0.2)), 1);
    assert_eq!(sample_logits_from(&logits, S(0.5), None, S(0.05)), 0);
    // Nothing is kept: no sum compares, the last token stands.
    assert_eq!(sample_logits_from(&logits, S(1.0), Some(0), S(0.2)), 1);
}

#[test]
fn a_cut_token_is_never_sampled() {
    // A draw of zero is reached by every sum: only kept places count.
    assert_eq!(sample_logits_from(&singles(&[0.0, 1.0]), S(1.0), Some(1), S(0.0)), 1);
    assert_eq!(sample_logits_from(&singles(&[0.0, 5.0, 1.0]), S(1.0), Some(2), S(0.0)), 1);
    assert_eq!(sample_logits_from(&singles(&[2.0, 5.0, 1.0]), S(1.0), Some(2), S(0.0)), 0);
    assert_eq!(sample_logits_from(&singles(&[0.0, 1.0]), S(1.0), None, S(0.0)), 0);
    // A point that no sum reaches gives the last kept place.
    assert_eq!(sample_logits_from(&singles(&[3.0, 1.0, 0.0]), S(1.0), Some(1), S(2.0)), 0);
    assert_eq!(sample_logits_from(&singles(&[3.0, 1.0, 0.0]), S(1.0), None, S(2.0)), 2);
}

#[test]
fn sampling_draws_once() {
    let logits = singles(&[0.0, 3f32.ln(), -1.0]);
    let mut rng = StdRng::seed_from_u64(77);
    let mut twin = StdRng::seed_from_u64(77);
    for _ in 0..50 {
        let id = sample_logits(&logits, S(0.9), Some(2), &mut rng);
        let u = S(twin.gen::<f32>());
        assert_eq!(id, sample_logits_from(&logits, S(0.9), Some(2), u));
        assert!(id < 2);
    }
    assert_eq!(rng, twin);
}

#[test]
fn a_run_splits_into_runs() {
    let cfg = Config { batch_size: 1, ..mini() };
    let mut model: Gpt<S> = Gpt::new(cfg, &mut StdRng::seed_from_u64(78));
    let seed: Vec<u16> = (0..8).map(|i| i * 3).collect();
    let mut rng = StdRng::seed_from_u64(79);
    let whole = generate(&mut model, &seed, 12, S(1.0), Some(10), &mut rng);
    let mut carried = StdRng::seed_from_u64(79);
    let a = generate(&mut model, &seed, 5, S(1.0), Some(10), &mut carried);
    let mut all = seed.clone();
    all.extend_from_slice(&a);
    let b = generate(&mut model, &all[5..], 7, S(1.0), Some(10), &mut carried);
    assert_eq!(whole, [a, b].concat());
    assert_eq!(rng, carried);
    assert!(generate(&mut model, &seed, 0, S(1.0), None, &mut carried).is_empty());
    assert_eq!(rng, carried);
}

#[test]
fn draws_come_one_after_the_other() {
    let mut rng = StdRng::seed_from_u64(80);
    let mut twin = StdRng::seed_from_u64(80);
    let draws: Vec<S> = draw_uniform(3, &mut rng);
    let again: Vec<S> = (0..3).map(|_| S(twin.gen::<f32>())).collect();
    assert_eq!(draws, again);
    let pairs: Vec<(S, S)> = draw_pairs(2, &mut rng);
    let again: Vec<S> = (0..4).map(|_| S(twin.gen::<f32>())).collect();
    assert_eq!(pairs, vec![(again[0], again[1]), (again[2], again[3])]);
    let indices = draw_indices(4, 9, &mut rng);
    let again: Vec<usize> = (0..4).map(|_| twin.gen_range(0..=9)).collect();
    assert_eq!(indices, again);
    assert_eq!(rng, twin);
}

#[test]
fn generation_slides_the_window() {
    let cfg = Config {
        n_layer: 1,
        n_head: 1,
        n_embd: 4,
        block_size: 3,
        vocab_size: 5,
        batch_size: 1,
    };
    let mut rng = StdRng::seed_from_u64(41);
    let mut model: Gpt<S> = Gpt::new(cfg, &mut rng);
    let seed = [1u16, 2, 3];
    let draws = singles(&[0.1, 0.5, 0.9, 0.3]);
    let out = generate_from(&mut model, &seed, S(0.7), None, &draws);
    assert_eq!(out.len(), 4);
    let mut window = seed.to_vec();
    for k in 0..4 {
        model.forward(&window, None);
        let last = model.logits()[2 * 5..3 * 5].to_vec();
        assert_eq!(out[k], sample_logits_from(&last, S(0.7), None, draws[k]));
        window.remove(0);
        window.push(out[k]);
    }
    assert_eq!(generate_from(&mut model, &seed, S(0.7), None, &[]), Vec::<u16>::new());
}

// --- gradient checks ---

#[test]
fn rel_error_by_hand() {
    assert_eq!(rel_error(D(1.0), D(1.0)).0, 0.0);
    assert_eq!(rel_error(D(2.0), D(1.0)).0, 0.5);
    assert_eq!(rel_error(D(-1.0), D(1.0)).0, 2.0);
    assert_eq!(rel_error(D(0.0), D(0.0)).0, 0.0);
    assert_eq!(rel_error(D(1e-13), D(0.0)).0, 1e-13 / 1e-12);
    assert_eq!(rel_error(D(0.3), D(-1.7)), rel_error(D(-1.7), D(0.3)));
    assert_eq!(rel_error(D(0.3), D(-1.7)), rel_error(D(-0.3), D(1.7)));
}

#[test]
fn numerical_gradients_restore_what_they_move() {
    let cfg = mini();
    let mut rng = StdRng::seed_from_u64(51);
    let mut model: Gpt<S> = Gpt::new(cfg, &mut rng);
    let n = cfg.batch_size * cfg.block_size;
    let ids: Vec<u16> = (0..n).map(|i| (i % cfg.vocab_size) as u16).collect();
    let before = model.save();
    let g = numerical_grad(&mut model, &ids, &ids, 40, S(1e-2)).0 as f64;
    assert_eq!(before, model.save());
    let wide = model.grads_f64(&ids, &ids)[40].0;
    assert!((g - wide).abs() < 1e-2 * wide.abs().max(1.0), "{g} {wide}");

    let mut logits = singles(&[0.5, -0.5, 1.0, 0.0]);
    let kept = logits.clone();
    let g = numerical_logit_grad(&mut logits, &[1, 0], 2, 2, 0, S(1e-3)).0;
    assert_eq!(logits, kept);
    let p0 = 1.0 / (1.0 + (-1.0f64).exp());
    assert!((g - p0 / 2.0).abs() < 1e-4);
}

// --- training ---

fn loader(batch_size: usize, block_size: usize, vocab: u16) -> DataLoader {
    let mut bytes = Vec::new();
    for i in 0..200u16 {
        bytes.extend_from_slice(&((i * 7) % vocab).to_le_bytes());
    }
    DataLoader::from_bin(&bytes, batch_size, block_size)
}

#[test]
fn progress_tracks_the_best_and_stops() {
    let mut p: Progress<S> = Progress::start();
    assert_eq!(p.best, S(f32::INFINITY));
    assert_eq!(p.judge(S(3.0), 2), Verdict::Improved);
    assert_eq!(p.judge(S(3.0), 2), Verdict::Worse);
    assert_eq!(p.judge(S(2.0), 2), Verdict::Improved);
    assert_eq!((p.best, p.since_improved), (S(2.0), 0));
    assert_eq!(p.judge(S(2.5), 2), Verdict::Worse);
    assert_eq!(p.judge(S(f32::NAN), 2), Verdict::Stop);
    assert_eq!((p.best, p.since_improved), (S(2.0), 2));
    let mut q: Progress<S> = Progress::start();
    assert_eq!(q.judge(S(f32::INFINITY), 0), Verdict::Stop);
}

#[test]
fn evaluation_is_the_mean_of_the_batches() {
    let cfg = mini();
    let mut rng = StdRng::seed_from_u64(61);
    let mut model: Gpt<S> = Gpt::new(cfg, &mut rng);
    let data = loader(cfg.batch_size, cfg.block_size, 32);
    let b1 = data.batch_at(&[0, 5]);
    let b2 = data.batch_at(&[9, 70]);
    let l1 = model.forward(&b1.0, Some(&b1.1)).unwrap().0;
    let l2 = model.forward(&b2.0, Some(&b2.1)).unwrap().0;
    let mean = evaluate_on(&mut model, &vec![b1, b2]);
    assert_eq!(mean, S((l1 + l2) / 2.0));
    let mut twin = StdRng::seed_from_u64(62);
    let mut rng = StdRng::seed_from_u64(62);
    let drawn = vec![data.next_batch(&mut twin), data.next_batch(&mut twin)];
    assert_eq!(evaluate(&mut model, &data, &mut rng, 2), evaluate_on(&mut model, &drawn));
}

#[test]
fn an_update_is_forward_backward_and_a_step() {
    let cfg = mini();
    let mut a: Gpt<S> = Gpt::new(cfg, &mut StdRng::seed_from_u64(63));
    let mut b: Gpt<S> = Gpt::new(cfg, &mut StdRng::seed_from_u64(63));
    let data = loader(cfg.batch_size, cfg.block_size, 32);
    let (x, y) = data.batch_at(&[3, 40]);
    let loss = update_on(&mut a, &x, &y, S(1e-3), S(0.1), &mut StdRng::seed_from_u64(0));
    assert_eq!(Some(loss), b.forward(&x, Some(&y)));
    b.backward(&x, &y);
    b.adamw_step(S(1e-3), S(0.9), S(0.999), S(1e-8), S(0.1));
    assert_eq!(a.save(), b.save());
}

#[test]
fn an_update_drops_alike_forward_and_backward() {
    let cfg = mini();
    let mut a: Gpt<S> = Gpt::new(cfg, &mut StdRng::seed_from_u64(65));
    let mut b: Gpt<S> = Gpt::new(cfg, &mut StdRng::seed_from_u64(65));
    a.set_dropout(S(0.5));
    b.set_dropout(S(0.5));
    let data = loader(cfg.batch_size, cfg.block_size, 32);
    let (x, y) = data.batch_at(&[3, 40]);
    let loss = update_on(&mut a, &x, &y, S(1e-3), S(0.1), &mut StdRng::seed_from_u64(66));
    assert!(a.masks.iter().any(|&m| m == S(0.0)));
    assert!(a.masks.iter().any(|&m| m == S(2.0)));
    assert_eq!(Some(loss), b.forward_train(&x, Some(&y), &mut StdRng::seed_from_u64(66)));
    b.backward(&x, &y);
    b.adamw_step(S(1e-3), S(0.9), S(0.999), S(1e-8), S(0.1));
    assert_eq!(a.masks, b.masks);
    assert_eq!(a.save(), b.save());
}

#[test]
fn training_steps_evaluate_when_due() {
    let cfg = mini();
    let mut rng = StdRng::seed_from_u64(64);
    let mut model: Gpt<S> = Gpt::new(cfg, &mut rng);
    let data = loader(cfg.batch_size, cfg.block_size, 32);
    let tcfg = TrainConfig {
        steps: 30,
        lr: S(1e-2),
        weight_decay: S(0.0),
        eval_every: 10,
        eval_batches: 2,
        patience: 100,
        ckpt_path: String::from("ckpt.bin"),
    };
    let mut progress = Progress::start();
    let mut evals = Vec::new();
    let mut first = None;
    let mut last = S(0.0);
    for step in 1..=tcfg.steps {
        let report = train_step(&mut model, &mut progress, &data, &data, &mut rng, step, &tcfg);
        if let Some((vl, verdict)) = report.eval {
            evals.push(step);
            if verdict == Verdict::Improved {
                assert_eq!(progress.best, vl);
            }
            if first.is_none() {
                first = Some(vl);
            }
            last = vl;
        }
    }
    assert_eq!(evals, vec![1, 10, 20, 30]);
    assert!(last.0 < first.unwrap().0);
    assert_eq!(model.adam_t, 30);
}

#[test]
fn training_goes_on_until_the_last_step_or_a_stop() {
    assert!(goes_on(0, 1, None));
    assert!(!goes_on(1, 1, None));
    assert!(!goes_on(2, 1, Some(Verdict::Improved)));
    assert!(goes_on(1, 2, Some(Verdict::Improved)));
    assert!(goes_on(1, 2, Some(Verdict::Worse)));
    assert!(!goes_on(1, 2, Some(Verdict::Stop)));
    assert!(!goes_on(0, 0, None));
    assert_eq!(Progress::<S>::start().best, S(f32::INFINITY));
}

#[test]
fn a_run_stops_after_its_patience() {
    let cfg = mini();
    let mut rng = StdRng::seed_from_u64(67);
    let mut model: Gpt<S> = Gpt::new(cfg, &mut rng);
    let data = loader(cfg.batch_size, cfg.block_size, 32);
    let tcfg = TrainConfig {
        steps: 9,
        lr: S(f32::NAN),
        weight_decay: S(0.0),
        eval_every: 2,
        eval_batches: 1,
        patience: 3,
        ckpt_path: String::from("ckpt.bin"),
    };
    // The first step spoils the parameters: no loss that follows compares.
    let mut progress = Progress::start();
    let mut done = 0;
    let mut last = None;
    while goes_on(done, tcfg.steps, last) {
        done += 1;
        let report = train_step(&mut model, &mut progress, &data, &data, &mut rng, done, &tcfg);
        last = report.eval.map(|(_, verdict)| verdict);
    }
    assert_eq!((done, last), (4, Some(Verdict::Stop)));
    assert_eq!(progress.best, S(f32::INFINITY));
}

#[test]
fn the_best_is_the_least_loss() {
    let losses = [3.0, 4.0, 2.5, 2.5, 7.0, 1.0, 2.0];
    let mut p: Progress<S> = Progress::start();
    for (i, &loss) in losses.iter().enumerate() {
        p.judge(S(loss), 100);
        let least = losses[..=i].iter().fold(f32::INFINITY, |a, &b| a.min(b));
        assert_eq!(p.best, S(least));
    }
    assert_eq!((p.best, p.since_improved), (S(1.0), 1));
}

#[test]
fn a_step_draws_its_batch_and_then_the_evaluation() {
    let cfg = mini();
    let mut model: Gpt<S> = Gpt::new(cfg, &mut StdRng::seed_from_u64(68));
    let mut copy: Gpt<S> = Gpt::new(cfg, &mut StdRng::seed_from_u64(68));
    let data = loader(cfg.batch_size, cfg.block_size, 32);
    let tcfg = TrainConfig {
        steps: 2,
        lr: S(1e-2),
        weight_decay: S(0.1),
        eval_every: 5,
        eval_batches: 3,
        patience: 4,
        ckpt_path: String::from("ckpt.bin"),
    };
    let mut rng = StdRng::seed_from_u64(69);
    let mut twin = StdRng::seed_from_u64(69);
    let mut progress = Progress::start();
    let report = train_step(&mut model, &mut progress, &data, &data, &mut rng, 1, &tcfg);
    let (x, y) = data.next_batch(&mut twin);
    let loss = update_on(&mut copy, &x, &y, tcfg.lr, tcfg.weight_decay, &mut twin);
    let vl = evaluate(&mut copy, &data, &mut twin, 3);
    assert_eq!((report.loss, report.eval), (loss, Some((vl, Verdict::Improved))));
    assert_eq!(rng, twin);
    // The second step is not due for an evaluation: one batch, and no more.
    train_step(&mut model, &mut progress, &data, &data, &mut rng, 2, &tcfg);
    data.next_batch(&mut twin);
    assert_eq!(rng, twin);
}

#[test]
fn the_same_state_gives_the_same_text() {
    let cfg = Config { batch_size: 1, ..mini() };
    let mut model: Gpt<S> = Gpt::new(cfg, &mut StdRng::seed_from_u64(70));
    let seed: Vec<u16> = (0..8).collect();
    for top_k in [None, Some(5)] {
        let mut rng = StdRng::seed_from_u64(71);
        let mut twin = rng.clone();
        let a = generate(&mut model, &seed, 10, S(0.8), top_k, &mut rng);
        let b = generate(&mut model, &seed, 10, S(0.8), top_k, &mut twin);
        assert_eq!(a, b);
        assert_eq!(rng, twin);
    }
}
