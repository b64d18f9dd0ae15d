//! The transformer.

pub mod backward;
pub mod calls;
pub mod causal;
pub mod checkpoint;
pub mod forward;
pub mod init;
pub mod layer;
pub mod optim;
pub mod repeat;
pub mod unique;

use rand::rngs::StdRng;
use vstd::prelude::*;

pub use crate::layout::Config;

use crate::layout::{
    act_layout, lemma_act_layout, lemma_act_sizes, lemma_mask_layout, lemma_param_layout,
    lemma_param_sizes, mask_layout, param_layout, ActLayout, MaskLayout, Off, ParamLayout,
};
use crate::model::backward::{all_zero, backward_into, backward_is};
use crate::model::checkpoint::{checkpoint, checkpoint_is, loaded_is, restore};
use crate::model::forward::{
    batch_ids, batch_loss_is, forward_into, forward_is, forward_result_is, scored_is, target_ids,
};
use crate::model::init::{initial_params, initial_params_are, weight_count, zeros};
use crate::model::optim::{adam_is, adam_step, rest_is, AdamW};
use crate::ops::loss::reciprocal_is;
use crate::rng::{draw_pairs, draw_uniform, draws_are, pairs_are};
use crate::scalar::{exceeds_is, is_one, is_zero, widened_is, Single};

verus! {

/// A Llama-style transformer: flat parameters and an activation arena, with
/// matching gradient buffers for the backward pass.
pub struct Gpt<F: Single> {
    pub cfg: Config,
    pub params: Vec<F>,
    pub acts: Vec<F>,
    /// Parameter gradients, laid out as `params`.
    pub grads: Vec<F>,
    /// Activation gradients, laid out as `acts`.
    pub gacts: Vec<F>,
    /// First moments of AdamW, laid out as `params`.
    pub m: Vec<F>,
    /// Second moments of AdamW, laid out as `params`.
    pub v: Vec<F>,
    /// Steps that AdamW has made.
    pub adam_t: u64,
    /// Dropout keep factors, filled for each training step.
    pub masks: Vec<F>,
    /// Dropout probability.
    pub dropout: F,
    /// Whether the dropout probability is above zero.
    pub drops: bool,
    pub pl: ParamLayout,
    pub al: ActLayout,
    pub ml: MaskLayout,
}

/// The shape of a model: all buffers can be indexed, and the heads divide the
/// channels among them.
pub open spec fn shape_ok(c: Config) -> bool {
    &&& c.fits()
    &&& 0 < c.n_head
    &&& c.n_embd % c.n_head == 0
}

/// Whether `p > 0`.
pub open spec fn positive_is<F: Single>(p: F, b: bool) -> bool {
    exists|zero: F| #[trigger] is_zero(zero) && exceeds_is(p, zero, b)
}

/// Every value is one.
pub open spec fn all_one<F: Single>(s: Seq<F>) -> bool {
    forall|i: int| 0 <= i < s.len() ==> is_one(#[trigger] s[i])
}

/// `mask` is the keep factor for one draw: `scale` below `keep`, else zero.
pub open spec fn keep_factor_is<F: Single>(draw: F, keep: F, scale: F, mask: F) -> bool {
    exists|b: bool| #[trigger]
        exceeds_is(keep, draw, b) && if b {
            mask == scale
        } else {
            is_zero(mask)
        }
}

/// `scale` is `1 / keep`, and `keep` is `1 - p`.
pub open spec fn keep_scale_is<F: Single>(p: F, keep: F, scale: F) -> bool {
    rest_is(p, keep) && reciprocal_is(keep, scale)
}

/// Each keep factor follows from its draw: `1 / keep` with probability
/// `keep = 1 - p`, else zero.
pub open spec fn masks_are<F: Single>(p: F, draws: Seq<F>, masks: Seq<F>) -> bool {
    &&& masks.len() == draws.len()
    &&& exists|keep: F, scale: F| #[trigger]
        keep_scale_is(p, keep, scale) && forall|i: int|
            0 <= i < masks.len() ==> keep_factor_is(draws[i], keep, scale, #[trigger] masks[i])
}

/// The parameters in double precision.
pub open spec fn wide_params_are<F: Single>(params: Seq<F>, wide: Seq<F::Wide>) -> bool {
    &&& wide.len() == params.len()
    &&& forall|i: int| 0 <= i < wide.len() ==> widened_is(params[i], #[trigger] wide[i])
}

/// Name, offset and length of every parameter tensor, in the order of the
/// buffer.
pub open spec fn named_spans(pl: ParamLayout) -> Seq<(&'static str, usize, usize)> {
    seq![
        ("wte", pl.wte.off, pl.wte.len),
        ("ln1w", pl.ln1w.off, pl.ln1w.len),
        ("qkvw", pl.qkvw.off, pl.qkvw.len),
        ("attprojw", pl.attprojw.off, pl.attprojw.len),
        ("ln2w", pl.ln2w.off, pl.ln2w.len),
        ("w1", pl.w1.off, pl.w1.len),
        ("w3", pl.w3.off, pl.w3.len),
        ("w2", pl.w2.off, pl.w2.len),
        ("lnfw", pl.lnfw.off, pl.lnfw.len),
        ("lm_head", pl.lm_head.off, pl.lm_head.len),
    ]
}

/// Which values each name stands for: the places are numbers of the
/// configuration alone.
pub proof fn lemma_spans_named(c: Config)
    requires
        c.params_fit(),
    ensures
        ({
            let spans = named_spans(param_layout(c));
            let (l, v, ch) = (c.n_layer as int, c.vocab_size as int, c.n_embd as int);
            let h = 8 * ch / 3;
            &&& spans[0].0 == "wte" && spans[0].1 == 0 && spans[0].2 == v * ch
            &&& spans[1].0 == "ln1w" && spans[1].2 == l * ch
            &&& spans[2].0 == "qkvw" && spans[2].2 == l * ((3 * ch) * ch)
            &&& spans[3].0 == "attprojw" && spans[3].2 == l * (ch * ch)
            &&& spans[4].0 == "ln2w" && spans[4].2 == l * ch
            &&& spans[5].0 == "w1" && spans[5].2 == l * (h * ch)
            &&& spans[6].0 == "w3" && spans[6].2 == l * (h * ch)
            &&& spans[7].0 == "w2" && spans[7].2 == l * (h * ch)
            &&& spans[8].0 == "lnfw" && spans[8].2 == ch
            &&& spans[9].0 == "lm_head" && spans[9].2 == v * ch
        }),
{
    crate::layout::lemma_param_places(c);
}

/// The parameter tensors tile the buffer: the first starts at its front, each
/// starts where the one before it ends, and the last ends with it.
pub proof fn lemma_spans_tile(c: Config)
    requires
        c.params_fit(),
    ensures
        ({
            let spans = named_spans(param_layout(c));
            &&& spans.len() == 10
            &&& spans[0].1 == 0
            &&& forall|k: int|
                0 <= k < 9 ==> #[trigger] spans[k].1 + spans[k].2 == spans[k + 1].1
            &&& spans[9].1 + spans[9].2 == c.param_total()
        }),
{
    lemma_param_layout(c);
    let spans = named_spans(param_layout(c));
    assert forall|k: int| 0 <= k < 9 implies #[trigger] spans[k].1 + spans[k].2 == spans[k
        + 1].1 by {
        assert(k == 0 || k == 1 || k == 2 || k == 3 || k == 4 || k == 5 || k == 6 || k == 7 || k
            == 8);
    }
}

impl<F: Single> Gpt<F> {
    /// The buffers have the sizes that the shape gives them.
    pub open spec fn wf(self) -> bool {
        &&& shape_ok(self.cfg)
        &&& self.pl == param_layout(self.cfg)
        &&& self.al == act_layout(self.cfg)
        &&& self.ml == mask_layout(self.cfg)
        &&& self.params@.len() == self.cfg.param_total()
        &&& self.acts@.len() == self.cfg.act_total()
        &&& self.grads@.len() == self.cfg.param_total()
        &&& self.gacts@.len() == self.cfg.act_total()
        &&& self.m@.len() == self.cfg.param_total()
        &&& self.v@.len() == self.cfg.param_total()
        &&& self.drops ==> self.masks@.len() == self.cfg.mask_total()
    }

    /// The keep factors that a training pass uses.
    pub open spec fn active_masks(self) -> Option<Seq<F>> {
        if self.drops {
            Some(self.masks@)
        } else {
            None
        }
    }

    /// A fresh model for a fixed `(batch_size, block_size)`.
    pub open spec fn fresh(self, cfg: Config, draws: Seq<(F, F)>) -> bool {
        &&& self.cfg == cfg
        &&& self.wf()
        &&& initial_params_are(cfg, draws, self.params@)
        &&& all_zero(self.acts@)
        &&& all_zero(self.grads@)
        &&& all_zero(self.gacts@)
        &&& all_zero(self.m@)
        &&& all_zero(self.v@)
        &&& self.adam_t == 0
        &&& self.masks@.len() == 0
        &&& is_zero(self.dropout)
        &&& !self.drops
    }

    /// Allocate and randomly initialise a model for a fixed
    /// `(batch_size, block_size)`: with a pair of draws for each weight, one
    /// after the other.
    pub fn new(cfg: Config, rng: &mut StdRng) -> (res: Self)
        requires
            shape_ok(cfg),
        ensures
            exists|draws: Seq<(F, F)>|
                pairs_are(*old(rng), draws, *final(rng)) && #[trigger] res.fresh(cfg, draws),
    {
        let pl = ParamLayout::new(&cfg);
        proof {
            lemma_param_sizes(cfg);
        }
        let n = pl.wte.len + pl.qkvw.len + pl.attprojw.len + pl.w1.len + pl.w3.len + pl.w2.len
            + pl.lm_head.len;
        let draws = draw_pairs(n, rng);
        let res = Self::from_draws(cfg, draws.as_slice());
        assert(res.fresh(cfg, draws@));
        res
    }

    /// The model that the given uniform draws make, a pair for each weight.
    pub fn from_draws(cfg: Config, draws: &[(F, F)]) -> (res: Self)
        requires
            shape_ok(cfg),
            draws@.len() == weight_count(param_layout(cfg)),
        ensures
            res.fresh(cfg, draws@),
    {
        let pl = ParamLayout::new(&cfg);
        let al = ActLayout::new(&cfg);
        let ml = MaskLayout::new(&cfg);
        let params = initial_params(&cfg, &pl, draws);
        let acts: Vec<F> = zeros(al.total);
        let grads: Vec<F> = zeros(pl.total);
        let gacts: Vec<F> = zeros(al.total);
        let m: Vec<F> = zeros(pl.total);
        let v: Vec<F> = zeros(pl.total);
        Gpt {
            cfg,
            params,
            acts,
            grads,
            gacts,
            m,
            v,
            adam_t: 0,
            masks: Vec::new(),
            dropout: F::zero(),
            drops: false,
            pl,
            al,
            ml,
        }
    }

    /// Set the dropout probability. Above zero this allocates the keep factors.
    /// Dropout acts in `forward_train` and `backward` alone; `forward` stays
    /// deterministic.
    pub fn set_dropout(&mut self, p: F)
        requires
            old(self).wf(),
        ensures
            final(self).wf(),
            *final(self) == (Gpt {
                dropout: p,
                drops: final(self).drops,
                masks: final(self).masks,
                ..*old(self)
            }),
            positive_is(p, final(self).drops),
            if final(self).drops {
                final(self).masks@.len() == old(self).cfg.mask_total() && all_one(
                    final(self).masks@,
                )
            } else {
                final(self).masks@.len() == 0
            },
    {
        proof {
            lemma_mask_layout(self.cfg);
        }
        self.dropout = p;
        let drops = p.exceeds(F::zero());
        assert(positive_is(p, drops));
        self.drops = drops;
        self.masks = if drops {
            ones(self.ml.total)
        } else {
            Vec::new()
        };
    }

    /// Number of parameters.
    pub fn num_params(&self) -> (n: usize)
        ensures
            n == self.params@.len(),
    {
        self.params.len()
    }

    /// One parameter.
    pub fn param(&self, i: usize) -> (p: F)
        requires
            i < self.params@.len(),
        ensures
            p == self.params@[i as int],
    {
        self.params[i]
    }

    /// Overwrite one parameter.
    pub fn set_param(&mut self, i: usize, v: F)
        requires
            i < old(self).params@.len(),
        ensures
            *final(self) == (Gpt { params: final(self).params, ..*old(self) }),
            final(self).params@ == old(self).params@.update(i as int, v),
    {
        self.params[i] = v;
    }

    /// Logits `[B, T, V]` of the last forward pass.
    pub fn logits(&self) -> (x: &[F])
        requires
            self.wf(),
        ensures
            x@ == act_layout(self.cfg).logits.of(self.acts@),
            x@.len() == self.cfg.vocab_acts(),
    {
        proof {
            lemma_act_layout(self.cfg);
            lemma_act_sizes(self.cfg);
        }
        span_of(self.acts.as_slice(), &self.al.logits)
    }

    /// Run the forward pass for one batch of token ids.
    ///
    /// With targets, also computes probabilities and the loss of each token and
    /// gives back the mean loss. Activations stay in the arena for `backward`.
    pub fn forward(&mut self, ids: &[u16], targets: Option<&[u16]>) -> (loss: Option<F>)
        requires
            old(self).wf(),
            old(self).cfg.runs(),
            batch_ids(old(self).cfg, ids@),
            targets matches Some(t) ==> batch_ids(old(self).cfg, t@),
        ensures
            final(self).wf(),
            *final(self) == (Gpt { acts: final(self).acts, ..*old(self) }),
            forward_result_is(
                old(self).cfg,
                old(self).params@,
                ids@,
                target_ids(targets),
                None,
                old(self).acts@,
                final(self).acts@,
                loss,
            ),
    {
        forward_into(
            &self.cfg,
            self.params.as_slice(),
            self.acts.as_mut_slice(),
            ids,
            targets,
            None,
        )
    }

    /// Training forward pass: samples fresh dropout masks where dropout is on,
    /// and applies them. `backward` uses the same masks.
    pub fn forward_train(
        &mut self,
        ids: &[u16],
        targets: Option<&[u16]>,
        rng: &mut StdRng,
    ) -> (loss: Option<F>)
        requires
            old(self).wf(),
            old(self).cfg.runs(),
            batch_ids(old(self).cfg, ids@),
            targets matches Some(t) ==> batch_ids(old(self).cfg, t@),
        ensures
            final(self).wf(),
            *final(self) == (Gpt {
                acts: final(self).acts,
                masks: final(self).masks,
                ..*old(self)
            }),
            forward_result_is(
                old(self).cfg,
                old(self).params@,
                ids@,
                target_ids(targets),
                final(self).active_masks(),
                old(self).acts@,
                final(self).acts@,
                loss,
            ),
            if old(self).drops {
                exists|draws: Seq<F>|
                    draws_are(*old(rng), draws, *final(rng)) && #[trigger] masks_are(
                        old(self).dropout,
                        draws,
                        final(self).masks@,
                    )
            } else {
                final(self).masks == old(self).masks && *final(rng) == *old(rng)
            },
    {
        if self.drops {
            self.fill_masks(rng);
            forward_into(
                &self.cfg,
                self.params.as_slice(),
                self.acts.as_mut_slice(),
                ids,
                targets,
                Some(self.masks.as_slice()),
            )
        } else {
            forward_into(
                &self.cfg,
                self.params.as_slice(),
                self.acts.as_mut_slice(),
                ids,
                targets,
                None,
            )
        }
    }

    /// Sample fresh keep factors, with a draw for each.
    pub fn fill_masks(&mut self, rng: &mut StdRng)
        ensures
            *final(self) == (Gpt { masks: final(self).masks, ..*old(self) }),
            final(self).masks@.len() == old(self).masks@.len(),
            exists|draws: Seq<F>|
                draws_are(*old(rng), draws, *final(rng)) && #[trigger] masks_are(
                    old(self).dropout,
                    draws,
                    final(self).masks@,
                ),
    {
        let draws = draw_uniform(self.masks.len(), rng);
        self.fill_masks_from(draws.as_slice());
    }

    /// The keep factors that the given uniform draws make: each is `1 / keep`
    /// where its draw lies below `keep = 1 - dropout`, else zero. So the
    /// expected activation is unchanged.
    pub fn fill_masks_from(&mut self, draws: &[F])
        requires
            draws@.len() == old(self).masks@.len(),
        ensures
            *final(self) == (Gpt { masks: final(self).masks, ..*old(self) }),
            masks_are(old(self).dropout, draws@, final(self).masks@),
    {
        let keep = F::one().minus(self.dropout);
        let scale = F::one().divide(keep);
        assert(keep_scale_is(self.dropout, keep, scale));
        let mut masks: Vec<F> = Vec::with_capacity(draws.len());
        for i in 0..draws.len()
            invariant
                masks@.len() == i,
                forall|j: int|
                    0 <= j < i ==> keep_factor_is(draws@[j], keep, scale, #[trigger] masks@[j]),
        {
            let b = keep.exceeds(draws[i]);
            let k = if b {
                scale
            } else {
                F::zero()
            };
            assert(exceeds_is(keep, draws@[i as int], b));
            assert(keep_factor_is(draws@[i as int], keep, scale, k));
            masks.push(k);
        }
        self.masks = masks;
    }

    /// The loss alone, recomputed in double precision.
    pub fn loss_f64(&self, ids: &[u16], targets: &[u16]) -> (loss: F::Wide)
        requires
            self.wf(),
            self.cfg.runs(),
            batch_ids(self.cfg, ids@),
            batch_ids(self.cfg, targets@),
        ensures
            wide_loss_is(self.cfg, self.params@, ids@, targets@, loss),
    {
        let params = wide_params(self.params.as_slice());
        let mut acts: Vec<F::Wide> = zeros(self.al.total);
        proof {
            lemma_act_layout(self.cfg);
        }
        let loss = forward_into(
            &self.cfg,
            params.as_slice(),
            acts.as_mut_slice(),
            ids,
            Some(targets),
            None,
        );
        let loss = loss.unwrap();
        proof {
            assert(forward_is(self.cfg, params@, ids@, None, acts@));
            assert(batch_loss_is(self.cfg, params@, ids@, targets@, None, loss));
        }
        loss
    }

    /// The gradient of the loss by one parameter, from the last `backward`.
    pub fn grad(&self, i: usize) -> (g: F)
        requires
            i < self.grads@.len(),
        ensures
            g == self.grads@[i as int],
    {
        self.grads[i]
    }

    /// Name, offset and length of every parameter tensor.
    pub fn param_spans(&self) -> (spans: Vec<(&'static str, usize, usize)>)
        ensures
            spans@ == named_spans(self.pl),
    {
        let p = &self.pl;
        vec![
            ("wte", p.wte.off, p.wte.len),
            ("ln1w", p.ln1w.off, p.ln1w.len),
            ("qkvw", p.qkvw.off, p.qkvw.len),
            ("attprojw", p.attprojw.off, p.attprojw.len),
            ("ln2w", p.ln2w.off, p.ln2w.len),
            ("w1", p.w1.off, p.w1.len),
            ("w3", p.w3.off, p.w3.len),
            ("w2", p.w2.off, p.w2.len),
            ("lnfw", p.lnfw.off, p.lnfw.len),
            ("lm_head", p.lm_head.off, p.lm_head.len),
        ]
    }

    /// Backward pass over a prior `forward(ids, Some(targets))`: fills the
    /// gradients from zero.
    pub fn backward(&mut self, ids: &[u16], targets: &[u16])
        requires
            old(self).wf(),
            old(self).cfg.runs(),
            batch_ids(old(self).cfg, ids@),
            targets@.len() == old(self).cfg.tokens(),
        ensures
            final(self).wf(),
            *final(self) == (Gpt {
                grads: final(self).grads,
                gacts: final(self).gacts,
                ..*old(self)
            }),
            backward_is(
                old(self).cfg,
                old(self).params@,
                ids@,
                targets@,
                old(self).active_masks(),
                old(self).acts@,
                final(self).grads@,
                final(self).gacts@,
            ),
    {
        let masks = if self.drops {
            Some(self.masks.as_slice())
        } else {
            None
        };
        backward_into(
            &self.cfg,
            self.params.as_slice(),
            self.acts.as_slice(),
            self.grads.as_mut_slice(),
            self.gacts.as_mut_slice(),
            ids,
            targets,
            masks,
        );
    }

    /// The parameter gradients, recomputed in double precision by a forward and
    /// a backward pass of their own.
    pub fn grads_f64(&self, ids: &[u16], targets: &[u16]) -> (grads: Vec<F::Wide>)
        requires
            self.wf(),
            self.cfg.runs(),
            batch_ids(self.cfg, ids@),
            batch_ids(self.cfg, targets@),
        ensures
            wide_grads_are(self.cfg, self.params@, ids@, targets@, grads@),
    {
        let params = wide_params(self.params.as_slice());
        let mut acts: Vec<F::Wide> = zeros(self.al.total);
        proof {
            lemma_act_layout(self.cfg);
            lemma_param_layout(self.cfg);
        }
        let loss = forward_into(
            &self.cfg,
            params.as_slice(),
            acts.as_mut_slice(),
            ids,
            Some(targets),
            None,
        );
        let mut grads: Vec<F::Wide> = zeros(self.pl.total);
        let mut gacts: Vec<F::Wide> = zeros(self.al.total);
        backward_into(
            &self.cfg,
            params.as_slice(),
            acts.as_slice(),
            grads.as_mut_slice(),
            gacts.as_mut_slice(),
            ids,
            targets,
            None,
        );
        proof {
            assert(scored_is(self.cfg, acts@, targets@, loss->0));
            assert(backward_is(
                self.cfg,
                params@,
                ids@,
                targets@,
                None,
                acts@,
                grads@,
                gacts@,
            ));
        }
        grads
    }

    /// One AdamW step with the gradients of the last `backward`, the weight
    /// decay apart from the gradients.
    pub fn adamw_step(&mut self, lr: F, beta1: F, beta2: F, eps: F, weight_decay: F)
        requires
            old(self).wf(),
            old(self).adam_t < u64::MAX,
        ensures
            final(self).wf(),
            *final(self) == (Gpt {
                params: final(self).params,
                m: final(self).m,
                v: final(self).v,
                adam_t: (old(self).adam_t + 1) as u64,
                ..*old(self)
            }),
            adam_is(
                (AdamW { lr, beta1, beta2, eps, weight_decay }),
                (old(self).adam_t + 1) as u64 as i32,
                old(self).grads@,
                (old(self).params@, old(self).m@, old(self).v@),
                (final(self).params@, final(self).m@, final(self).v@),
            ),
    {
        self.adam_t = self.adam_t + 1;
        let t = #[verifier::truncate] (self.adam_t as i32);
        let h = AdamW { lr, beta1, beta2, eps, weight_decay };
        adam_step(
            &h,
            t,
            self.grads.as_slice(),
            self.params.as_mut_slice(),
            self.m.as_mut_slice(),
            self.v.as_mut_slice(),
        );
    }

    /// The parameters as a checkpoint: little-endian bytes, four for each.
    pub fn save(&self) -> (bytes: Vec<u8>)
        ensures
            checkpoint_is(self.params@, bytes@),
    {
        checkpoint(self.params.as_slice())
    }

    /// Load parameters from a checkpoint that `save` wrote.
    pub fn load_params(&mut self, bytes: &[u8])
        requires
            bytes@.len() == 4 * old(self).params@.len(),
        ensures
            *final(self) == (Gpt { params: final(self).params, ..*old(self) }),
            loaded_is(bytes@, final(self).params@),
    {
        restore(self.params.as_mut_slice(), bytes);
    }
}

/// `loss` is the mean loss of the forward pass with the parameters in double
/// precision, without dropout.
pub open spec fn wide_loss_is<F: Single>(
    c: Config,
    params: Seq<F>,
    ids: Seq<u16>,
    targets: Seq<u16>,
    loss: F::Wide,
) -> bool {
    exists|wide: Seq<F::Wide>|
        wide_params_are(params, wide) && #[trigger] batch_loss_is(
            c,
            wide,
            ids,
            targets,
            None,
            loss,
        )
}

/// `grads` are the gradients of that loss.
pub open spec fn wide_grads_are<F: Single>(
    c: Config,
    params: Seq<F>,
    ids: Seq<u16>,
    targets: Seq<u16>,
    grads: Seq<F::Wide>,
) -> bool {
    exists|
        wide: Seq<F::Wide>,
        acts: Seq<F::Wide>,
        loss: F::Wide,
        gacts: Seq<F::Wide>,
    |
        wide_params_are(params, wide) && forward_is(c, wide, ids, None, acts) && #[trigger]
        scored_is(c, acts, targets, loss) && #[trigger] backward_is(c, wide, ids, targets, None, acts, grads, gacts)
}

/// The parameters in double precision.
fn wide_params<F: Single>(params: &[F]) -> (wide: Vec<F::Wide>)
    ensures
        wide_params_are(params@, wide@),
{
    let mut wide: Vec<F::Wide> = Vec::with_capacity(params.len());
    for i in 0..params.len()
        invariant
            wide@.len() == i,
            forall|j: int| 0 <= j < i ==> widened_is(params@[j], #[trigger] wide@[j]),
    {
        wide.push(params[i].widen());
    }
    wide
}

/// `n` ones.
fn ones<F: Single>(n: usize) -> (v: Vec<F>)
    ensures
        v@.len() == n,
        all_one(v@),
{
    let mut v: Vec<F> = Vec::with_capacity(n);
    for i in 0..n
        invariant
            v@.len() == i,
            all_one(v@),
    {
        v.push(F::one());
    }
    v
}

/// The values in the span.
fn span_of<'a, T>(s: &'a [T], o: &Off) -> (x: &'a [T])
    requires
        o.end() <= s@.len(),
    ensures
        x@ == o.of(s@),
{
    assert(o.off + o.len <= s.len());
    &s[o.off..o.off + o.len]
}

/// A keep factor is zero or `1 / (1 - p)`, whatever was drawn.
pub proof fn lemma_keep_factors<F: Single>(p: F, draws: Seq<F>, masks: Seq<F>)
    requires
        masks_are(p, draws, masks),
    ensures
        exists|keep: F, scale: F| #[trigger]
            keep_scale_is(p, keep, scale) && forall|i: int|
                0 <= i < masks.len() ==> (#[trigger] masks[i] == scale || is_zero(masks[i])),
{
    let (keep, scale) = choose|keep: F, scale: F| #[trigger]
        keep_scale_is(p, keep, scale) && forall|i: int|
            0 <= i < masks.len() ==> keep_factor_is(draws[i], keep, scale, #[trigger] masks[i]);
    assert(keep_scale_is(p, keep, scale));
}

} // verus!
