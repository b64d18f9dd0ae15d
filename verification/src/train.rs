//! Training with validation and early stopping, one step at a time.
//!
//! A step trains on one batch and, where an evaluation is due, judges the
//! validation loss. Saving checkpoints and printing are left to the caller, who
//! is told in the report of the step what to do.

use rand::rngs::StdRng;
use vstd::prelude::*;

use crate::arena::lemma_row_bounds;
use crate::data::{batch_drawn_is, batch_is, starts_fit, DataLoader};
use crate::layout::Config;
use crate::model::backward::backward_is;
use crate::model::forward::{batch_ids, batch_loss_is, forward_is, scored_is};
use crate::model::optim::{adam_is, AdamW};
use crate::model::{masks_are, Gpt};
use crate::ops::loss::ids_below;
use crate::rng::{draws_are, indices_are};
use crate::scalar::{
    exceeds_is, is_neg_infinity, negation_is, quotient_is, ratio_is, total, total_is, Scalar,
    Single,
};

pub mod report;

verus! {

/// How to train.
pub struct TrainConfig<F> {
    pub steps: usize,
    pub lr: F,
    pub weight_decay: F,
    pub eval_every: usize,
    pub eval_batches: usize,
    /// Stop after this many evaluations in a row without an improvement.
    pub patience: usize,
    pub ckpt_path: String,
}

/// The best validation loss so far, and the evaluations since it was seen.
pub struct Progress<F> {
    pub best: F,
    pub since_improved: usize,
}

/// What an evaluation means for the training.
#[derive(Debug, Clone, Copy, PartialEq, Eq, Structural)]
pub enum Verdict {
    /// The loss is the best so far: save the parameters.
    Improved,
    /// The loss is not better: go on.
    Worse,
    /// The loss was not better for too long: stop.
    Stop,
}

/// What a step came to: the training loss, and where an evaluation was due the
/// validation loss and what it means.
pub struct StepReport<F> {
    pub loss: F,
    pub eval: Option<(F, Verdict)>,
}

/// `r` is positive infinity.
pub open spec fn is_infinity<F: Scalar>(r: F) -> bool {
    exists|low: F| #[trigger] is_neg_infinity(low) && negation_is(low, r)
}

/// How one evaluation with loss `vl` takes the progress on: a loss below the
/// best becomes the best; after `patience` others in a row it is time to stop.
pub open spec fn judged_is<F: Scalar>(
    p: Progress<F>,
    vl: F,
    patience: usize,
    q: Progress<F>,
    verdict: Verdict,
) -> bool {
    ||| {
        &&& exceeds_is(p.best, vl, true)
        &&& q.best == vl
        &&& q.since_improved == 0
        &&& verdict == Verdict::Improved
    }
    ||| {
        &&& exceeds_is(p.best, vl, false)
        &&& q.best == p.best
        &&& q.since_improved == p.since_improved + 1
        &&& verdict == if q.since_improved >= patience {
            Verdict::Stop
        } else {
            Verdict::Worse
        }
    }
}

/// An evaluation is due at step `step`.
pub open spec fn eval_due(step: usize, eval_every: usize) -> bool {
    step == 1 || step % eval_every == 0
}

impl<F: Scalar> Progress<F> {
    /// No evaluation yet: every loss is better than infinity.
    pub fn start() -> (p: Self)
        ensures
            is_infinity(p.best),
            p.since_improved == 0,
    {
        let low = F::neg_infinity();
        let best = low.negate();
        assert(is_neg_infinity(low));
        Progress { best, since_improved: 0 }
    }

    /// Judge the validation loss `vl`.
    pub fn judge(&mut self, vl: F, patience: usize) -> (verdict: Verdict)
        requires
            old(self).since_improved < usize::MAX,
        ensures
            judged_is(*old(self), vl, patience, *final(self), verdict),
    {
        if self.best.exceeds(vl) {
            self.best = vl;
            self.since_improved = 0;
            Verdict::Improved
        } else {
            self.since_improved = self.since_improved + 1;
            if self.since_improved >= patience {
                Verdict::Stop
            } else {
                Verdict::Worse
            }
        }
    }
}

/// The progress `trace[0], trace[1], ..` by evaluations with the losses `vls`,
/// of which each has a verdict.
pub open spec fn trace_is<F: Scalar>(
    trace: Seq<Progress<F>>,
    vls: Seq<F>,
    patience: usize,
    verdicts: Seq<Verdict>,
) -> bool {
    &&& trace.len() == vls.len() + 1
    &&& verdicts.len() == vls.len()
    &&& trace[0].since_improved == 0
    &&& forall|k: int|
        0 <= k < vls.len() ==> judged_is(
            trace[k],
            vls[k],
            patience,
            trace[k + 1],
            #[trigger] verdicts[k],
        )
}

/// Early stopping comes after `patience` evaluations in a row without an
/// improvement, and no sooner: a `Stop` has no `Improved` among the last
/// `patience` verdicts, and a `Worse` has fewer than `patience` evaluations
/// since the start or the last `Improved`.
pub proof fn lemma_stop_after_patience<F: Scalar>(
    trace: Seq<Progress<F>>,
    vls: Seq<F>,
    patience: usize,
    verdicts: Seq<Verdict>,
    k: int,
)
    requires
        trace_is(trace, vls, patience, verdicts),
        0 <= k < vls.len(),
        0 < patience,
    ensures
        trace[k + 1].since_improved <= k + 1,
        forall|j: int|
            k - trace[k + 1].since_improved < j <= k ==> #[trigger] verdicts[j]
                != Verdict::Improved,
        trace[k + 1].since_improved <= k ==> verdicts[k - trace[k + 1].since_improved]
            == Verdict::Improved,
        verdicts[k] == Verdict::Stop <==> trace[k + 1].since_improved >= patience,
    decreases k,
{
    assert(judged_is(trace[k], vls[k], patience, trace[k + 1], verdicts[k]));
    if k > 0 {
        lemma_stop_after_patience(trace, vls, patience, verdicts, k - 1);
    }
}

/// The best loss is the one that was last judged an improvement, and the one of
/// the start before any was.
pub proof fn lemma_best_is_last_improved<F: Scalar>(
    trace: Seq<Progress<F>>,
    vls: Seq<F>,
    patience: usize,
    verdicts: Seq<Verdict>,
    k: int,
)
    requires
        trace_is(trace, vls, patience, verdicts),
        0 <= k < vls.len(),
    ensures
        if trace[k + 1].since_improved <= k {
            trace[k + 1].best == vls[k - trace[k + 1].since_improved]
        } else {
            trace[k + 1].best == trace[0].best
        },
    decreases k,
{
    assert(judged_is(trace[k], vls[k], patience, trace[k + 1], verdicts[k]));
    if k > 0 {
        lemma_best_is_last_improved(trace, vls, patience, verdicts, k - 1);
    }
}

/// Being larger is a strict order with one answer. So it is of floating-point
/// numbers, those that are not numbers among them.
pub open spec fn strict_order<F: Scalar>() -> bool {
    &&& forall|a: F, b: F, r: bool, s: bool| #[trigger]
        exceeds_is(a, b, r) && #[trigger] exceeds_is(a, b, s) ==> r == s
    &&& forall|a: F| !#[trigger] exceeds_is(a, a, true)
    &&& forall|a: F, b: F, c: F| #[trigger]
        exceeds_is(a, b, true) && #[trigger] exceeds_is(b, c, true) ==> exceeds_is(a, c, true)
}

/// The best loss is the least: it exceeds no loss that was judged.
pub proof fn lemma_best_is_least<F: Scalar>(
    trace: Seq<Progress<F>>,
    vls: Seq<F>,
    patience: usize,
    verdicts: Seq<Verdict>,
    k: int,
    j: int,
)
    requires
        strict_order::<F>(),
        trace_is(trace, vls, patience, verdicts),
        0 <= j <= k < vls.len(),
    ensures
        !exceeds_is(trace[k + 1].best, vls[j], true),
    decreases k,
{
    assert(judged_is(trace[k], vls[k], patience, trace[k + 1], verdicts[k]));
    if j < k {
        lemma_best_is_least(trace, vls, patience, verdicts, k - 1, j);
    }
}

/// The loader serves batches for this model: with as many tokens, and of its
/// vocabulary.
pub open spec fn serves(loader: DataLoader, c: Config) -> bool {
    &&& loader.batch_size * loader.block_size == c.tokens()
    &&& loader.block_size + 1 <= loader.data@.len()
    &&& ids_below(loader.data@, c.vocab_size as int)
}

/// The ids of a batch are of the vocabulary.
pub(crate) proof fn lemma_batch_ids(
    loader: DataLoader,
    c: Config,
    before: StdRng,
    x: Seq<u16>,
    y: Seq<u16>,
    after: StdRng,
)
    requires
        serves(loader, c),
        batch_drawn_is(loader, before, x, y, after),
    ensures
        batch_ids(c, x),
        batch_ids(c, y),
{
    let t = loader.block_size as int;
    assert(t == 0 ==> loader.batch_size * t == 0);
    let starts = choose|starts: Seq<usize>|
        starts.len() == loader.batch_size && starts_fit(
            loader.data@,
            starts,
            loader.block_size as int,
        ) && indices_are(before, loader.max_start(), starts, after) && #[trigger] batch_is(
            loader.data@,
            starts,
            loader.block_size as int,
            x,
            y,
        );
    assert forall|p: int| 0 <= p < x.len() implies #[trigger] x[p] < c.vocab_size by {
        crate::arena::lemma_unslot(p, starts.len() as int, t);
        let r = p / t;
        let j = p % t;
        lemma_row_bounds(r, starts.len() as int, t);
        assert(starts[r] + t + 1 <= loader.data@.len());
        assert(crate::arena::row(x, r, t)[j] == x[p]);
        assert(x[p] == loader.data@[starts[r] + j]);
    }
    assert forall|p: int| 0 <= p < y.len() implies #[trigger] y[p] < c.vocab_size by {
        crate::arena::lemma_unslot(p, starts.len() as int, t);
        let r = p / t;
        let j = p % t;
        lemma_row_bounds(r, starts.len() as int, t);
        assert(starts[r] + t + 1 <= loader.data@.len());
        assert(crate::arena::row(y, r, t)[j] == y[p]);
        assert(y[p] == loader.data@[starts[r] + 1 + j]);
    }
}

/// Each loss is the mean loss of its batch.
pub open spec fn batch_losses_are<F: Single>(
    c: Config,
    params: Seq<F>,
    batches: Seq<(Vec<u16>, Vec<u16>)>,
    losses: Seq<F>,
) -> bool {
    &&& losses.len() == batches.len()
    &&& forall|k: int|
        0 <= k < losses.len() ==> batch_loss_is(
            c,
            params,
            batches[k].0@,
            batches[k].1@,
            None,
            #[trigger] losses[k],
        )
}

/// `r` is the mean of the mean losses of the batches.
pub open spec fn evaluation_is<F: Single>(
    c: Config,
    params: Seq<F>,
    batches: Seq<(Vec<u16>, Vec<u16>)>,
    r: F,
) -> bool {
    exists|losses: Seq<F>, sum: F, count: F| #[trigger]
        batch_losses_are(c, params, batches, losses) && #[trigger] total_is(losses, sum)
            && #[trigger] ratio_is(batches.len() as usize, 1, count) && quotient_is(sum, count, r)
}

/// The mean forward loss over the batches.
pub fn evaluate_on<F: Single>(model: &mut Gpt<F>, batches: &Vec<(Vec<u16>, Vec<u16>)>) -> (r: F)
    requires
        old(model).wf(),
        old(model).cfg.runs(),
        forall|k: int|
            0 <= k < batches@.len() ==> batch_ids(old(model).cfg, (#[trigger] batches@[k]).0@)
                && batch_ids(old(model).cfg, batches@[k].1@),
    ensures
        final(model).wf(),
        *final(model) == (Gpt { acts: final(model).acts, ..*old(model) }),
        evaluation_is(old(model).cfg, old(model).params@, batches@, r),
{
    let ghost start = *model;
    let mut losses: Vec<F> = Vec::with_capacity(batches.len());
    for k in 0..batches.len()
        invariant
            model.wf(),
            start.cfg.runs(),
            *model == (Gpt { acts: model.acts, ..start }),
            forall|q: int|
                0 <= q < batches@.len() ==> batch_ids(start.cfg, (#[trigger] batches@[q]).0@)
                    && batch_ids(start.cfg, batches@[q].1@),
            losses@.len() == k,
            forall|q: int|
                0 <= q < k ==> batch_loss_is(
                    start.cfg,
                    start.params@,
                    batches@[q].0@,
                    batches@[q].1@,
                    None,
                    #[trigger] losses@[q],
                ),
    {
        let b = &batches[k];
        let loss = model.forward(b.0.as_slice(), Some(b.1.as_slice())).unwrap();
        assert(forward_is(start.cfg, start.params@, b.0@, None, model.acts@));
        losses.push(loss);
    }
    let sum = total(losses.as_slice());
    let count = F::from_ratio(batches.len(), 1);
    assert(batch_losses_are(start.cfg, start.params@, batches@, losses@));
    sum.divide(count)
}

/// Drawing the batches, one after the other, takes the generator from `before`
/// to `after`.
pub open spec fn batches_drawn_are(
    loader: DataLoader,
    before: StdRng,
    batches: Seq<(Vec<u16>, Vec<u16>)>,
    after: StdRng,
) -> bool
    decreases batches.len(),
{
    if batches.len() == 0 {
        after == before
    } else {
        exists|mid: StdRng|
            batches_drawn_are(loader, before, batches.drop_last(), mid) && #[trigger]
            batch_drawn_is(loader, mid, batches.last().0@, batches.last().1@, after)
    }
}

/// `n` batches of the loader, one after the other.
fn draw_batches(n: usize, loader: &DataLoader, rng: &mut StdRng, Ghost(c): Ghost<Config>) -> (
    batches: Vec<(Vec<u16>, Vec<u16>)>)
    requires
        serves(*loader, c),
    ensures
        batches@.len() == n,
        batches_drawn_are(*loader, *old(rng), batches@, *final(rng)),
        forall|k: int|
            0 <= k < n ==> batch_ids(c, (#[trigger] batches@[k]).0@) && batch_ids(
                c,
                batches@[k].1@,
            ),
{
    let mut batches: Vec<(Vec<u16>, Vec<u16>)> = Vec::with_capacity(n);
    for i in 0..n
        invariant
            serves(*loader, c),
            batches@.len() == i,
            batches_drawn_are(*loader, *old(rng), batches@, *rng),
            forall|k: int|
                0 <= k < i ==> batch_ids(c, (#[trigger] batches@[k]).0@) && batch_ids(
                    c,
                    batches@[k].1@,
                ),
    {
        let ghost drawn = batches@;
        let ghost mid = *rng;
        let b = loader.next_batch(rng);
        proof {
            assert(batch_drawn_is(*loader, mid, b.0@, b.1@, *rng));
            lemma_batch_ids(*loader, c, mid, b.0@, b.1@, *rng);
        }
        let ghost x = b.0@;
        let ghost y = b.1@;
        batches.push(b);
        proof {
            assert(batches@.drop_last() =~= drawn);
            assert(batches@.last().0@ == x && batches@.last().1@ == y);
        }
    }
    batches
}

/// The mean forward loss over `batches` random validation batches.
pub fn evaluate<F: Single>(
    model: &mut Gpt<F>,
    val: &DataLoader,
    rng: &mut StdRng,
    batches: usize,
) -> (r: F)
    requires
        old(model).wf(),
        old(model).cfg.runs(),
        serves(*val, old(model).cfg),
    ensures
        final(model).wf(),
        *final(model) == (Gpt { acts: final(model).acts, ..*old(model) }),
        evaluated_is(
            old(model).cfg,
            old(model).params@,
            *val,
            batches,
            *old(rng),
            r,
            *final(rng),
        ),
{
    let drawn = draw_batches(batches, val, rng, Ghost(model.cfg));
    let r = evaluate_on(model, &drawn);
    assert(batches_drawn_are(*val, *old(rng), drawn@, *rng));
    r
}

/// Drawing `n` batches of the loader gives `r` as the mean of their mean losses
/// and takes the generator from `before` to `after`.
pub open spec fn evaluated_is<F: Single>(
    c: Config,
    params: Seq<F>,
    val: DataLoader,
    n: usize,
    before: StdRng,
    r: F,
    after: StdRng,
) -> bool {
    exists|batches: Seq<(Vec<u16>, Vec<u16>)>|
        batches.len() == n && #[trigger] batches_drawn_are(val, before, batches, after)
            && evaluation_is(c, params, batches, r)
}

/// The optimizer of the training: AdamW with the decays 0.9 and 0.999 and the
/// guard 1e-8.
pub open spec fn optimizer_is<F: Scalar>(lr: F, weight_decay: F, h: AdamW<F>) -> bool {
    &&& h.lr == lr
    &&& h.weight_decay == weight_decay
    &&& ratio_is(9, 10, h.beta1)
    &&& ratio_is(999, 1000, h.beta2)
    &&& ratio_is(1, 100_000_000, h.eps)
}

/// One update on the batch `(x, y)`: a training forward pass, a backward pass
/// with the same keep factors, and an optimizer step. The draws for the keep
/// factors take the generator from `before` to `after`.
pub open spec fn update_is<F: Single>(
    before: StdRng,
    old_m: Gpt<F>,
    x: Seq<u16>,
    y: Seq<u16>,
    lr: F,
    weight_decay: F,
    acts: Seq<F>,
    new_m: Gpt<F>,
    loss: F,
    after: StdRng,
) -> bool {
    &&& if old_m.drops {
        exists|draws: Seq<F>|
            draws_are(before, draws, after) && #[trigger] masks_are(
                old_m.dropout,
                draws,
                new_m.masks@,
            )
    } else {
        new_m.masks == old_m.masks && after == before
    }
    &&& forward_is(old_m.cfg, old_m.params@, x, new_m.active_masks(), acts)
    &&& scored_is(old_m.cfg, acts, y, loss)
    &&& backward_is(
        old_m.cfg,
        old_m.params@,
        x,
        y,
        new_m.active_masks(),
        acts,
        new_m.grads@,
        new_m.gacts@,
    )
    &&& exists|h: AdamW<F>| #[trigger]
        optimizer_is(lr, weight_decay, h) && adam_is(
            h,
            (old_m.adam_t + 1) as u64 as i32,
            new_m.grads@,
            (old_m.params@, old_m.m@, old_m.v@),
            (new_m.params@, new_m.m@, new_m.v@),
        )
    &&& new_m == (Gpt {
        params: new_m.params,
        acts: new_m.acts,
        grads: new_m.grads,
        gacts: new_m.gacts,
        m: new_m.m,
        v: new_m.v,
        adam_t: (old_m.adam_t + 1) as u64,
        masks: new_m.masks,
        ..old_m
    })
}

/// One update on the batch `(x, y)`, with fresh keep factors where dropout is
/// on. Gives back the loss before it.
pub fn update_on<F: Single>(
    model: &mut Gpt<F>,
    x: &[u16],
    y: &[u16],
    lr: F,
    weight_decay: F,
    rng: &mut StdRng,
) -> (loss: F)
    requires
        old(model).wf(),
        old(model).cfg.runs(),
        old(model).adam_t < u64::MAX,
        batch_ids(old(model).cfg, x@),
        batch_ids(old(model).cfg, y@),
    ensures
        final(model).wf(),
        update_is(
            *old(rng),
            *old(model),
            x@,
            y@,
            lr,
            weight_decay,
            final(model).acts@,
            *final(model),
            loss,
            *final(rng),
        ),
{
    let loss = model.forward_train(x, Some(y), rng).unwrap();
    model.backward(x, y);
    let beta1 = F::from_ratio(9, 10);
    let beta2 = F::from_ratio(999, 1000);
    let eps = F::from_ratio(1, 100_000_000);
    model.adamw_step(lr, beta1, beta2, eps, weight_decay);
    proof {
        assert(optimizer_is(lr, weight_decay, (AdamW { lr, beta1, beta2, eps, weight_decay })));
    }
    loss
}

/// What a training step does: an update on a batch of the training stream, and
/// where an evaluation is due, its judgement. The generator goes from `before`
/// to `after` by the draws of the batch, of the keep factors and of the
/// evaluation, in this order.
pub open spec fn trained_is<F: Single>(
    before: StdRng,
    old_m: Gpt<F>,
    old_p: Progress<F>,
    train: DataLoader,
    val: DataLoader,
    step: usize,
    cfg: TrainConfig<F>,
    new_m: Gpt<F>,
    new_p: Progress<F>,
    report: StepReport<F>,
    after: StdRng,
) -> bool {
    exists|mid: Gpt<F>, updated: StdRng| #[trigger]
        trained_via(
            before,
            old_m,
            old_p,
            train,
            val,
            step,
            cfg,
            mid,
            updated,
            new_m,
            new_p,
            report,
            after,
        )
}

/// An update on a batch of the stream, which takes the generator from `before`
/// to `updated`.
pub open spec fn updated_via<F: Single>(
    before: StdRng,
    old_m: Gpt<F>,
    train: DataLoader,
    cfg: TrainConfig<F>,
    mid: Gpt<F>,
    loss: F,
    updated: StdRng,
) -> bool {
    exists|x: Seq<u16>, y: Seq<u16>, fed: StdRng| #[trigger]
        batch_drawn_is(train, before, x, y, fed) && #[trigger] update_is(
            fed,
            old_m,
            x,
            y,
            cfg.lr,
            cfg.weight_decay,
            mid.acts@,
            mid,
            loss,
            updated,
        )
}

/// The same by way of the updated model `mid` and the state `updated` that the
/// update leaves the generator in.
pub open spec fn trained_via<F: Single>(
    before: StdRng,
    old_m: Gpt<F>,
    old_p: Progress<F>,
    train: DataLoader,
    val: DataLoader,
    step: usize,
    cfg: TrainConfig<F>,
    mid: Gpt<F>,
    updated: StdRng,
    new_m: Gpt<F>,
    new_p: Progress<F>,
    report: StepReport<F>,
    after: StdRng,
) -> bool {
    &&& updated_via(before, old_m, train, cfg, mid, report.loss, updated)
    &&& new_m == (Gpt { acts: new_m.acts, ..mid })
    &&& if eval_due(step, cfg.eval_every) {
        match report.eval {
            Some(e) => evaluated_is(
                mid.cfg,
                mid.params@,
                val,
                cfg.eval_batches,
                updated,
                e.0,
                after,
            ) && judged_is(old_p, e.0, cfg.patience, new_p, e.1),
            None => false,
        }
    } else {
        report.eval is None && new_p == old_p && new_m == mid && after == updated
    }
}

/// Step `step` of the training, counted from one.
pub fn train_step<F: Single>(
    model: &mut Gpt<F>,
    progress: &mut Progress<F>,
    train: &DataLoader,
    val: &DataLoader,
    rng: &mut StdRng,
    step: usize,
    cfg: &TrainConfig<F>,
) -> (report: StepReport<F>)
    requires
        old(model).wf(),
        old(model).cfg.runs(),
        old(model).adam_t < u64::MAX,
        serves(*train, old(model).cfg),
        serves(*val, old(model).cfg),
        step == 1 || 0 < cfg.eval_every,
        old(progress).since_improved < usize::MAX,
    ensures
        final(model).wf(),
        final(model).cfg == old(model).cfg,
        final(model).adam_t == old(model).adam_t + 1,
        trained_is(
            *old(rng),
            *old(model),
            *old(progress),
            *train,
            *val,
            step,
            *cfg,
            *final(model),
            *final(progress),
            report,
            *final(rng),
        ),
{
    let (x, y) = train.next_batch(rng);
    let ghost fed = *rng;
    proof {
        lemma_batch_ids(*train, model.cfg, *old(rng), x@, y@, fed);
    }
    let loss = update_on(model, x.as_slice(), y.as_slice(), cfg.lr, cfg.weight_decay, rng);
    let ghost mid = *model;
    let ghost updated = *rng;
    let eval = if step == 1 || step % cfg.eval_every == 0 {
        let vl = evaluate(model, val, rng, cfg.eval_batches);
        let verdict = progress.judge(vl, cfg.patience);
        Some((vl, verdict))
    } else {
        None
    };
    let report = StepReport { loss, eval };
    assert(update_is(
        fed,
        *old(model),
        x@,
        y@,
        cfg.lr,
        cfg.weight_decay,
        mid.acts@,
        mid,
        report.loss,
        updated,
    ));
    assert(updated_via(*old(rng), *old(model), *train, *cfg, mid, report.loss, updated));
    assert(trained_via(
        *old(rng),
        *old(model),
        *old(progress),
        *train,
        *val,
        step,
        *cfg,
        mid,
        updated,
        *model,
        *progress,
        report,
        *rng,
    ));
    report
}

/// The training goes on after `done` steps, of which the last one came to the
/// verdict `last` where it evaluated.
pub open spec fn continues(done: usize, steps: usize, last: Option<Verdict>) -> bool {
    done < steps && last != Some(Verdict::Stop)
}

/// Whether the training goes on after `done` of `steps` steps: it does until all
/// are done, unless the last one came to a stop.
pub fn goes_on(done: usize, steps: usize, last: Option<Verdict>) -> (b: bool)
    ensures
        b == continues(done, steps, last),
{
    if done >= steps {
        return false;
    }
    match last {
        Some(Verdict::Stop) => false,
        _ => true,
    }
}

/// The verdict of a step, where it evaluated.
pub open spec fn verdict_of<F>(report: StepReport<F>) -> Option<Verdict> {
    match report.eval {
        Some(e) => Some(e.1),
        None => None,
    }
}

/// The verdict of the last of the first `k` steps.
pub open spec fn last_verdict<F>(reports: Seq<StepReport<F>>, k: int) -> Option<Verdict> {
    if k == 0 {
        None
    } else {
        verdict_of(reports[k - 1])
    }
}

/// A whole training run: from the start it takes step after step as long as it
/// goes on. `states` holds the model, the progress and the generator before each
/// step and at the end.
pub open spec fn run_is<F: Single>(
    train: DataLoader,
    val: DataLoader,
    cfg: TrainConfig<F>,
    states: Seq<(Gpt<F>, Progress<F>, StdRng)>,
    reports: Seq<StepReport<F>>,
) -> bool {
    &&& states.len() == reports.len() + 1
    &&& reports.len() <= cfg.steps
    &&& is_infinity(states[0].1.best)
    &&& states[0].1.since_improved == 0
    &&& forall|k: int|
        0 <= k < reports.len() ==> continues(k as usize, cfg.steps, last_verdict(reports, k))
            && trained_is(
            states[k].2,
            states[k].0,
            states[k].1,
            train,
            val,
            (k + 1) as usize,
            cfg,
            states[k + 1].0,
            states[k + 1].1,
            #[trigger] reports[k],
            states[k + 1].2,
        )
    &&& !continues(
        reports.len() as usize,
        cfg.steps,
        last_verdict(reports, reports.len() as int),
    )
}

/// A run takes exactly `steps` steps, unless patience ends it sooner: the last
/// step is then the only one that came to a stop.
pub proof fn lemma_run_length<F: Single>(
    train: DataLoader,
    val: DataLoader,
    cfg: TrainConfig<F>,
    states: Seq<(Gpt<F>, Progress<F>, StdRng)>,
    reports: Seq<StepReport<F>>,
)
    requires
        run_is(train, val, cfg, states, reports),
    ensures
        reports.len() <= cfg.steps,
        reports.len() < cfg.steps ==> 0 < reports.len() && verdict_of(reports.last()) == Some(
            Verdict::Stop,
        ),
        forall|k: int|
            0 <= k < reports.len() - 1 ==> verdict_of(#[trigger] reports[k]) != Some(Verdict::Stop),
{
    assert forall|k: int| 0 <= k < reports.len() - 1 implies verdict_of(#[trigger] reports[k])
        != Some(Verdict::Stop) by {
        let next = reports[k + 1];
        assert(continues((k + 1) as usize, cfg.steps, last_verdict(reports, k + 1)));
    }
}

/// A run evaluates after its first step and after each step that `eval_every`
/// divides, and after no other.
pub proof fn lemma_run_evaluates<F: Single>(
    train: DataLoader,
    val: DataLoader,
    cfg: TrainConfig<F>,
    states: Seq<(Gpt<F>, Progress<F>, StdRng)>,
    reports: Seq<StepReport<F>>,
    k: int,
)
    requires
        run_is(train, val, cfg, states, reports),
        0 <= k < reports.len(),
    ensures
        reports[k].eval is Some <==> eval_due((k + 1) as usize, cfg.eval_every),
{
    let report = reports[k];
}

/// A run of no steps leaves the model, the progress and the generator as they
/// were; its best loss is infinity.
pub proof fn lemma_empty_run<F: Single>(
    train: DataLoader,
    val: DataLoader,
    cfg: TrainConfig<F>,
    states: Seq<(Gpt<F>, Progress<F>, StdRng)>,
    reports: Seq<StepReport<F>>,
)
    requires
        run_is(train, val, cfg, states, reports),
        cfg.steps == 0,
    ensures
        reports.len() == 0,
        states.last() == states[0],
        is_infinity(states.last().1.best),
{
}

} // verus!
