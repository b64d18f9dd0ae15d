//! What the losses of a training step are losses of: the one of the update
//! belongs to a window of the training stream, the one of the evaluation to
//! windows of the validation stream alone.

use rand::rngs::StdRng;
use vstd::prelude::*;

use crate::data::{batch_drawn_is, lemma_batch_unique, lemma_batch_windows, windows_of, DataLoader};
use crate::exact::exact;
use crate::exact::optim::{lemma_adam_moves, param_moved, sound_settings};
use crate::exact::power::{exact_integer_powers, exact_roots};
use crate::model::{masks_are, Config, Gpt};
use crate::model::backward::backward_is;
use crate::model::causal::lemma_forward_deterministic;
use crate::model::forward::{batch_ids, batch_loss_is, forward_is, scored_is};
use crate::model::optim::{adam_is, AdamW};
use crate::model::unique::{lemma_total_unique, single_valued};
use crate::rng::{draws_are, indices_single_valued};
use crate::scalar::{exceeds_is, quotient_is, ratio_is, total_is, Scalar, Single};
use crate::sums::{lemma_total_value, times, total_of};
use crate::train::{
    batch_losses_are, batches_drawn_are, eval_due, evaluated_is, evaluation_is, is_infinity,
    judged_is, lemma_batch_ids, optimizer_is, serves, trained_is, trained_via, update_is, Progress,
    StepReport, TrainConfig, Verdict,
};

verus! {

/// Every batch that is drawn is made of windows of the loader's stream.
proof fn lemma_batches_windows(
    loader: DataLoader,
    before: StdRng,
    batches: Seq<(Vec<u16>, Vec<u16>)>,
    after: StdRng,
    k: int,
)
    requires
        batches_drawn_are(loader, before, batches, after),
        0 <= k < batches.len(),
    ensures
        windows_of(
            loader.data@,
            loader.batch_size as int,
            loader.block_size as int,
            batches[k].0@,
            batches[k].1@,
        ),
    decreases batches.len(),
{
    let mid = choose|mid: StdRng|
        batches_drawn_are(loader, before, batches.drop_last(), mid) && #[trigger] batch_drawn_is(
            loader,
            mid,
            batches.last().0@,
            batches.last().1@,
            after,
        );
    if k == batches.len() - 1 {
        lemma_batch_windows(loader, mid, batches.last().0@, batches.last().1@, after);
    } else {
        lemma_batches_windows(loader, before, batches.drop_last(), mid, k);
        assert(batches.drop_last()[k] == batches[k]);
    }
}

/// The loss that a due step reports is a validation loss: the mean over
/// `eval_batches` batches, every one of which is made of windows of the
/// validation stream, with the parameters behind the update. It is the loss that
/// the progress is judged by.
pub proof fn lemma_reported_loss<F: Single>(
    before: StdRng,
    old_m: Gpt<F>,
    old_p: Progress<F>,
    train: DataLoader,
    val: DataLoader,
    step: usize,
    cfg: TrainConfig<F>,
    new_m: Gpt<F>,
    new_p: Progress<F>,
    report: StepReport<F>,
    after: StdRng,
)
    requires
        eval_due(step, cfg.eval_every),
        trained_is(
            before,
            old_m,
            old_p,
            train,
            val,
            step,
            cfg,
            new_m,
            new_p,
            report,
            after,
        ),
    ensures
        report.eval is Some,
        report.eval->Some_0.1 == Verdict::Improved ==> new_p.best == report.eval->Some_0.0,
        exists|batches: Seq<(Vec<u16>, Vec<u16>)>| #[trigger]
            evaluation_is(new_m.cfg, new_m.params@, batches, report.eval->Some_0.0)
                && batches.len() == cfg.eval_batches && forall|k: int|
                0 <= k < batches.len() ==> windows_of(
                    val.data@,
                    val.batch_size as int,
                    val.block_size as int,
                    (#[trigger] batches[k]).0@,
                    batches[k].1@,
                ),
{
    let (mid, updated) = choose|mid: Gpt<F>, updated: StdRng| #[trigger]
        trained_via(
            before,
            old_m,
            old_p,
            train,
            val,
            step,
            cfg,
            mid,
            updated,
            new_m,
            new_p,
            report,
            after,
        );
    let n = cfg.eval_batches;
    let e = report.eval->Some_0;
    let batches = choose|batches: Seq<(Vec<u16>, Vec<u16>)>|
        batches.len() == n && #[trigger] batches_drawn_are(val, updated, batches, after)
            && evaluation_is(mid.cfg, mid.params@, batches, e.0);
    assert forall|k: int| 0 <= k < batches.len() implies windows_of(
        val.data@,
        val.batch_size as int,
        val.block_size as int,
        (#[trigger] batches[k]).0@,
        batches[k].1@,
    ) by {
        lemma_batches_windows(val, updated, batches, after, k);
    }
    assert(evaluation_is(new_m.cfg, new_m.params@, batches, report.eval->Some_0.0));
}

/// The loss of the update is a training loss: that of a batch of windows of the
/// training stream, with the parameters before the update.
pub proof fn lemma_training_loss<F: Single>(
    before: StdRng,
    old_m: Gpt<F>,
    old_p: Progress<F>,
    train: DataLoader,
    val: DataLoader,
    step: usize,
    cfg: TrainConfig<F>,
    new_m: Gpt<F>,
    new_p: Progress<F>,
    report: StepReport<F>,
    after: StdRng,
)
    requires
        trained_is(
            before,
            old_m,
            old_p,
            train,
            val,
            step,
            cfg,
            new_m,
            new_p,
            report,
            after,
        ),
    ensures
        exists|x: Seq<u16>, y: Seq<u16>| #[trigger]
            batch_loss_is(old_m.cfg, old_m.params@, x, y, new_m.active_masks(), report.loss)
                && windows_of(
                train.data@,
                train.batch_size as int,
                train.block_size as int,
                x,
                y,
            ),
{
    let (mid, updated) = choose|mid: Gpt<F>, updated: StdRng| #[trigger]
        trained_via(
            before,
            old_m,
            old_p,
            train,
            val,
            step,
            cfg,
            mid,
            updated,
            new_m,
            new_p,
            report,
            after,
        );
    let (x, y, fed) = choose|x: Seq<u16>, y: Seq<u16>, fed: StdRng| #[trigger]
        batch_drawn_is(train, before, x, y, fed) && #[trigger] update_is(
            fed,
            old_m,
            x,
            y,
            cfg.lr,
            cfg.weight_decay,
            mid.acts@,
            mid,
            report.loss,
            updated,
        );
    lemma_batch_windows(train, before, x, y, fed);
    assert(forward_is(old_m.cfg, old_m.params@, x, mid.active_masks(), mid.acts@));
    assert(scored_is(old_m.cfg, mid.acts@, y, report.loss));
    assert(batch_loss_is(old_m.cfg, old_m.params@, x, y, new_m.active_masks(), report.loss));
}

/// Drawing batches from one state of the generator gives the same ids.
proof fn lemma_batches_unique(
    loader: DataLoader,
    before: StdRng,
    p: Seq<(Vec<u16>, Vec<u16>)>,
    a: StdRng,
    q: Seq<(Vec<u16>, Vec<u16>)>,
    b: StdRng,
)
    requires
        indices_single_valued(),
        p.len() == q.len(),
        batches_drawn_are(loader, before, p, a),
        batches_drawn_are(loader, before, q, b),
    ensures
        a == b,
        forall|k: int|
            0 <= k < p.len() ==> (#[trigger] p[k]).0@ == q[k].0@ && p[k].1@ == q[k].1@,
    decreases p.len(),
{
    if p.len() > 0 {
        let m = choose|mid: StdRng|
            batches_drawn_are(loader, before, p.drop_last(), mid) && #[trigger] batch_drawn_is(
                loader,
                mid,
                p.last().0@,
                p.last().1@,
                a,
            );
        let n = choose|mid: StdRng|
            batches_drawn_are(loader, before, q.drop_last(), mid) && #[trigger] batch_drawn_is(
                loader,
                mid,
                q.last().0@,
                q.last().1@,
                b,
            );
        lemma_batches_unique(loader, before, p.drop_last(), m, q.drop_last(), n);
        lemma_batch_unique(
            loader,
            m,
            p.last().0@,
            p.last().1@,
            a,
            q.last().0@,
            q.last().1@,
            b,
        );
        assert forall|k: int| 0 <= k < p.len() implies (#[trigger] p[k]).0@ == q[k].0@ && p[k].1@
            == q[k].1@ by {
            if k < p.len() - 1 {
                assert(p.drop_last()[k] == p[k] && q.drop_last()[k] == q[k]);
            }
        }
    }
}

/// The ids of the batches are of the vocabulary.
proof fn lemma_batches_ids(
    loader: DataLoader,
    c: Config,
    before: StdRng,
    batches: Seq<(Vec<u16>, Vec<u16>)>,
    after: StdRng,
    k: int,
)
    requires
        serves(loader, c),
        batches_drawn_are(loader, before, batches, after),
        0 <= k < batches.len(),
    ensures
        batch_ids(c, batches[k].0@),
        batch_ids(c, batches[k].1@),
    decreases batches.len(),
{
    let mid = choose|mid: StdRng|
        batches_drawn_are(loader, before, batches.drop_last(), mid) && #[trigger] batch_drawn_is(
            loader,
            mid,
            batches.last().0@,
            batches.last().1@,
            after,
        );
    if k == batches.len() - 1 {
        lemma_batch_ids(loader, c, mid, batches.last().0@, batches.last().1@, after);
    } else {
        lemma_batches_ids(loader, c, before, batches.drop_last(), mid, k);
        assert(batches.drop_last()[k] == batches[k]);
    }
}

/// An evaluation is a function of the parameters, the stream, the number of
/// batches and the state of the generator.
pub proof fn lemma_evaluation_unique<F: Single>(
    c: Config,
    params: Seq<F>,
    val: DataLoader,
    n: usize,
    before: StdRng,
    r: F,
    a: StdRng,
    s: F,
    b: StdRng,
)
    requires
        single_valued::<F>(),
        indices_single_valued(),
        c.runs(),
        serves(val, c),
        evaluated_is(c, params, val, n, before, r, a),
        evaluated_is(c, params, val, n, before, s, b),
    ensures
        r == s,
        a == b,
{
    let p = choose|p: Seq<(Vec<u16>, Vec<u16>)>|
        p.len() == n && #[trigger] batches_drawn_are(val, before, p, a) && evaluation_is(
            c,
            params,
            p,
            r,
        );
    let q = choose|q: Seq<(Vec<u16>, Vec<u16>)>|
        q.len() == n && #[trigger] batches_drawn_are(val, before, q, b) && evaluation_is(
            c,
            params,
            q,
            s,
        );
    lemma_batches_unique(val, before, p, a, q, b);
    let (l1, s1, c1) = choose|losses: Seq<F>, sum: F, count: F| #[trigger]
        batch_losses_are(c, params, p, losses) && #[trigger] total_is(losses, sum)
            && #[trigger] ratio_is(p.len() as usize, 1, count) && quotient_is(sum, count, r);
    let (l2, s2, c2) = choose|losses: Seq<F>, sum: F, count: F| #[trigger]
        batch_losses_are(c, params, q, losses) && #[trigger] total_is(losses, sum)
            && #[trigger] ratio_is(q.len() as usize, 1, count) && quotient_is(sum, count, s);
    assert forall|k: int| 0 <= k < l1.len() implies #[trigger] l1[k] == l2[k] by {
        let (x, y) = (p[k].0@, p[k].1@);
        assert(q[k].0@ == x && q[k].1@ == y);
        lemma_batches_ids(val, c, before, p, a, k);
        assert(batch_loss_is(c, params, x, y, None, l1[k]));
        assert(batch_loss_is(c, params, x, y, None, l2[k]));
        let a1 = choose|acts: Seq<F>| #[trigger]
            forward_is(c, params, x, None, acts) && scored_is(c, acts, y, l1[k]);
        let a2 = choose|acts: Seq<F>| #[trigger]
            forward_is(c, params, x, None, acts) && scored_is(c, acts, y, l2[k]);
        lemma_forward_deterministic(c, params, None, x, y, a1, a2, l1[k], l2[k]);
    }
    assert(l1 =~= l2);
    lemma_total_unique(l1, s1, s2);
}

/// The reported loss does not depend on the training stream: from one updated
/// model and one state of the generator, two steps with the same validation
/// stream report the same loss, whatever they were trained on, and leave the
/// generator in the same state.
pub proof fn lemma_report_ignores_training_stream<F: Single>(
    before1: StdRng,
    before2: StdRng,
    old_m1: Gpt<F>,
    old_m2: Gpt<F>,
    old_p1: Progress<F>,
    old_p2: Progress<F>,
    train1: DataLoader,
    train2: DataLoader,
    val: DataLoader,
    step: usize,
    cfg: TrainConfig<F>,
    mid: Gpt<F>,
    updated: StdRng,
    new_m1: Gpt<F>,
    new_m2: Gpt<F>,
    new_p1: Progress<F>,
    new_p2: Progress<F>,
    report1: StepReport<F>,
    report2: StepReport<F>,
    after1: StdRng,
    after2: StdRng,
)
    requires
        single_valued::<F>(),
        indices_single_valued(),
        mid.cfg.runs(),
        serves(val, mid.cfg),
        eval_due(step, cfg.eval_every),
        trained_via(
            before1,
            old_m1,
            old_p1,
            train1,
            val,
            step,
            cfg,
            mid,
            updated,
            new_m1,
            new_p1,
            report1,
            after1,
        ),
        trained_via(
            before2,
            old_m2,
            old_p2,
            train2,
            val,
            step,
            cfg,
            mid,
            updated,
            new_m2,
            new_p2,
            report2,
            after2,
        ),
    ensures
        report1.eval is Some,
        report2.eval is Some,
        report1.eval->Some_0.0 == report2.eval->Some_0.0,
        after1 == after2,
{
    lemma_evaluation_unique(
        mid.cfg,
        mid.params@,
        val,
        cfg.eval_batches,
        updated,
        report1.eval->Some_0.0,
        after1,
        report2.eval->Some_0.0,
        after2,
    );
}

/// An evaluation is due at the first step and at every multiple of `eval_every`,
/// and at no other.
pub proof fn lemma_due(step: usize, eval_every: usize)
    requires
        0 < eval_every,
    ensures
        eval_due(step, eval_every) <==> step == 1 || exists|k: nat| #[trigger]
            (k * (eval_every as nat)) == step,
{
    let (s, e) = (step as int, eval_every as int);
    vstd::arithmetic::div_mod::lemma_fundamental_div_mod(s, e);
    if s % e == 0 {
        let k = (s / e) as nat;
        assert(e * (s / e) == (s / e) * e) by (nonlinear_arith);
        assert(k * (eval_every as nat) == step);
    }
    if exists|k: nat| #[trigger] (k * (eval_every as nat)) == step {
        let k = choose|k: nat| #[trigger] (k * (eval_every as nat)) == step;
        vstd::arithmetic::div_mod::lemma_mod_multiples_basic(k as int, e);
    }
}

/// The loss of an evaluation times the number of batches is the sum of the
/// losses of the batches.
pub proof fn lemma_evaluation_value<F: Single>(
    val: spec_fn(F) -> real,
    c: Config,
    params: Seq<F>,
    batches: Seq<(Vec<u16>, Vec<u16>)>,
    r: F,
)
    requires
        exact(val),
        0 < batches.len() <= usize::MAX,
        evaluation_is(c, params, batches, r),
    ensures
        exists|losses: Seq<F>|
            losses.len() == batches.len() && times(val(r), batches.len() as int as real)
                == #[trigger] total_of(val, losses) && forall|k: int|
                0 <= k < losses.len() ==> batch_loss_is(
                    c,
                    params,
                    batches[k].0@,
                    batches[k].1@,
                    None,
                    #[trigger] losses[k],
                ),
{
    let (losses, sum, count) = choose|losses: Seq<F>, sum: F, count: F| #[trigger]
        batch_losses_are(c, params, batches, losses) && #[trigger] total_is(losses, sum)
            && #[trigger] ratio_is(batches.len() as usize, 1, count) && quotient_is(sum, count, r);
    lemma_total_value(val, losses, sum);
    let k = val(count);
    assert(k * (1 as int as real) == batches.len() as int as real);
    assert(k * 1 as real == k) by (nonlinear_arith);
    assert(times(val(r), batches.len() as int as real) == total_of(val, losses));
}

/// The optimizer of an update has the decays 0.9 and 0.999 and the guard 1e-8,
/// and the learning rate and the weight decay that are asked for; its step number
/// is one more than the number of steps so far. Each parameter moves by it, with
/// the gradient that the update computed.
pub proof fn lemma_update_moves<F: Single>(
    val: spec_fn(F) -> real,
    before: StdRng,
    old_m: Gpt<F>,
    x: Seq<u16>,
    y: Seq<u16>,
    lr: F,
    weight_decay: F,
    acts: Seq<F>,
    new_m: Gpt<F>,
    loss: F,
    after: StdRng,
    i: int,
)
    requires
        exact(val),
        exact_integer_powers(val),
        exact_roots(val),
        0 <= i < old_m.params@.len(),
        old_m.adam_t < i32::MAX,
        val(old_m.v@[i]) >= 0 as real,
        update_is(before, old_m, x, y, lr, weight_decay, acts, new_m, loss, after),
    ensures
        new_m.adam_t == old_m.adam_t + 1,
        val(new_m.v@[i]) >= 0 as real,
        exists|h: AdamW<F>, mh: real, root: real, move_by: real|
            #[trigger] param_moved(
                val,
                h,
                (old_m.adam_t + 1) as nat,
                new_m.grads@[i],
                old_m.params@[i],
                old_m.m@[i],
                old_m.v@[i],
                new_m.params@[i],
                new_m.m@[i],
                new_m.v@[i],
                mh,
                root,
                move_by,
            ) && h.lr == lr && h.weight_decay == weight_decay && 10 as real * val(h.beta1)
                == 9 as real && 1000 as real * val(h.beta2) == 999 as real && 100000000 as real
                * val(h.eps) == 1 as real,
{
    let t = (old_m.adam_t + 1) as u64 as i32;
    let h = choose|h: AdamW<F>| #[trigger]
        optimizer_is(lr, weight_decay, h) && adam_is(
            h,
            t,
            new_m.grads@,
            (old_m.params@, old_m.m@, old_m.v@),
            (new_m.params@, new_m.m@, new_m.v@),
        );
    assert(val(h.beta1) * (10 as int as real) == 9 as int as real);
    assert(val(h.beta2) * (1000 as int as real) == 999 as int as real);
    assert(val(h.eps) * (100_000_000 as int as real) == 1 as int as real);
    assert(sound_settings(val, h));
    let old_s = (old_m.params@, old_m.m@, old_m.v@);
    let new_s = (new_m.params@, new_m.m@, new_m.v@);
    assert(t == old_m.adam_t + 1);
    lemma_adam_moves(val, h, t, new_m.grads@, old_s, new_s, i);
}

/// A loss below the best so far is an improvement, and nothing else is. The best
/// is then the smaller of the two, and the evaluations since the last improvement
/// are counted; as many as the patience without one stop the run.
pub proof fn lemma_judged_by_value<F: Scalar>(
    val: spec_fn(F) -> real,
    p: Progress<F>,
    vl: F,
    patience: usize,
    q: Progress<F>,
    verdict: Verdict,
)
    requires
        exact(val),
        judged_is(p, vl, patience, q, verdict),
    ensures
        verdict == Verdict::Improved <==> val(vl) < val(p.best),
        val(q.best) <= val(vl) && val(q.best) <= val(p.best),
        q.best == vl || q.best == p.best,
        q.since_improved == if val(vl) < val(p.best) {
            0
        } else {
            p.since_improved + 1
        },
        verdict == Verdict::Stop <==> q.since_improved >= patience && val(vl) >= val(p.best),
{
}

/// With dropout on, the forward and the backward pass of an update go through the
/// same keep factors, which follow from draws of that update; with dropout off
/// through none, and nothing is drawn.
pub proof fn lemma_update_drops<F: Single>(
    before: StdRng,
    old_m: Gpt<F>,
    x: Seq<u16>,
    y: Seq<u16>,
    lr: F,
    weight_decay: F,
    acts: Seq<F>,
    new_m: Gpt<F>,
    loss: F,
    after: StdRng,
)
    requires
        update_is(before, old_m, x, y, lr, weight_decay, acts, new_m, loss, after),
    ensures
        ({
            let c = old_m.cfg;
            let p = old_m.params@;
            if old_m.drops {
                let masks = Some(new_m.masks@);
                &&& exists|draws: Seq<F>|
                    draws_are(before, draws, after) && #[trigger] masks_are(
                        old_m.dropout,
                        draws,
                        new_m.masks@,
                    )
                &&& forward_is(c, p, x, masks, acts)
                &&& backward_is(c, p, x, y, masks, acts, new_m.grads@, new_m.gacts@)
            } else {
                &&& after == before
                &&& forward_is(c, p, x, None, acts)
                &&& backward_is(c, p, x, y, None, acts, new_m.grads@, new_m.gacts@)
            }
        }),
{
}

/// A training step moves every parameter by AdamW with the learning rate and the
/// weight decay of the configuration, and counts one step on.
pub proof fn lemma_step_moves<F: Single>(
    val: spec_fn(F) -> real,
    before: StdRng,
    old_m: Gpt<F>,
    old_p: Progress<F>,
    train: DataLoader,
    valid: DataLoader,
    step: usize,
    cfg: TrainConfig<F>,
    new_m: Gpt<F>,
    new_p: Progress<F>,
    report: StepReport<F>,
    after: StdRng,
    i: int,
)
    requires
        exact(val),
        exact_integer_powers(val),
        exact_roots(val),
        0 <= i < old_m.params@.len(),
        old_m.adam_t < i32::MAX,
        val(old_m.v@[i]) >= 0 as real,
        trained_is(
            before,
            old_m,
            old_p,
            train,
            valid,
            step,
            cfg,
            new_m,
            new_p,
            report,
            after,
        ),
    ensures
        new_m.adam_t == old_m.adam_t + 1,
        exists|h: AdamW<F>, mh: real, root: real, move_by: real|
            #[trigger] param_moved(
                val,
                h,
                (old_m.adam_t + 1) as nat,
                new_m.grads@[i],
                old_m.params@[i],
                old_m.m@[i],
                old_m.v@[i],
                new_m.params@[i],
                new_m.m@[i],
                new_m.v@[i],
                mh,
                root,
                move_by,
            ) && h.lr == cfg.lr && h.weight_decay == cfg.weight_decay && 10 as real * val(h.beta1)
                == 9 as real && 1000 as real * val(h.beta2) == 999 as real && 100000000 as real
                * val(h.eps) == 1 as real,
{
    let (mid, updated) = choose|mid: Gpt<F>, updated: StdRng| #[trigger]
        trained_via(
            before,
            old_m,
            old_p,
            train,
            valid,
            step,
            cfg,
            mid,
            updated,
            new_m,
            new_p,
            report,
            after,
        );
    let (x, y, fed) = choose|x: Seq<u16>, y: Seq<u16>, fed: StdRng| #[trigger]
        batch_drawn_is(train, before, x, y, fed) && #[trigger] update_is(
            fed,
            old_m,
            x,
            y,
            cfg.lr,
            cfg.weight_decay,
            mid.acts@,
            mid,
            report.loss,
            updated,
        );
    assert(new_m.params == mid.params && new_m.grads == mid.grads);
    assert(new_m.m == mid.m && new_m.v == mid.v && new_m.adam_t == mid.adam_t);
    lemma_update_moves(
        val,
        fed,
        old_m,
        x,
        y,
        cfg.lr,
        cfg.weight_decay,
        mid.acts@,
        mid,
        report.loss,
        updated,
        i,
    );
}

/// A step that is due judges its validation loss: below the best so far it is an
/// improvement; as many evaluations without one as the patience of the
/// configuration stop the run. Another step judges nothing.
pub proof fn lemma_step_judged<F: Single>(
    val: spec_fn(F) -> real,
    before: StdRng,
    old_m: Gpt<F>,
    old_p: Progress<F>,
    train: DataLoader,
    valid: DataLoader,
    step: usize,
    cfg: TrainConfig<F>,
    new_m: Gpt<F>,
    new_p: Progress<F>,
    report: StepReport<F>,
    after: StdRng,
)
    requires
        exact(val),
        trained_is(
            before,
            old_m,
            old_p,
            train,
            valid,
            step,
            cfg,
            new_m,
            new_p,
            report,
            after,
        ),
    ensures
        report.eval is Some <==> eval_due(step, cfg.eval_every),
        report.eval is None ==> new_p == old_p,
        report.eval matches Some(e) ==> {
            &&& e.1 == Verdict::Improved <==> val(e.0) < val(old_p.best)
            &&& new_p.best == e.0 || new_p.best == old_p.best
            &&& val(new_p.best) <= val(e.0) && val(new_p.best) <= val(old_p.best)
            &&& e.1 == Verdict::Stop <==> val(e.0) >= val(old_p.best) && old_p.since_improved + 1
                >= cfg.patience
            &&& new_p.since_improved == if val(e.0) < val(old_p.best) {
                0
            } else {
                old_p.since_improved + 1
            }
        },
{
    let (mid, updated) = choose|mid: Gpt<F>, updated: StdRng| #[trigger]
        trained_via(
            before,
            old_m,
            old_p,
            train,
            valid,
            step,
            cfg,
            mid,
            updated,
            new_m,
            new_p,
            report,
            after,
        );
    if let Some(e) = report.eval {
        assert(judged_is(old_p, e.0, cfg.patience, new_p, e.1));
        lemma_judged_by_value(val, old_p, e.0, cfg.patience, new_p, e.1);
    }
}

/// Infinity exceeds every other loss that is compared with it.
pub open spec fn infinity_tops<F: Scalar>(vl: F) -> bool {
    forall|top: F, r: bool| #[trigger] is_infinity(top) && #[trigger] exceeds_is(top, vl, r) ==> r
}

/// The first evaluation of a run is an improvement, whatever its loss below
/// infinity, and nothing is counted against it.
pub proof fn lemma_first_improves<F: Scalar>(
    p: Progress<F>,
    vl: F,
    patience: usize,
    q: Progress<F>,
    verdict: Verdict,
)
    requires
        infinity_tops(vl),
        call_ensures(Progress::<F>::start, (), p),
        judged_is(p, vl, patience, q, verdict),
    ensures
        p.since_improved == 0,
        verdict == Verdict::Improved,
        q.best == vl,
        q.since_improved == 0,
{
}

} // verus!
