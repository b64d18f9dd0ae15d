//! What calls on a model do to it.

use vstd::prelude::*;

use crate::exact::exact;
use crate::model::{positive_is, Gpt};
use crate::model::checkpoint::{known_by_bits, lemma_checkpoint_restores};
use crate::scalar::{exceeds_is, is_one, is_zero, Single};

verus! {

/// The model `n` is `m` but for its parameters, which are `params`.
pub open spec fn reparametrised<F: Single>(m: Gpt<F>, params: Seq<F>, n: Gpt<F>) -> bool {
    &&& n.params@ == params
    &&& n == (Gpt { params: n.params, ..m })
}

/// Loading what another model saved gives its parameters, and leaves all else as
/// it was.
pub proof fn lemma_saved_is_loaded<F: Single>(saved: &Gpt<F>, bytes: Vec<u8>, read: &[u8])
    requires
        known_by_bits::<F>(),
        call_ensures(Gpt::<F>::save, (saved,), bytes),
        read@ == bytes@,
    ensures
        bytes@.len() == 4 * saved.params@.len(),
        forall|m: &mut Gpt<F>| #[trigger]
            call_ensures(Gpt::<F>::load_params, (m, read), ()) ==> reparametrised(
                *m,
                saved.params@,
                *final(m),
            ),
{
    assert forall|m: &mut Gpt<F>| #[trigger]
        call_ensures(Gpt::<F>::load_params, (m, read), ()) implies reparametrised(
        *m,
        saved.params@,
        *final(m),
    ) by {
        lemma_checkpoint_restores(saved.params@, bytes@, final(m).params@);
    }
}

/// The model `n` is `m` with the dropout probability `p`: dropout is on where `p`
/// is above zero, with a keep factor of one for every place, and off elsewhere,
/// with none.
pub open spec fn dropping<F: Single>(
    val: spec_fn(F) -> real,
    m: Gpt<F>,
    p: F,
    n: Gpt<F>,
) -> bool {
    &&& n == (Gpt { dropout: p, drops: n.drops, masks: n.masks, ..m })
    &&& n.drops == (val(p) > 0 as real)
    &&& n.masks@.len() == if n.drops {
        m.cfg.mask_total()
    } else {
        0
    }
    &&& forall|i: int| 0 <= i < n.masks@.len() ==> val(#[trigger] n.masks@[i]) == 1 as real
}

/// Setting the dropout probability does that.
pub proof fn lemma_dropout_set<F: Single>(val: spec_fn(F) -> real, p: F)
    requires
        exact(val),
    ensures
        forall|m: &mut Gpt<F>| #[trigger]
            call_ensures(Gpt::<F>::set_dropout, (m, p), ()) ==> dropping(val, *m, p, *final(m)),
{
    assert forall|m: &mut Gpt<F>| #[trigger]
        call_ensures(Gpt::<F>::set_dropout, (m, p), ()) implies dropping(
        val,
        *m,
        p,
        *final(m),
    ) by {
        let n = *final(m);
        assert(positive_is(p, n.drops));
        let zero = choose|zero: F| #[trigger] is_zero(zero) && exceeds_is(p, zero, n.drops);
        assert forall|i: int| 0 <= i < n.masks@.len() implies val(#[trigger] n.masks@[i])
            == 1 as real by {
            assert(is_one(n.masks@[i]));
        }
    }
}

} // verus!
