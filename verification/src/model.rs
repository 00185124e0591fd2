//! The integer rules of the nano-GPT model: how attention heads split the
//! residual width, and which window of a growing context generation feeds
//! to the model. The tensor arithmetic itself lives outside this library.
use vstd::prelude::*;

verus! {

/// `d_model` splits evenly over `n_head` attention heads: it is a multiple
/// of `n_head` (with zero a multiple only of itself when `n_head` is zero).
pub open spec fn splits_evenly(d_model: nat, n_head: nat) -> bool {
    if n_head == 0 {
        d_model == 0
    } else {
        d_model % n_head == 0
    }
}

/// `d` is `k` times `n`.
pub open spec fn is_k_times(d: nat, n: nat, k: nat) -> bool {
    d == k * n
}

/// The residual width splits evenly over the heads exactly when it is a
/// whole number of head widths: `d_model == k * n_head` for some `k`.
pub proof fn law_split_means_whole_multiple(d_model: nat, n_head: nat)
    ensures
        splits_evenly(d_model, n_head) <==> exists|k: nat| #[trigger] is_k_times(d_model, n_head, k),
{
    if n_head == 0 {
        if d_model == 0 {
            assert(is_k_times(d_model, n_head, 0));
        }
        assert forall|k: nat| #[trigger] is_k_times(d_model, n_head, k) implies d_model == 0 by {
            assert(k * 0 == 0) by (nonlinear_arith);
        }
    } else {
        if d_model % n_head == 0 {
            vstd::arithmetic::div_mod::lemma_fundamental_div_mod(d_model as int, n_head as int);
            let k = d_model / n_head;
            assert(d_model == k * n_head) by (nonlinear_arith)
                requires
                    d_model == n_head * k + 0,
            ;
            assert(is_k_times(d_model, n_head, k));
        }
        assert forall|k: nat| #[trigger] is_k_times(d_model, n_head, k) implies d_model % n_head
            == 0 by {
            vstd::arithmetic::div_mod::lemma_mod_multiples_basic(k as int, n_head as int);
        }
    }
}

/// Whether `d_model` is a multiple of `n_head`, which the model requires
/// before it cuts the residual stream into per-head slices.
pub fn heads_split_evenly(d_model: usize, n_head: usize) -> (b: bool)
    ensures
        b == splits_evenly(d_model as nat, n_head as nat),
        b <==> exists|k: nat| #[trigger] is_k_times(d_model as nat, n_head as nat, k),
        n_head > 0 ==> (b <==> d_model == n_head * (d_model / n_head)),
{
    proof {
        law_split_means_whole_multiple(d_model as nat, n_head as nat);
        if n_head > 0 {
            vstd::arithmetic::div_mod::lemma_fundamental_div_mod(d_model as int, n_head as int);
        }
    }
    if n_head == 0 {
        d_model == 0
    } else {
        d_model % n_head == 0
    }
}

/// First position of the context window that generation feeds to the model:
/// when the running context is longer than `block_size`, the oldest tokens
/// are dropped, since the positional embedding only covers `block_size`
/// positions.
pub fn context_start(seq: usize, block_size: usize) -> (start: usize)
    ensures
        start == (if seq > block_size {
            seq - block_size
        } else {
            0
        }),
{
    if seq > block_size {
        seq - block_size
    } else {
        0
    }
}

/// The window that generation feeds to the model is the most recent part
/// of the context, as long as the context but never longer than
/// `block_size`, so the model's length check always passes.
pub proof fn law_generation_window_fits(seq: nat, block_size: nat)
    ensures
        ({
            let start = if seq > block_size {
                seq - block_size
            } else {
                0
            };
            &&& start <= seq
            &&& seq - start <= block_size
            &&& seq - start == (if seq < block_size {
                seq
            } else {
                block_size
            })
        }),
{
}

} // verus!
