//! How much audio goes into the model, and how much comes out.

use vstd::prelude::*;

#[allow(unused_imports)]
use crate::session::beyond;

verus! {

/// The delay of a model in frames.
pub open spec fn delay_of(fft_size: int, hop_size: int, lookahead: int) -> int {
    fft_size - hop_size + lookahead * hop_size
}

/// A model that does not look ahead lags by what its transform sees beyond a
/// hop, and every hop that it looks ahead adds a hop.
pub proof fn law_delay(fft_size: int, hop_size: int, lookahead: int)
    ensures
        delay_of(fft_size, hop_size, 0) + hop_size == fft_size,
        delay_of(fft_size, hop_size, lookahead + 1) == delay_of(fft_size, hop_size, lookahead)
            + hop_size,
{
    assert(0 * hop_size == 0) by (nonlinear_arith);
    assert((lookahead + 1) * hop_size == lookahead * hop_size + hop_size) by (nonlinear_arith);
}

/// The delay of a model in frames: that of its transform, and that of the
/// hops it looks ahead.
pub fn model_delay(fft_size: usize, hop_size: usize, lookahead: usize) -> (delay: usize)
    requires
        hop_size <= fft_size,
        fft_size - hop_size + lookahead * hop_size <= usize::MAX,
    ensures
        delay == fft_size - hop_size + lookahead * hop_size,
        delay == delay_of(fft_size as int, hop_size as int, lookahead as int),
{
    let transform = fft_size - hop_size;
    assert(0 <= lookahead * hop_size) by (nonlinear_arith);
    transform + lookahead * hop_size
}

/// Whether audio at one rate has to be resampled to be at another.
pub open spec fn rate_changes(from: usize, to: usize) -> bool {
    from != to
}

/// Audio stays as it is at its own rate and at no other; what has to be
/// resampled on the way in has to be on the way out.
pub proof fn law_rate_changes(from: usize, to: usize)
    ensures
        !rate_changes(from, from),
        !rate_changes(from, to) ==> from == to,
        rate_changes(from, to) == rate_changes(to, from),
{
}

/// The length of audio after a change of its rate: what `out_len`, the rule of
/// the resampler, makes of the length and the two rates, where these differ.
pub fn length_after<F: FnOnce(usize, usize, usize) -> usize>(
    n: usize,
    from: usize,
    to: usize,
    out_len: F,
) -> (len: usize)
    requires
        from != to ==> call_requires(out_len, (n, from, to)),
    ensures
        from == to ==> len == n,
        from != to ==> call_ensures(out_len, (n, from, to), len),
        !rate_changes(from, to) ==> len == n,
        rate_changes(from, to) ==> call_ensures(out_len, (n, from, to), len),
{
    if from != to {
        out_len(n, from, to)
    } else {
        n
    }
}

/// The lengths of the audio of one file on its way.
#[derive(Clone, Copy, Debug, PartialEq, Eq, Structural)]
pub struct LengthBudget {
    /// The frames that come for the model.
    pub n_model: usize,
    /// The enhanced frames that are left out at the start.
    pub skip: usize,
    /// The enhanced frames that are kept.
    pub n_enh: usize,
}

/// The budget for `n_model` frames that come for a model with this delay.
pub open spec fn budget_for(n_model: usize, delay: usize, compensate_delay: bool) -> LengthBudget {
    let skip = if compensate_delay {
        delay
    } else {
        0
    };
    LengthBudget { n_model, skip, n_enh: beyond(n_model as nat, skip as nat) as usize }
}

impl LengthBudget {
    /// Nothing is kept of the audio, for its delay is compensated for.
    pub open spec fn too_short(&self) -> bool {
        self.skip > 0 && self.n_model <= self.skip
    }

    /// The budget for `n_model` frames that come for a model with this delay.
    /// Where the delay is compensated for, as many frames are left out at the
    /// start.
    pub fn new(n_model: usize, delay: usize, compensate_delay: bool) -> (budget: LengthBudget)
        ensures
            budget.n_model == n_model,
            budget.skip == if compensate_delay {
                delay
            } else {
                0
            },
            budget.n_enh == beyond(n_model as nat, budget.skip as nat),
            budget == budget_for(n_model, delay, compensate_delay),
    {
        let skip = if compensate_delay {
            delay
        } else {
            0
        };
        LengthBudget { n_model, skip, n_enh: n_model.saturating_sub(skip) }
    }

    /// The audio is no longer than the delay that is compensated for, so that
    /// nothing of it is kept.
    pub fn is_too_short(&self) -> (r: bool)
        ensures
            r == (self.skip > 0 && self.n_model <= self.skip),
            r == self.too_short(),
    {
        self.skip > 0 && self.n_model <= self.skip
    }
}

/// What is left out and what is kept make up the audio, as far as it goes.
/// The delay is left out where it is compensated for, and nothing else ever
/// is. Audio is too short just where this leaves nothing of it.
pub proof fn law_budget_adds_up(n_model: usize, delay: usize, compensate_delay: bool)
    ensures
        ({
            let b = budget_for(n_model, delay, compensate_delay);
            &&& b.n_model == n_model
            &&& compensate_delay ==> b.skip == delay
            &&& !compensate_delay ==> b.skip == 0 && b.n_enh == n_model && !b.too_short()
            &&& b.skip <= n_model ==> b.skip + b.n_enh == n_model
            &&& b.skip > n_model ==> b.n_enh == 0
            &&& b.too_short() <==> b.skip > 0 && b.n_enh == 0
        }),
{
}

/// Without compensation all audio is kept, and with it all but the delay; of
/// audio that is too short nothing is.
pub proof fn law_budget(n_model: usize, delay: usize, compensate_delay: bool, b: LengthBudget)
    requires
        b.n_model == n_model,
        b.skip == if compensate_delay {
            delay
        } else {
            0
        },
        b.n_enh == beyond(n_model as nat, b.skip as nat),
    ensures
        !compensate_delay ==> b.n_enh == n_model,
        compensate_delay && delay <= n_model ==> b.n_enh + delay == n_model,
        b.skip > 0 && b.n_model <= b.skip ==> b.n_enh == 0,
{
}

} // verus!
