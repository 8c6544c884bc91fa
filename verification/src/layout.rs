//! The two orders of multichannel audio: interleaved, as files hold it, and
//! channel-major, one sequence per channel.

use vstd::prelude::*;

#[allow(unused_imports)]
use vstd::arithmetic::div_mod::{lemma_fundamental_div_mod, lemma_fundamental_div_mod_converse};

verus! {

/// The contents of a channel-major block.
pub open spec fn block<T>(chans: Seq<Vec<T>>) -> Seq<Seq<T>> {
    Seq::new(chans.len(), |c: int| chans[c]@)
}

/// Every channel of the block has at least `n` samples.
pub open spec fn holds_frames<T>(chans: Seq<Seq<T>>, n: nat) -> bool {
    forall|c: int| 0 <= c < chans.len() ==> n <= (#[trigger] chans[c]).len()
}

/// Every channel of the block has exactly `n` samples.
pub open spec fn has_frames<T>(chans: Seq<Seq<T>>, n: nat) -> bool {
    forall|c: int| 0 <= c < chans.len() ==> (#[trigger] chans[c]).len() == n
}

/// The place of frame `t` of channel `c` among interleaved samples.
pub open spec fn place(t: int, c: int, channels: int) -> int {
    t * channels + c
}

/// The first `n` frames of a block, interleaved.
pub open spec fn interleaved<T>(chans: Seq<Seq<T>>, n: nat) -> Seq<T> {
    Seq::new(
        n * chans.len(),
        |i: int| chans[i % (chans.len() as int)][i / (chans.len() as int)],
    )
}

/// How many of `len` interleaved samples belong to channel `c`.
pub open spec fn channel_len(len: nat, c: int, channels: nat) -> nat {
    if c < len % channels {
        len / channels + 1
    } else {
        len / channels
    }
}

/// The samples of channel `c` among interleaved samples.
pub open spec fn channel<T>(samples: Seq<T>, c: int, channels: nat) -> Seq<T> {
    Seq::new(
        channel_len(samples.len(), c, channels),
        |t: int| samples[place(t, c, channels as int)],
    )
}

/// Interleaved samples as a block of `channels` channels. Where the last
/// frame is unfinished, the first channels are one sample longer.
pub open spec fn deinterleaved<T>(samples: Seq<T>, channels: nat) -> Seq<Seq<T>> {
    Seq::new(channels, |c: int| channel(samples, c, channels))
}

/// A block with the first `k` of the interleaved samples laid over its first
/// `channels` channels.
pub open spec fn overlaid<T>(
    chans: Seq<Seq<T>>,
    samples: Seq<T>,
    k: nat,
    channels: nat,
) -> Seq<Seq<T>> {
    Seq::new(
        chans.len(),
        |c: int|
            Seq::new(
                chans[c].len(),
                |t: int|
                    if c < channels && place(t, c, channels as int) < k {
                        samples[place(t, c, channels as int)]
                    } else {
                        chans[c][t]
                    },
            ),
    )
}

/// A channel made `n` samples long with `zero`, unless it is longer already.
pub open spec fn grown_channel<T>(chan: Seq<T>, n: nat, zero: T) -> Seq<T> {
    if chan.len() < n {
        chan + Seq::new((n - chan.len()) as nat, |t: int| zero)
    } else {
        chan
    }
}

/// A block with every channel made at least `n` samples long with `zero`.
pub open spec fn grown<T>(chans: Seq<Seq<T>>, n: nat, zero: T) -> Seq<Seq<T>> {
    Seq::new(chans.len(), |c: int| grown_channel(chans[c], n, zero))
}

/// The place of a sample tells its channel and its frame.
pub proof fn lemma_place(t: int, c: int, channels: int)
    requires
        0 <= c < channels,
        0 <= t,
    ensures
        place(t, c, channels) / channels == t,
        place(t, c, channels) % channels == c,
        0 <= place(t, c, channels),
{
    lemma_fundamental_div_mod_converse(place(t, c, channels), channels, t, c);
    assert(0 <= t * channels) by (nonlinear_arith)
        requires
            0 <= t,
            0 < channels,
    ;
}

/// Every sample stands at the place of its frame and channel.
pub proof fn lemma_place_of(i: int, channels: int)
    requires
        0 < channels,
        0 <= i,
    ensures
        place(i / channels, i % channels, channels) == i,
        0 <= i % channels < channels,
        0 <= i / channels,
{
    lemma_fundamental_div_mod(i, channels);
    assert(channels * (i / channels) == (i / channels) * channels) by (nonlinear_arith);
    assert(0 <= i / channels) by (nonlinear_arith)
        requires
            0 <= i,
            0 < channels,
    ;
}

/// The frame and channel of the sample after sample `i`.
pub proof fn lemma_next_place(i: int, channels: int)
    requires
        0 < channels,
        0 <= i,
    ensures
        i % channels + 1 < channels ==> (i + 1) % channels == i % channels + 1 && (i + 1) / channels
            == i / channels,
        i % channels + 1 == channels ==> (i + 1) % channels == 0 && (i + 1) / channels == i
            / channels + 1,
{
    lemma_place_of(i, channels);
    let t = i / channels;
    let c = i % channels;
    if c + 1 < channels {
        lemma_fundamental_div_mod_converse(i + 1, channels, t, c + 1);
    } else {
        assert((t + 1) * channels == t * channels + channels) by (nonlinear_arith);
        lemma_fundamental_div_mod_converse(i + 1, channels, t + 1, 0);
    }
}

/// A sample stands before place `k` just where its channel gets it from the
/// first `k` samples.
pub proof fn lemma_channel_len(k: nat, t: int, c: int, channels: nat)
    requires
        0 <= c < channels,
        0 <= t,
    ensures
        t < channel_len(k, c, channels) <==> place(t, c, channels as int) < k,
{
    let n = channels as int;
    lemma_place_of(k as int, n);
    let q = k as int / n;
    let r = k as int % n;
    if t < q {
        assert((t + 1) * n <= q * n) by (nonlinear_arith)
            requires
                t + 1 <= q,
                0 < n,
        ;
        assert((t + 1) * n == t * n + n) by (nonlinear_arith);
    } else if t > q {
        assert((q + 1) * n <= t * n) by (nonlinear_arith)
            requires
                q + 1 <= t,
                0 < n,
        ;
        assert((q + 1) * n == q * n + n) by (nonlinear_arith);
    }
}

/// Whether every channel of a block has at least `n` samples.
pub fn has_room<T>(chans: &[Vec<T>], n: usize) -> (r: bool)
    ensures
        r == holds_frames(block(chans@), n as nat),
{
    let mut c: usize = 0;
    while c < chans.len()
        invariant
            c <= chans@.len(),
            forall|d: int| 0 <= d < c ==> n <= (#[trigger] block(chans@)[d]).len(),
        decreases chans@.len() - c,
    {
        if chans[c].len() < n {
            assert(block(chans@)[c as int].len() < n);
            return false;
        }
        c += 1;
    }
    true
}

/// The first `n` frames of a block, interleaved.
pub fn interleave<T: Copy>(chans: &[Vec<T>], n: usize) -> (samples: Vec<T>)
    requires
        holds_frames(block(chans@), n as nat),
    ensures
        samples@ == interleaved(block(chans@), n as nat),
{
    let mut samples: Vec<T> = Vec::new();
    let ghost width = chans@.len();
    let ghost all = block(chans@);
    let mut t: usize = 0;
    while t < n
        invariant
            t <= n,
            width == chans@.len(),
            all == block(chans@),
            holds_frames(all, n as nat),
            samples@ == interleaved(all, t as nat),
        decreases n - t,
    {
        let mut c: usize = 0;
        proof {
            assert(samples@.len() == place(t as int, 0, width as int));
        }
        while c < chans.len()
            invariant
                t < n,
                c <= chans@.len(),
                width == chans@.len(),
                all == block(chans@),
                holds_frames(all, n as nat),
                samples@.len() == place(t as int, c as int, width as int),
                forall|i: int|
                    0 <= i < samples@.len() ==> #[trigger] samples@[i] == all[i % (width as int)][i
                        / (width as int)],
            decreases chans@.len() - c,
        {
            proof {
                assert(all[c as int].len() >= n);
                lemma_place(t as int, c as int, width as int);
            }
            samples.push(chans[c][t]);
            c += 1;
        }
        proof {
            assert((t + 1) * width == t * width + width) by (nonlinear_arith);
            assert(samples@ =~= interleaved(all, (t + 1) as nat));
        }
        t += 1;
    }
    samples
}

/// Interleaved samples as a block of `channels` channels.
pub fn deinterleave<T: Copy>(samples: &[T], channels: usize) -> (chans: Vec<Vec<T>>)
    requires
        channels > 0,
    ensures
        block(chans@) == deinterleaved(samples@, channels as nat),
{
    let mut chans: Vec<Vec<T>> = Vec::new();
    while chans.len() < channels
        invariant
            chans@.len() <= channels,
            forall|c: int| 0 <= c < chans@.len() ==> (#[trigger] chans@[c])@ == Seq::<T>::empty(),
        decreases channels - chans@.len(),
    {
        chans.push(Vec::new());
    }
    let ghost width = channels as nat;
    proof {
        assert(samples@.take(0).len() == 0);
        lemma_place_of(0, width as int);
        lemma_place(0, 0, width as int);
        assert forall|c: int| 0 <= c < width implies (#[trigger] chans@[c])@ == channel(
            samples@.take(0),
            c,
            width,
        ) by {
            lemma_channel_len(0, 0, c, width);
            lemma_place(0, c, width as int);
            assert(chans@[c]@ =~= channel(samples@.take(0), c, width));
        }
    }
    let mut i: usize = 0;
    let mut c: usize = 0;
    while i < samples.len()
        invariant
            i <= samples@.len(),
            width == channels,
            width > 0,
            chans@.len() == width,
            c == i as int % (width as int),
            c < width,
            forall|d: int|
                0 <= d < width ==> (#[trigger] chans@[d])@ == channel(
                    samples@.take(i as int),
                    d,
                    width,
                ),
        decreases samples@.len() - i,
    {
        let ghost before = chans@;
        let x = samples[i];
        chans[c].push(x);
        proof {
            lemma_next_place(i as int, width as int);
            lemma_place_of(i as int, width as int);
            assert forall|d: int| 0 <= d < width implies (#[trigger] chans@[d])@ == channel(
                samples@.take(i + 1),
                d,
                width,
            ) by {
                assert(before[d]@ == channel(samples@.take(i as int), d, width));
                let after = channel(samples@.take(i + 1), d, width);
                assert(chans@[d]@.len() == after.len());
                assert forall|t: int| 0 <= t < after.len() implies chans@[d]@[t] == after[t] by {
                    lemma_channel_len(i as nat + 1, t, d, width);
                    lemma_channel_len(i as nat, t, d, width);
                    lemma_place(t, d, width as int);
                }
                assert(chans@[d]@ =~= after);
            }
        }
        i += 1;
        c = if c + 1 < channels { c + 1 } else { 0 };
    }
    proof {
        assert(samples@.take(i as int) =~= samples@);
        assert(block(chans@) =~= deinterleaved(samples@, width));
    }
    chans
}

/// Makes every channel at least `n` samples long, with `zero`.
pub fn grow<T: Copy>(chans: &mut Vec<Vec<T>>, n: usize, zero: T)
    ensures
        final(chans)@.len() == old(chans)@.len(),
        block(final(chans)@) == grown(block(old(chans)@), n as nat, zero),
{
    let ghost before = block(chans@);
    let mut c: usize = 0;
    while c < chans.len()
        invariant
            c <= chans@.len(),
            chans@.len() == before.len(),
            forall|d: int|
                0 <= d < c ==> (#[trigger] chans@[d])@ == grown_channel(before[d], n as nat, zero),
            forall|d: int| c <= d < chans@.len() ==> (#[trigger] chans@[d])@ == before[d],
        decreases chans@.len() - c,
    {
        let ghost start = chans@[c as int]@;
        while chans[c].len() < n
            invariant
                c < chans@.len(),
                chans@.len() == before.len(),
                start == before[c as int],
                chans@[c as int]@.len() >= start.len(),
                chans@[c as int]@.len() <= n || chans@[c as int]@ == start,
                chans@[c as int]@ == start + Seq::new(
                    (chans@[c as int]@.len() - start.len()) as nat,
                    |t: int| zero,
                ),
                forall|d: int|
                    0 <= d < c ==> (#[trigger] chans@[d])@ == grown_channel(
                        before[d],
                        n as nat,
                        zero,
                    ),
                forall|d: int| c < d < chans@.len() ==> (#[trigger] chans@[d])@ == before[d],
            decreases n - chans@[c as int]@.len(),
        {
            chans[c].push(zero);
        }
        assert(chans@[c as int]@ =~= grown_channel(before[c as int], n as nat, zero));
        c += 1;
    }
    assert(block(chans@) =~= grown(before, n as nat, zero));
}

/// Lays the first `k` of the interleaved samples over the first `channels`
/// channels of a block.
pub fn overlay<T: Copy>(chans: &mut Vec<Vec<T>>, samples: &[T], k: usize, channels: usize)
    requires
        k <= samples@.len(),
        channels <= old(chans)@.len(),
        forall|c: int|
            0 <= c < channels ==> channel_len(k as nat, c, channels as nat) <= (#[trigger] block(
                old(chans)@,
            )[c]).len(),
        k > 0 ==> channels > 0,
    ensures
        final(chans)@.len() == old(chans)@.len(),
        block(final(chans)@) == overlaid(
            block(old(chans)@),
            samples@,
            k as nat,
            channels as nat,
        ),
{
    let ghost before = block(chans@);
    let ghost width = channels as nat;
    let mut i: usize = 0;
    let mut t: usize = 0;
    let mut c: usize = 0;
    proof {
        assert forall|d: int| 0 <= d < before.len() implies (#[trigger] chans@[d])@ == overlaid(
            before,
            samples@,
            0,
            width,
        )[d] by {
            assert forall|u: int| 0 <= u < before[d].len() implies overlaid(
                before,
                samples@,
                0,
                width,
            )[d][u] == before[d][u] by {
                if d < width {
                    lemma_place(u, d, width as int);
                }
            }
            assert(chans@[d]@ =~= overlaid(before, samples@, 0, width)[d]);
        }
        if width > 0 {
            lemma_place(0, 0, width as int);
        }
    }
    while i < k
        invariant
            i <= k <= samples@.len(),
            width == channels,
            width <= before.len(),
            chans@.len() == before.len(),
            k > 0 ==> width > 0,
            i < k ==> c == i as int % (width as int) && t == i as int / (width as int),
            i < k ==> c < width,
            forall|d: int|
                0 <= d < width ==> channel_len(k as nat, d, width) <= (#[trigger] before[d]).len(),
            forall|d: int|
                0 <= d < before.len() ==> (#[trigger] chans@[d])@ == overlaid(
                    before,
                    samples@,
                    i as nat,
                    width,
                )[d],
        decreases k - i,
    {
        let x = samples[i];
        let ghost mid = chans@;
        proof {
            lemma_place_of(i as int, width as int);
            lemma_channel_len(k as nat, t as int, c as int, width);
            lemma_next_place(i as int, width as int);
            assert(mid[c as int]@ == overlaid(before, samples@, i as nat, width)[c as int]);
        }
        chans[c].set(t, x);
        proof {
            assert forall|d: int| 0 <= d < before.len() implies (#[trigger] chans@[d])@
                == overlaid(before, samples@, (i + 1) as nat, width)[d] by {
                let after = overlaid(before, samples@, (i + 1) as nat, width)[d];
                assert(mid[d]@ == overlaid(before, samples@, i as nat, width)[d]);
                assert forall|u: int| 0 <= u < before[d].len() implies chans@[d]@[u]
                    == after[u] by {
                    if d < width {
                        lemma_place(u, d, width as int);
                    }
                }
                assert(chans@[d]@ =~= after);
            }
        }
        i += 1;
        if c + 1 < channels {
            c += 1;
        } else {
            c = 0;
            if i < k {
                proof {
                    lemma_channel_len(k as nat, t + 1, 0, width);
                    lemma_place_of(i as int, width as int);
                    assert(before[0].len() > t);
                }
                t += 1;
            }
        }
    }
    assert(block(chans@) =~= overlaid(before, samples@, k as nat, width));
}

} // verus!
